use vstd::prelude::*;
use crate::attributes::{AttrV, Attributes};
use crate::delta::{
    base_len, canonical, is_plain_retain, lemma_lens_prefix, mergeable, push_op, target_len,
    trim_ops, Delta, OpV, Operation,
};

verus! {

/// Order-preserving construction of a canonical delta.
pub struct DeltaBuilder {
    pub delta: Delta,
}

impl DeltaBuilder {
    pub open spec fn wf(&self) -> bool {
        self.delta.wf()
    }

    /// A builder holding the empty delta.
    pub fn new() -> (r: DeltaBuilder)
        ensures
            r.delta@ == Seq::<OpV>::empty(),
            r.wf(),
    {
        DeltaBuilder { delta: Delta::new() }
    }

    /// Appends a retain of `n` carrying `attrs`.
    pub fn retain_with_attributes(self, n: usize, attrs: Attributes) -> (r: DeltaBuilder)
        requires
            self.wf(),
            base_len(self.delta@) + n <= usize::MAX,
            target_len(self.delta@) + n <= usize::MAX,
        ensures
            r.delta@ == push_op(self.delta@, OpV::Retain(n as nat, attrs@)),
            r.wf(),
    {
        let mut b = self;
        b.delta.retain(n, attrs);
        b
    }

    /// Appends a plain retain of `n`.
    pub fn retain(self, n: usize) -> (r: DeltaBuilder)
        requires
            self.wf(),
            base_len(self.delta@) + n <= usize::MAX,
            target_len(self.delta@) + n <= usize::MAX,
        ensures
            r.delta@ == push_op(self.delta@, OpV::Retain(n as nat, Seq::<AttrV>::empty())),
            r.wf(),
    {
        let mut b = self;
        b.delta.retain(n, Attributes::new());
        b
    }

    /// Appends a delete of `n`.
    pub fn delete(self, n: usize) -> (r: DeltaBuilder)
        requires
            self.wf(),
            base_len(self.delta@) + n <= usize::MAX,
        ensures
            r.delta@ == push_op(self.delta@, OpV::Delete(n as nat)),
            r.wf(),
    {
        let mut b = self;
        b.delta.delete(n);
        b
    }

    /// Appends an insert of `s` carrying `attrs`.
    pub fn insert_with_attributes(self, s: &str, attrs: Attributes) -> (r: DeltaBuilder)
        requires
            self.wf(),
            target_len(self.delta@) + s@.len() <= usize::MAX,
        ensures
            r.delta@ == push_op(self.delta@, OpV::Insert(s@, attrs@)),
            r.wf(),
    {
        let mut b = self;
        b.delta.insert(s, attrs);
        b
    }

    /// Appends a plain insert of `s`.
    pub fn insert(self, s: &str) -> (r: DeltaBuilder)
        requires
            self.wf(),
            target_len(self.delta@) + s@.len() <= usize::MAX,
        ensures
            r.delta@ == push_op(self.delta@, OpV::Insert(s@, Seq::<AttrV>::empty())),
            r.wf(),
    {
        let mut b = self;
        b.delta.insert(s, Attributes::new());
        b
    }

    /// Drops a trailing plain retain.
    pub fn trim(self) -> (r: DeltaBuilder)
        requires
            self.wf(),
        ensures
            r.delta@ == trim_ops(self.delta@),
            r.wf(),
    {
        let mut b = self;
        trim(&mut b.delta);
        b
    }

    /// The delta built so far, without a trailing plain retain (a no-op suffix).
    pub fn build(self) -> (r: Delta)
        requires
            self.wf(),
        ensures
            r@ == trim_ops(self.delta@),
            r.wf(),
    {
        let mut d = self.delta;
        trim(&mut d);
        d
    }
}

/// Removes a trailing plain retain, a no-op suffix.
pub fn trim(delta: &mut Delta)
    requires
        old(delta).wf(),
    ensures
        final(delta)@ == trim_ops(old(delta)@),
        final(delta).wf(),
{
    let ghost s = delta@;
    let n = delta.ops.len();
    let remove_last = if n == 0 {
        false
    } else {
        delta.ops[n - 1].is_plain_retain()
    };
    if remove_last {
        let _ = delta.ops.pop();
        proof {
            assert(delta@ =~= s.drop_last());
            assert(s.drop_last() =~= s.subrange(0, s.len() - 1));
            lemma_lens_prefix(s, s.len() - 1);
        }
    }
}

/// Trimming a canonical sequence twice gives what trimming once gives.
pub proof fn lemma_trim_idempotent(s: Seq<OpV>)
    requires
        canonical(s),
    ensures
        trim_ops(trim_ops(s)) == trim_ops(s),
{
    if s.len() > 0 && is_plain_retain(s.last()) {
        let t = s.drop_last();
        if t.len() > 0 && is_plain_retain(t.last()) {
            let i = s.len() - 2;
            assert(s[i] == t.last());
            match (s[i], s[i + 1]) {
                (OpV::Retain(_, x), OpV::Retain(_, y)) => {
                    assert(x =~= y);
                },
                _ => {},
            }
            assert(mergeable(s[i], s[i + 1]));
        }
    }
}

} // verus!
