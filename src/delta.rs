use vstd::prelude::*;
use vstd::string::*;
use crate::attributes::{AttrV, Attributes};

verus! {

/// One edit step, as a mathematical value.
pub enum OpV {
    Insert(Seq<char>, Seq<AttrV>),
    Delete(nat),
    Retain(nat, Seq<AttrV>),
}

/// The atomic edit primitive.
#[derive(Debug, PartialEq, Eq)]
pub enum Operation {
    Delete(usize),
    Retain(usize, Attributes),
    Insert(Vec<char>, Attributes),
}

impl View for Operation {
    type V = OpV;

    open spec fn view(&self) -> OpV {
        match self {
            Operation::Delete(n) => OpV::Delete(*n as nat),
            Operation::Retain(n, a) => OpV::Retain(*n as nat, a@),
            Operation::Insert(s, a) => OpV::Insert(s@, a@),
        }
    }
}

/// Length of an operation, in content units.
pub open spec fn op_len(op: OpV) -> nat {
    match op {
        OpV::Insert(s, _) => s.len(),
        OpV::Delete(n) => n,
        OpV::Retain(n, _) => n,
    }
}

/// What an operation consumes of the document it applies to.
pub open spec fn op_base(op: OpV) -> nat {
    match op {
        OpV::Insert(_, _) => 0,
        _ => op_len(op),
    }
}

/// What an operation produces in the resulting document.
pub open spec fn op_target(op: OpV) -> nat {
    match op {
        OpV::Delete(_) => 0,
        _ => op_len(op),
    }
}

/// Sum of the Retain and Delete lengths: the length of the document a delta applies to.
pub open spec fn base_len(s: Seq<OpV>) -> nat
    decreases s.len(),
{
    if s.len() == 0 {
        0
    } else {
        base_len(s.drop_last()) + op_base(s.last())
    }
}

/// Sum of the Retain and Insert lengths: the length of the document a delta produces.
pub open spec fn target_len(s: Seq<OpV>) -> nat
    decreases s.len(),
{
    if s.len() == 0 {
        0
    } else {
        target_len(s.drop_last()) + op_target(s.last())
    }
}

/// Whether `b` can be folded into `a`, the operation before it.
pub open spec fn mergeable(a: OpV, b: OpV) -> bool {
    match (a, b) {
        (OpV::Delete(_), OpV::Delete(_)) => true,
        (OpV::Retain(_, x), OpV::Retain(_, y)) => x == y,
        (OpV::Insert(_, x), OpV::Insert(_, y)) => x == y,
        _ => false,
    }
}

/// `a` with the mergeable `b` folded into it.
pub open spec fn merged(a: OpV, b: OpV) -> OpV {
    match (a, b) {
        (OpV::Delete(n), OpV::Delete(m)) => OpV::Delete(n + m),
        (OpV::Retain(n, x), OpV::Retain(m, _)) => OpV::Retain(n + m, x),
        (OpV::Insert(s, x), OpV::Insert(t, _)) => OpV::Insert(s + t, x),
        _ => a,
    }
}

/// Appending with canonicalization: an empty operation is dropped, one that matches
/// the last operation in kind and attributes is merged into it, any other is appended.
pub open spec fn push_op(s: Seq<OpV>, op: OpV) -> Seq<OpV> {
    if op_len(op) == 0 {
        s
    } else if s.len() > 0 && mergeable(s.last(), op) {
        s.drop_last().push(merged(s.last(), op))
    } else {
        s.push(op)
    }
}

/// The text of a document held as a delta: its inserts' contents, in order.
pub open spec fn doc_text(s: Seq<OpV>) -> Seq<char>
    decreases s.len(),
{
    if s.len() == 0 {
        Seq::empty()
    } else {
        doc_text(s.drop_last()) + match s.last() {
            OpV::Insert(c, _) => c,
            _ => Seq::empty(),
        }
    }
}

/// `s` extended by a plain retain to base length `n`, when it is shorter.
pub open spec fn pad_to(s: Seq<OpV>, n: nat) -> Seq<OpV> {
    if base_len(s) < n {
        push_op(s, OpV::Retain((n - base_len(s)) as nat, Seq::empty()))
    } else {
        s
    }
}

/// Well-formed: canonical, and both lengths fit in a `usize`.
pub open spec fn delta_wf(s: Seq<OpV>) -> bool {
    &&& canonical(s)
    &&& base_len(s) <= usize::MAX
    &&& target_len(s) <= usize::MAX
}

/// Whether `b` would be folded into `a` before it.
pub fn ops_mergeable(a: &Operation, b: &Operation) -> (r: bool)
    ensures
        r == mergeable(a@, b@),
{
    match (a, b) {
        (Operation::Delete(_), Operation::Delete(_)) => true,
        (Operation::Retain(_, x), Operation::Retain(_, y)) => x.equals(y),
        (Operation::Insert(_, x), Operation::Insert(_, y)) => x.equals(y),
        _ => false,
    }
}

/// Every operation has length at least one.
pub open spec fn ops_nonempty(s: Seq<OpV>) -> bool {
    forall|i: int| 0 <= i < s.len() ==> op_len(#[trigger] s[i]) >= 1
}

/// Canonical form: no empty operation and no two adjacent operations that merge.
pub open spec fn canonical(s: Seq<OpV>) -> bool {
    &&& ops_nonempty(s)
    &&& forall|i: int| 0 <= i < s.len() - 1 ==> !mergeable(#[trigger] s[i], s[i + 1])
}

/// A retain without formatting.
pub open spec fn is_plain_retain(op: OpV) -> bool {
    match op {
        OpV::Retain(_, a) => a.len() == 0,
        _ => false,
    }
}

/// `s` without a trailing plain retain.
pub open spec fn trim_ops(s: Seq<OpV>) -> Seq<OpV> {
    if s.len() > 0 && is_plain_retain(s.last()) {
        s.drop_last()
    } else {
        s
    }
}

pub proof fn lemma_lens_push(s: Seq<OpV>, op: OpV)
    ensures
        base_len(s.push(op)) == base_len(s) + op_base(op),
        target_len(s.push(op)) == target_len(s) + op_target(op),
{
    assert(s.push(op).drop_last() =~= s);
}

/// Canonical appending adds exactly the operation's lengths.
pub proof fn lemma_lens_push_op(s: Seq<OpV>, op: OpV)
    ensures
        base_len(push_op(s, op)) == base_len(s) + op_base(op),
        target_len(push_op(s, op)) == target_len(s) + op_target(op),
{
    if op_len(op) == 0 {
    } else if s.len() > 0 && mergeable(s.last(), op) {
        lemma_lens_push(s.drop_last(), merged(s.last(), op));
        assert(s.drop_last().push(s.last()) =~= s);
        lemma_lens_push(s.drop_last(), s.last());
    } else {
        lemma_lens_push(s, op);
    }
}

/// Canonical appending keeps a sequence canonical.
pub proof fn lemma_push_op_canonical(s: Seq<OpV>, op: OpV)
    requires
        canonical(s),
    ensures
        canonical(push_op(s, op)),
{
    let r = push_op(s, op);
    if op_len(op) == 0 {
    } else if s.len() > 0 && mergeable(s.last(), op) {
        assert forall|i: int| 0 <= i < r.len() - 1 implies !mergeable(#[trigger] r[i], r[i + 1]) by {
            if i + 1 == r.len() - 1 {
                assert(r[i] == s[i]);
                assert(mergeable(s[i], s[i + 1]) == mergeable(r[i], r[i + 1]));
            } else {
                assert(r[i] == s[i] && r[i + 1] == s[i + 1]);
            }
        }
    } else {
        assert forall|i: int| 0 <= i < r.len() - 1 implies !mergeable(#[trigger] r[i], r[i + 1]) by {
            if i + 1 < s.len() {
                assert(r[i] == s[i] && r[i + 1] == s[i + 1]);
            }
        }
    }
}

/// Copies a run of characters.
pub fn copy_chars(v: &Vec<char>, from: usize, to: usize) -> (r: Vec<char>)
    requires
        from <= to <= v.len(),
    ensures
        r@ == v@.subrange(from as int, to as int),
{
    let mut r: Vec<char> = Vec::new();
    let mut i: usize = from;
    while i < to
        invariant
            from <= i <= to <= v.len(),
            r@ == v@.subrange(from as int, i as int),
        decreases to - i,
    {
        r.push(v[i]);
        i = i + 1;
        assert(r@ =~= v@.subrange(from as int, i as int));
    }
    r
}

/// The characters of a string.
pub fn chars_of(s: &str) -> (r: Vec<char>)
    ensures
        r@ == s@,
{
    let n = s.unicode_len();
    let mut r: Vec<char> = Vec::new();
    let mut i: usize = 0;
    while i < n
        invariant
            i <= n == s@.len(),
            r@ == s@.subrange(0, i as int),
        decreases n - i,
    {
        r.push(s.get_char(i));
        i = i + 1;
        assert(r@ =~= s@.subrange(0, i as int));
    }
    assert(r@ =~= s@);
    r
}

impl Operation {
    /// The operation's length.
    pub fn len(&self) -> (r: usize)
        ensures
            r == op_len(self@),
    {
        match self {
            Operation::Delete(n) => *n,
            Operation::Retain(n, _) => *n,
            Operation::Insert(s, _) => s.len(),
        }
    }

    /// A copy of the operation.
    pub fn copy(&self) -> (r: Operation)
        ensures
            r@ == self@,
    {
        match self {
            Operation::Delete(n) => Operation::Delete(*n),
            Operation::Retain(n, a) => Operation::Retain(*n, a.copy()),
            Operation::Insert(s, a) => {
                let c = copy_chars(s, 0, s.len());
                assert(c@ =~= s@);
                Operation::Insert(c, a.copy())
            },
        }
    }

    /// Whether this is a retain without formatting.
    pub fn is_plain_retain(&self) -> (r: bool)
        ensures
            r == is_plain_retain(self@),
    {
        match self {
            Operation::Retain(_, a) => a.is_plain(),
            _ => false,
        }
    }
}

/// Base and target lengths add up over a concatenation.
pub proof fn lemma_lens_concat(x: Seq<OpV>, y: Seq<OpV>)
    ensures
        base_len(x + y) == base_len(x) + base_len(y),
        target_len(x + y) == target_len(x) + target_len(y),
    decreases y.len(),
{
    if y.len() == 0 {
        assert(x + y =~= x);
    } else {
        lemma_lens_concat(x, y.drop_last());
        assert((x + y).drop_last() =~= x + y.drop_last());
    }
}

/// A prefix never has more length than the whole.
pub proof fn lemma_lens_prefix(s: Seq<OpV>, i: int)
    requires
        0 <= i <= s.len(),
    ensures
        base_len(s.subrange(0, i)) <= base_len(s),
        target_len(s.subrange(0, i)) <= target_len(s),
{
    lemma_lens_concat(s.subrange(0, i), s.subrange(i, s.len() as int));
    assert(s.subrange(0, i) + s.subrange(i, s.len() as int) =~= s);
}

/// An edit: an ordered sequence of operations.
#[derive(Debug, PartialEq, Eq)]
pub struct Delta {
    pub ops: Vec<Operation>,
}

impl View for Delta {
    type V = Seq<OpV>;

    open spec fn view(&self) -> Seq<OpV> {
        self.ops@.map_values(|o: Operation| o@)
    }
}

/// Length errors of composition and transformation.
#[derive(Debug, PartialEq, Eq)]
pub enum OTError {
    LengthMismatch,
}

impl Delta {
    /// Well-formed: canonical, and both lengths fit in a `usize`.
    pub open spec fn wf(&self) -> bool {
        delta_wf(self@)
    }

    /// Whether the delta is well-formed: canonical, with lengths that fit in a `usize`.
    pub fn is_well_formed(&self) -> (r: bool)
        ensures
            r == self.wf(),
    {
        let mut sb: usize = 0;
        let mut st: usize = 0;
        let mut i: usize = 0;
        while i < self.ops.len()
            invariant
                i <= self.ops.len(),
                forall|j: int| 0 <= j < i ==> op_len(#[trigger] self@[j]) >= 1,
                forall|j: int| 0 <= j < i - 1 ==> !mergeable(#[trigger] self@[j], self@[j + 1]),
                sb == base_len(self@.subrange(0, i as int)),
                st == target_len(self@.subrange(0, i as int)),
            decreases self.ops.len() - i,
        {
            let op = &self.ops[i];
            if op.len() == 0 {
                return false;
            }
            if i > 0 && ops_mergeable(&self.ops[i - 1], op) {
                assert(mergeable(self@[i - 1], self@[(i - 1) + 1]));
                return false;
            }
            proof {
                let q = self@.subrange(0, i as int + 1);
                assert(q.drop_last() =~= self@.subrange(0, i as int));
                lemma_lens_prefix(self@, i as int + 1);
            }
            let ob = match op {
                Operation::Insert(_, _) => 0,
                Operation::Delete(n) => *n,
                Operation::Retain(n, _) => *n,
            };
            let ot = match op {
                Operation::Delete(_) => 0,
                Operation::Insert(c, _) => c.len(),
                Operation::Retain(n, _) => *n,
            };
            if ob > usize::MAX - sb || ot > usize::MAX - st {
                return false;
            }
            sb = sb + ob;
            st = st + ot;
            i = i + 1;
        }
        assert(self@.subrange(0, i as int) =~= self@);
        true
    }

    /// The empty delta.
    pub fn new() -> (r: Delta)
        ensures
            r@ == Seq::<OpV>::empty(),
            r.wf(),
    {
        let r = Delta { ops: Vec::new() };
        assert(r@ =~= Seq::<OpV>::empty());
        r
    }

    /// Appends `op` in canonical form (see `push_op`).
    pub fn add(&mut self, op: Operation)
        requires
            old(self).wf(),
            base_len(old(self)@) + op_base(op@) <= usize::MAX,
            target_len(old(self)@) + op_target(op@) <= usize::MAX,
        ensures
            final(self)@ == push_op(old(self)@, op@),
            final(self).wf(),
    {
        proof {
            lemma_lens_push_op(self@, op@);
            lemma_push_op_canonical(self@, op@);
        }
        let ghost s = self@;
        let ghost opv = op@;
        let n = op.len();
        if n == 0 {
            return;
        }
        let len = self.ops.len();
        if len == 0 {
            self.ops.push(op);
            assert(self@ =~= s.push(opv));
            return;
        }
        let last = self.ops.pop().unwrap();
        let ghost lastv = last@;
        assert(lastv == s.last());
        assert(self@ =~= s.drop_last());
        proof {
            lemma_lens_push(s.drop_last(), lastv);
            assert(s.drop_last().push(lastv) =~= s);
        }
        match last {
            Operation::Delete(m) => match op {
                Operation::Delete(k) => {
                    self.ops.push(Operation::Delete(m + k));
                },
                other => {
                    self.ops.push(Operation::Delete(m));
                    self.ops.push(other);
                },
            },
            Operation::Retain(m, a) => match op {
                Operation::Retain(k, b) => {
                    if a.equals(&b) {
                        self.ops.push(Operation::Retain(m + k, a));
                    } else {
                        self.ops.push(Operation::Retain(m, a));
                        self.ops.push(Operation::Retain(k, b));
                    }
                },
                other => {
                    self.ops.push(Operation::Retain(m, a));
                    self.ops.push(other);
                },
            },
            Operation::Insert(mut t, a) => match op {
                Operation::Insert(mut u, b) => {
                    if a.equals(&b) {
                        t.append(&mut u);
                        self.ops.push(Operation::Insert(t, a));
                    } else {
                        self.ops.push(Operation::Insert(t, a));
                        self.ops.push(Operation::Insert(u, b));
                    }
                },
                other => {
                    self.ops.push(Operation::Insert(t, a));
                    self.ops.push(other);
                },
            },
        }
        assert(self@ =~= push_op(s, opv));
    }

    /// Appends a retain of `n` with `attrs`; no-op when `n` is 0.
    pub fn retain(&mut self, n: usize, attrs: Attributes)
        requires
            old(self).wf(),
            base_len(old(self)@) + n <= usize::MAX,
            target_len(old(self)@) + n <= usize::MAX,
        ensures
            final(self)@ == push_op(old(self)@, OpV::Retain(n as nat, attrs@)),
            final(self).wf(),
    {
        self.add(Operation::Retain(n, attrs));
    }

    /// Appends a delete of `n`; no-op when `n` is 0.
    pub fn delete(&mut self, n: usize)
        requires
            old(self).wf(),
            base_len(old(self)@) + n <= usize::MAX,
        ensures
            final(self)@ == push_op(old(self)@, OpV::Delete(n as nat)),
            final(self).wf(),
    {
        self.add(Operation::Delete(n));
    }

    /// Appends an insert of `s` with `attrs`; no-op when `s` is empty.
    pub fn insert(&mut self, s: &str, attrs: Attributes)
        requires
            old(self).wf(),
            target_len(old(self)@) + s@.len() <= usize::MAX,
        ensures
            final(self)@ == push_op(old(self)@, OpV::Insert(s@, attrs@)),
            final(self).wf(),
    {
        let c = chars_of(s);
        self.add(Operation::Insert(c, attrs));
    }

    /// A copy of the delta.
    pub fn copy(&self) -> (r: Delta)
        ensures
            r@ == self@,
    {
        let mut ops: Vec<Operation> = Vec::new();
        let mut i: usize = 0;
        while i < self.ops.len()
            invariant
                i <= self.ops.len(),
                ops@.map_values(|o: Operation| o@) == self@.subrange(0, i as int),
            decreases self.ops.len() - i,
        {
            let ghost before = ops@;
            ops.push(self.ops[i].copy());
            assert(ops@.map_values(|o: Operation| o@) =~= before.map_values(|o: Operation| o@).push(
                self@[i as int],
            ));
            i = i + 1;
            assert(ops@.map_values(|o: Operation| o@) =~= self@.subrange(0, i as int));
        }
        let r = Delta { ops };
        assert(r@ =~= self@);
        r
    }

    /// The delta extended by a plain retain to base length `n`.
    pub fn padded(&self, n: usize) -> (r: Delta)
        requires
            self.wf(),
            base_len(self@) <= n,
            target_len(self@) + (n - base_len(self@)) <= usize::MAX,
        ensures
            r@ == pad_to(self@, n as nat),
            r.wf(),
            base_len(r@) == n,
            target_len(r@) == target_len(self@) + (n - base_len(self@)),
    {
        let b = self.base_len();
        let mut r = self.copy();
        if b < n {
            proof {
                lemma_lens_push_op(r@, OpV::Retain((n - b) as nat, Seq::empty()));
            }
            r.retain(n - b, crate::attributes::Attributes::new());
            assert(Seq::<AttrV>::empty() =~= Seq::<AttrV>::empty());
        }
        r
    }

    /// The text the inserts of this delta hold, in order.
    pub fn text(&self) -> (r: Vec<char>)
        ensures
            r@ == doc_text(self@),
    {
        let mut r: Vec<char> = Vec::new();
        let mut i: usize = 0;
        while i < self.ops.len()
            invariant
                i <= self.ops.len(),
                r@ == doc_text(self@.subrange(0, i as int)),
            decreases self.ops.len() - i,
        {
            proof {
                let p = self@.subrange(0, i as int + 1);
                assert(p.drop_last() =~= self@.subrange(0, i as int));
            }
            match &self.ops[i] {
                Operation::Insert(c, _) => {
                    let mut t = copy_chars(c, 0, c.len());
                    assert(t@ =~= c@);
                    r.append(&mut t);
                },
                _ => {
                    assert(r@ + Seq::<char>::empty() =~= r@);
                },
            }
            i = i + 1;
        }
        assert(self@.subrange(0, i as int) =~= self@);
        r
    }

    /// The length of the document this delta applies to.
    pub fn base_len(&self) -> (r: usize)
        requires
            self.wf(),
        ensures
            r == base_len(self@),
    {
        let mut sum: usize = 0;
        let mut i: usize = 0;
        while i < self.ops.len()
            invariant
                self.wf(),
                i <= self.ops.len(),
                sum == base_len(self@.subrange(0, i as int)),
            decreases self.ops.len() - i,
        {
            proof {
                let p = self@.subrange(0, i as int + 1);
                assert(p.drop_last() =~= self@.subrange(0, i as int));
                lemma_lens_prefix(self@, i as int + 1);
            }
            let n = match &self.ops[i] {
                Operation::Insert(_, _) => 0,
                Operation::Delete(n) => *n,
                Operation::Retain(n, _) => *n,
            };
            sum = sum + n;
            i = i + 1;
        }
        assert(self@.subrange(0, i as int) =~= self@);
        sum
    }

    /// The length of the document this delta produces.
    pub fn target_len(&self) -> (r: usize)
        requires
            self.wf(),
        ensures
            r == target_len(self@),
    {
        let mut sum: usize = 0;
        let mut i: usize = 0;
        while i < self.ops.len()
            invariant
                self.wf(),
                i <= self.ops.len(),
                sum == target_len(self@.subrange(0, i as int)),
            decreases self.ops.len() - i,
        {
            proof {
                let p = self@.subrange(0, i as int + 1);
                assert(p.drop_last() =~= self@.subrange(0, i as int));
                lemma_lens_prefix(self@, i as int + 1);
            }
            let n = match &self.ops[i] {
                Operation::Delete(_) => 0,
                Operation::Insert(s, _) => s.len(),
                Operation::Retain(n, _) => *n,
            };
            sum = sum + n;
            i = i + 1;
        }
        assert(self@.subrange(0, i as int) =~= self@);
        sum
    }
}

} // verus!
