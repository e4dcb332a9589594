use vstd::prelude::*;
use crate::attributes::merge_attrs;
use crate::delta::{
    pad_to,    canonical, lemma_push_op_canonical, ops_nonempty, lemma_lens_push_op, base_len, copy_chars, lemma_lens_concat, op_base, op_len, op_target, push_op, target_len,
    Delta, OTError, OpV, Operation,
};

verus! {

/// The part `from..to` of an operation.
pub open spec fn op_slice(op: OpV, from: int, to: int) -> OpV {
    match op {
        OpV::Insert(s, x) => OpV::Insert(s.subrange(from, to), x),
        OpV::Delete(_) => OpV::Delete((to - from) as nat),
        OpV::Retain(_, x) => OpV::Retain((to - from) as nat, x),
    }
}

/// What is left of an operation once `off` units of it are consumed.
pub open spec fn op_rest(op: OpV, off: int) -> OpV {
    op_slice(op, off, op_len(op) as int)
}

/// Base length left in `s` from offset `off` of operation `i` on.
pub open spec fn rem_base(s: Seq<OpV>, i: int, off: int) -> int {
    if 0 <= i < s.len() {
        (op_base(op_rest(s[i], off)) + base_len(s.subrange(i + 1, s.len() as int))) as int
    } else {
        0
    }
}

/// Target length left in `s` from offset `off` of operation `i` on.
pub open spec fn rem_target(s: Seq<OpV>, i: int, off: int) -> int {
    if 0 <= i < s.len() {
        (op_target(op_rest(s[i], off)) + target_len(s.subrange(i + 1, s.len() as int))) as int
    } else {
        0
    }
}

/// The cursor position after consuming `n` units at offset `off` of operation `i`.
pub open spec fn advance(s: Seq<OpV>, i: int, off: int, n: int) -> (int, int) {
    if off + n >= op_len(s[i]) {
        (i + 1, 0)
    } else {
        (i, off + n)
    }
}

/// The overlap of `x` (at offset `off`, `n` units) followed by `y` in a composition;
/// an empty operation when the overlap leaves nothing.
pub open spec fn compose_step(x: OpV, y: OpV, off: int, n: nat) -> OpV {
    match (x, y) {
        (OpV::Insert(s, p), OpV::Retain(_, q)) => OpV::Insert(
            s.subrange(off, off + n),
            merge_attrs(p, q),
        ),
        (OpV::Retain(_, p), OpV::Retain(_, q)) => OpV::Retain(n, merge_attrs(p, q)),
        (OpV::Retain(_, _), OpV::Delete(_)) => OpV::Delete(n),
        _ => OpV::Delete(0),
    }
}

/// Composition from cursors `(ia, oa)` in `a` and `(ib, ob)` in `b`, appended in canonical
/// form to `acc`. A delete of `a` passes first, then an insert of `b`; otherwise the
/// shorter of the two heads is consumed from both.
pub open spec fn compose_from(
    a: Seq<OpV>,
    b: Seq<OpV>,
    ia: int,
    oa: int,
    ib: int,
    ob: int,
    acc: Seq<OpV>,
) -> Seq<OpV>
    decreases (a.len() - ia) + (b.len() - ib),
{
    if ia < 0 || ia > a.len() || ib < 0 || ib > b.len() || (ia == a.len() && ib == b.len()) {
        acc
    } else if ia == a.len() {
        compose_from(a, b, ia, oa, ib + 1, 0, push_op(acc, op_rest(b[ib], ob)))
    } else if ib == b.len() || a[ia] is Delete {
        compose_from(a, b, ia + 1, 0, ib, ob, push_op(acc, op_rest(a[ia], oa)))
    } else if b[ib] is Insert {
        compose_from(a, b, ia, oa, ib + 1, 0, push_op(acc, op_rest(b[ib], ob)))
    } else {
        let ra = op_len(a[ia]) - oa;
        let rb = op_len(b[ib]) - ob;
        let n = if ra <= rb {
            ra
        } else {
            rb
        };
        let na = advance(a, ia, oa, n);
        let nb = advance(b, ib, ob, n);
        compose_from(
            a,
            b,
            na.0,
            na.1,
            nb.0,
            nb.1,
            push_op(acc, compose_step(a[ia], b[ib], oa, n as nat)),
        )
    }
}

/// The composition of `a` then `b`.
pub open spec fn compose_ops(a: Seq<OpV>, b: Seq<OpV>) -> Seq<OpV> {
    compose_from(a, b, 0, 0, 0, 0, Seq::empty())
}

/// The composition of `a` then `b`, the shorter side first extended by a plain retain
/// so that `a`'s result and `b`'s input have the same length.
pub open spec fn compose_delta(a: Seq<OpV>, b: Seq<OpV>) -> Seq<OpV> {
    if base_len(b) > target_len(a) {
        compose_ops(pad_to(a, (base_len(a) + (base_len(b) - target_len(a))) as nat), b)
    } else {
        compose_ops(a, pad_to(b, target_len(a)))
    }
}

/// Whether the composition of `a` then `b` has lengths that fit in a `usize`.
pub open spec fn compose_fits(a: Seq<OpV>, b: Seq<OpV>) -> bool {
    if base_len(b) > target_len(a) {
        base_len(a) + (base_len(b) - target_len(a)) <= usize::MAX
    } else {
        target_len(b) + (target_len(a) - base_len(b)) <= usize::MAX
    }
}

/// A suffix starting at operation `i` splits into that operation and the rest.
pub proof fn lemma_suffix(s: Seq<OpV>, i: int)
    requires
        0 <= i <= s.len(),
    ensures
        rem_base(s, i, 0) == base_len(s.subrange(i, s.len() as int)),
        rem_target(s, i, 0) == target_len(s.subrange(i, s.len() as int)),
{
    if i < s.len() {
        let t = s.subrange(i + 1, s.len() as int);
        lemma_lens_concat(seq![s[i]], t);
        assert(seq![s[i]] + t =~= s.subrange(i, s.len() as int));
        assert(seq![s[i]].drop_last() =~= Seq::<OpV>::empty());
        assert(base_len(Seq::<OpV>::empty()) == 0);
        assert(target_len(Seq::<OpV>::empty()) == 0);
        assert(base_len(seq![s[i]]) == op_base(s[i]));
        assert(target_len(seq![s[i]]) == op_target(s[i]));
        match s[i] {
            OpV::Insert(c, _) => {
                assert(c.subrange(0, c.len() as int) =~= c);
            },
            _ => {},
        }
    } else {
        assert(s.subrange(i, s.len() as int) =~= Seq::<OpV>::empty());
    }
}

/// Consuming `n` units at a cursor takes exactly the slice's lengths off what is left.
pub proof fn lemma_rem_step(s: Seq<OpV>, i: int, off: int, n: int)
    requires
        0 <= i < s.len(),
        0 <= off,
        0 <= n,
        off + n <= op_len(s[i]),
    ensures
        ({
            let nx = advance(s, i, off, n);
            let e = op_slice(s[i], off, off + n);
            &&& rem_base(s, nx.0, nx.1) == rem_base(s, i, off) - op_base(e)
            &&& rem_target(s, nx.0, nx.1) == rem_target(s, i, off) - op_target(e)
        }),
{
    if off + n >= op_len(s[i]) {
        lemma_suffix(s, i + 1);
    }
}

/// What composition from a cursor pair adds to the lengths of `acc`: the base length
/// left in `a` and the target length left in `b`; canonical form is kept.
pub proof fn lemma_compose_from(
    a: Seq<OpV>,
    b: Seq<OpV>,
    ia: int,
    oa: int,
    ib: int,
    ob: int,
    acc: Seq<OpV>,
)
    requires
        ops_nonempty(a),
        ops_nonempty(b),
        0 <= ia <= a.len(),
        0 <= ib <= b.len(),
        ia < a.len() ==> 0 <= oa < op_len(a[ia]),
        ib < b.len() ==> 0 <= ob < op_len(b[ib]),
        rem_target(a, ia, oa) == rem_base(b, ib, ob),
        canonical(acc),
    ensures
        base_len(compose_from(a, b, ia, oa, ib, ob, acc)) == base_len(acc) + rem_base(a, ia, oa),
        target_len(compose_from(a, b, ia, oa, ib, ob, acc)) == target_len(acc) + rem_target(
            b,
            ib,
            ob,
        ),
        canonical(compose_from(a, b, ia, oa, ib, ob, acc)),
    decreases (a.len() - ia) + (b.len() - ib),
{
    if ia == a.len() && ib == b.len() {
    } else if ia == a.len() {
        let e = op_rest(b[ib], ob);
        lemma_rem_step(b, ib, ob, op_len(b[ib]) - ob);
        lemma_lens_push_op(acc, e);
        lemma_push_op_canonical(acc, e);
        lemma_compose_from(a, b, ia, oa, ib + 1, 0, push_op(acc, e));
    } else if ib == b.len() || a[ia] is Delete {
        let e = op_rest(a[ia], oa);
        lemma_rem_step(a, ia, oa, op_len(a[ia]) - oa);
        lemma_lens_push_op(acc, e);
        lemma_push_op_canonical(acc, e);
        lemma_compose_from(a, b, ia + 1, 0, ib, ob, push_op(acc, e));
    } else if b[ib] is Insert {
        let e = op_rest(b[ib], ob);
        lemma_rem_step(b, ib, ob, op_len(b[ib]) - ob);
        lemma_lens_push_op(acc, e);
        lemma_push_op_canonical(acc, e);
        lemma_compose_from(a, b, ia, oa, ib + 1, 0, push_op(acc, e));
    } else {
        let ra = op_len(a[ia]) - oa;
        let rb = op_len(b[ib]) - ob;
        let n = if ra <= rb {
            ra
        } else {
            rb
        };
        let e = compose_step(a[ia], b[ib], oa, n as nat);
        lemma_rem_step(a, ia, oa, n);
        lemma_rem_step(b, ib, ob, n);
        lemma_lens_push_op(acc, e);
        lemma_push_op_canonical(acc, e);
        let na = advance(a, ia, oa, n);
        let nb = advance(b, ib, ob, n);
        lemma_compose_from(a, b, na.0, na.1, nb.0, nb.1, push_op(acc, e));
    }
}

/// Composition of canonical deltas whose lengths meet keeps canonical form, starts from
/// the first one's base length and ends at the second one's target length.
pub proof fn lemma_compose_lens(a: Seq<OpV>, b: Seq<OpV>)
    requires
        canonical(a),
        canonical(b),
        target_len(a) == base_len(b),
    ensures
        canonical(compose_ops(a, b)),
        base_len(compose_ops(a, b)) == base_len(a),
        target_len(compose_ops(a, b)) == target_len(b),
{
    lemma_suffix(a, 0);
    lemma_suffix(b, 0);
    assert(a.subrange(0, a.len() as int) =~= a);
    assert(b.subrange(0, b.len() as int) =~= b);
    lemma_compose_from(a, b, 0, 0, 0, 0, Seq::empty());
}

/// Copies the rest of an operation from offset `off`.
pub fn rest_of(op: &Operation, off: usize) -> (r: Operation)
    requires
        off <= op_len(op@),
    ensures
        r@ == op_rest(op@, off as int),
{
    match op {
        Operation::Delete(n) => Operation::Delete(*n - off),
        Operation::Retain(n, a) => Operation::Retain(*n - off, a.copy()),
        Operation::Insert(s, a) => Operation::Insert(copy_chars(s, off, s.len()), a.copy()),
    }
}

/// Whether the operation is a delete.
pub fn is_delete(op: &Operation) -> (r: bool)
    ensures
        r == (op@ is Delete),
{
    match op {
        Operation::Delete(_) => true,
        _ => false,
    }
}

/// Whether the operation is an insert.
pub fn is_insert(op: &Operation) -> (r: bool)
    ensures
        r == (op@ is Insert),
{
    match op {
        Operation::Insert(_, _) => true,
        _ => false,
    }
}

impl Delta {
    /// The composition of `self` then `other` when `other` applies to exactly the
    /// document that `self` produces.
    fn compose_exact(&self, other: &Delta) -> (d: Delta)
        requires
            self.wf(),
            other.wf(),
            target_len(self@) == base_len(other@),
        ensures
            d@ == compose_ops(self@, other@),
            d.wf(),
            base_len(d@) == base_len(self@),
            target_len(d@) == target_len(other@),
    {
        let ghost a = self@;
        let ghost b = other@;
        let a_len = self.ops.len();
        let b_len = other.ops.len();
        let mut acc = Delta::new();
        let mut ia: usize = 0;
        let mut oa: usize = 0;
        let mut ib: usize = 0;
        let mut ob: usize = 0;
        proof {
            lemma_suffix(a, 0);
            lemma_suffix(b, 0);
            assert(a.subrange(0, a.len() as int) =~= a);
            assert(b.subrange(0, b.len() as int) =~= b);
        }
        while ia < a_len || ib < b_len
            invariant
                self.wf(),
                other.wf(),
                a == self@,
                b == other@,
                a_len == a.len(),
                b_len == b.len(),
                ia <= a_len,
                ib <= b_len,
                ia < a_len ==> oa < op_len(a[ia as int]),
                ib < b_len ==> ob < op_len(b[ib as int]),
                acc.wf(),
                compose_from(a, b, ia as int, oa as int, ib as int, ob as int, acc@)
                    == compose_ops(a, b),
                base_len(acc@) + rem_base(a, ia as int, oa as int) == base_len(a),
                target_len(acc@) + rem_target(b, ib as int, ob as int) == target_len(b),
                rem_target(a, ia as int, oa as int) == rem_base(b, ib as int, ob as int),
            decreases (a_len - ia) + (b_len - ib),
        {
            let ghost acc0 = acc@;
            if ia == a_len {
                let e = rest_of(&other.ops[ib], ob);
                proof {
                    let n = op_len(b[ib as int]) - ob;
                    lemma_rem_step(b, ib as int, ob as int, n);
                }
                proof {
                    lemma_lens_push_op(acc0, e@);
                }
                acc.add(e);
                ib = ib + 1;
                ob = 0;
            } else if ib == b_len || is_delete(&self.ops[ia]) {
                let e = rest_of(&self.ops[ia], oa);
                proof {
                    let n = op_len(a[ia as int]) - oa;
                    lemma_rem_step(a, ia as int, oa as int, n);
                }
                proof {
                    lemma_lens_push_op(acc0, e@);
                }
                acc.add(e);
                ia = ia + 1;
                oa = 0;
            } else if is_insert(&other.ops[ib]) {
                let e = rest_of(&other.ops[ib], ob);
                proof {
                    let n = op_len(b[ib as int]) - ob;
                    lemma_rem_step(b, ib as int, ob as int, n);
                }
                proof {
                    lemma_lens_push_op(acc0, e@);
                }
                acc.add(e);
                ib = ib + 1;
                ob = 0;
            } else {
                let x = &self.ops[ia];
                let y = &other.ops[ib];
                let ra = x.len() - oa;
                let rb = y.len() - ob;
                let n = if ra <= rb {
                    ra
                } else {
                    rb
                };
                proof {
                    lemma_rem_step(a, ia as int, oa as int, n as int);
                    lemma_rem_step(b, ib as int, ob as int, n as int);
                }
                match x {
                    Operation::Insert(s, p) => match y {
                        Operation::Retain(_, q) => {
                            acc.add(Operation::Insert(copy_chars(s, oa, oa + n), p.merge(q)));
                        },
                        _ => {},
                    },
                    Operation::Retain(_, p) => match y {
                        Operation::Retain(_, q) => {
                            acc.add(Operation::Retain(n, p.merge(q)));
                        },
                        _ => {
                            acc.add(Operation::Delete(n));
                        },
                    },
                    _ => {},
                }
                assert(acc@ == push_op(acc0, compose_step(a[ia as int], b[ib as int], oa as int, n as nat)));
                proof {
                    lemma_lens_push_op(acc0, compose_step(a[ia as int], b[ib as int], oa as int, n as nat));
                }
                if oa + n >= x.len() {
                    ia = ia + 1;
                    oa = 0;
                } else {
                    oa = oa + n;
                }
                if ob + n >= y.len() {
                    ib = ib + 1;
                    ob = 0;
                } else {
                    ob = ob + n;
                }
            }
        }
        acc
    }

    /// Whether `compose` may be called on `self` and `other`: see `compose_fits`.
    pub fn compose_fits(&self, other: &Delta) -> (r: bool)
        requires
            self.wf(),
            other.wf(),
        ensures
            r == compose_fits(self@, other@),
    {
        let t = self.target_len();
        let b = other.base_len();
        if b > t {
            self.base_len() <= usize::MAX - (b - t)
        } else {
            other.target_len() <= usize::MAX - (t - b)
        }
    }

    /// The delta equivalent to applying `self` then `other`. Each side keeps the rest of
    /// the document past its operations, as a trailing plain retain would: the shorter
    /// side is extended by one before composing.
    pub fn compose(&self, other: &Delta) -> (r: Result<Delta, OTError>)
        requires
            self.wf(),
            other.wf(),
            compose_fits(self@, other@),
        ensures
            r is Ok,
            r is Ok ==> ({
                let d = r->Ok_0;
                &&& d@ == compose_delta(self@, other@)
                &&& d.wf()
                &&& base_len(d@) == base_len(self@) + (if base_len(other@) > target_len(self@) {
                    base_len(other@) - target_len(self@)
                } else {
                    0
                })
                &&& target_len(d@) == target_len(other@) + (if base_len(other@) > target_len(self@) {
                    0
                } else {
                    target_len(self@) - base_len(other@)
                })
            }),
    {
        let t = self.target_len();
        let b = other.base_len();
        if b > t {
            let a = self.padded(self.base_len() + (b - t));
            Ok(a.compose_exact(other))
        } else {
            let c = other.padded(t);
            Ok(self.compose_exact(&c))
        }
    }
}

} // verus!
