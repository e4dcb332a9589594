use vstd::prelude::*;
use crate::attributes::{transform_attrs, AttrV, Attributes};
use crate::compose::{
    advance, is_delete, is_insert, lemma_rem_step, lemma_suffix, op_rest, op_slice, rem_base,
    rem_target, rest_of,
};
use crate::delta::{
    pad_to,    canonical, lemma_push_op_canonical, ops_nonempty, base_len, lemma_lens_push_op, op_base, op_len, op_target, push_op, target_len, Delta,
    OTError, OpV, Operation,
};

verus! {

/// The overlap of `x` with a concurrent `y` over `n` units, as `x` applies after `y`:
/// an empty operation when the overlap leaves nothing.
pub open spec fn transform_step(x: OpV, y: OpV, n: nat, priority: bool) -> OpV {
    match (x, y) {
        (OpV::Delete(_), OpV::Retain(_, _)) => OpV::Delete(n),
        (OpV::Retain(_, p), OpV::Retain(_, q)) => OpV::Retain(n, transform_attrs(p, q, priority)),
        _ => OpV::Delete(0),
    }
}

/// Whether `x`'s next operation is an insert that goes first: with priority, or when
/// `y` does not insert at the same place.
pub open spec fn x_inserts_first(x: Seq<OpV>, y: Seq<OpV>, ix: int, iy: int, priority: bool) -> bool {
    &&& ix < x.len()
    &&& x[ix] is Insert
    &&& (priority || iy == y.len() || !(y[iy] is Insert))
}

/// Transformation of `x` against `y` from cursors `(ix, ox)` and `(iy, oy)`, appended
/// in canonical form to `acc`. An insert of `y` becomes a retain of its length; a delete
/// on either side consumes length; retains meet with transformed attributes.
pub open spec fn transform_from(
    x: Seq<OpV>,
    y: Seq<OpV>,
    priority: bool,
    ix: int,
    ox: int,
    iy: int,
    oy: int,
    acc: Seq<OpV>,
) -> Seq<OpV>
    decreases (x.len() - ix) + (y.len() - iy),
{
    if ix < 0 || ix > x.len() || iy < 0 || iy > y.len() || (ix == x.len() && iy == y.len()) {
        acc
    } else if x_inserts_first(x, y, ix, iy, priority) {
        transform_from(x, y, priority, ix + 1, 0, iy, oy, push_op(acc, op_rest(x[ix], ox)))
    } else if iy < y.len() && y[iy] is Insert {
        let n = (op_len(y[iy]) - oy) as nat;
        transform_from(
            x,
            y,
            priority,
            ix,
            ox,
            iy + 1,
            0,
            push_op(acc, OpV::Retain(n, Seq::empty())),
        )
    } else if ix == x.len() {
        transform_from(x, y, priority, ix, ox, iy + 1, 0, acc)
    } else if iy == y.len() {
        transform_from(x, y, priority, ix + 1, 0, iy, oy, push_op(acc, op_rest(x[ix], ox)))
    } else {
        let rx = op_len(x[ix]) - ox;
        let ry = op_len(y[iy]) - oy;
        let n = if rx <= ry {
            rx
        } else {
            ry
        };
        let nx = advance(x, ix, ox, n);
        let ny = advance(y, iy, oy, n);
        transform_from(
            x,
            y,
            priority,
            nx.0,
            nx.1,
            ny.0,
            ny.1,
            push_op(acc, transform_step(x[ix], y[iy], n as nat, priority)),
        )
    }
}

/// The larger of the two base lengths.
pub open spec fn max_base(x: Seq<OpV>, y: Seq<OpV>) -> nat {
    if base_len(x) >= base_len(y) {
        base_len(x)
    } else {
        base_len(y)
    }
}

/// Whether both deltas, extended to the larger base length, produce documents whose
/// lengths sum within a `usize`.
pub open spec fn transform_fits(x: Seq<OpV>, y: Seq<OpV>) -> bool {
    target_len(x) + (max_base(x, y) - base_len(x)) + target_len(y) + (max_base(x, y) - base_len(
        y,
    )) <= usize::MAX
}

/// `x` transformed against `y` after extending the shorter to the other's base length.
pub open spec fn transform_delta(x: Seq<OpV>, y: Seq<OpV>, priority: bool) -> Seq<OpV> {
    transform_ops(pad_to(x, max_base(x, y)), pad_to(y, max_base(x, y)), priority)
}

/// `x` rewritten to apply after the concurrent `y`; with `priority`, `x`'s inserts go
/// before `y`'s at the same place.
pub open spec fn transform_ops(x: Seq<OpV>, y: Seq<OpV>, priority: bool) -> Seq<OpV> {
    transform_from(x, y, priority, 0, 0, 0, 0, Seq::empty())
}

/// What transformation from a cursor pair adds to the base length of `acc`: the target
/// length left in `y`; canonical form is kept.
pub proof fn lemma_transform_from(
    x: Seq<OpV>,
    y: Seq<OpV>,
    priority: bool,
    ix: int,
    ox: int,
    iy: int,
    oy: int,
    acc: Seq<OpV>,
)
    requires
        ops_nonempty(x),
        ops_nonempty(y),
        0 <= ix <= x.len(),
        0 <= iy <= y.len(),
        ix < x.len() ==> 0 <= ox < op_len(x[ix]),
        iy < y.len() ==> 0 <= oy < op_len(y[iy]),
        rem_base(x, ix, ox) == rem_base(y, iy, oy),
        canonical(acc),
    ensures
        base_len(transform_from(x, y, priority, ix, ox, iy, oy, acc)) == base_len(acc) + rem_target(
            y,
            iy,
            oy,
        ),
        canonical(transform_from(x, y, priority, ix, ox, iy, oy, acc)),
    decreases (x.len() - ix) + (y.len() - iy),
{
    if ix == x.len() && iy == y.len() {
    } else if x_inserts_first(x, y, ix, iy, priority) {
        let e = op_rest(x[ix], ox);
        lemma_rem_step(x, ix, ox, op_len(x[ix]) - ox);
        lemma_lens_push_op(acc, e);
        lemma_push_op_canonical(acc, e);
        lemma_transform_from(x, y, priority, ix + 1, 0, iy, oy, push_op(acc, e));
    } else if iy < y.len() && y[iy] is Insert {
        let e = OpV::Retain((op_len(y[iy]) - oy) as nat, Seq::<AttrV>::empty());
        lemma_rem_step(y, iy, oy, op_len(y[iy]) - oy);
        lemma_lens_push_op(acc, e);
        lemma_push_op_canonical(acc, e);
        lemma_transform_from(x, y, priority, ix, ox, iy + 1, 0, push_op(acc, e));
    } else if ix == x.len() {
        lemma_rem_step(y, iy, oy, op_len(y[iy]) - oy);
        lemma_transform_from(x, y, priority, ix, ox, iy + 1, 0, acc);
    } else if iy == y.len() {
        let e = op_rest(x[ix], ox);
        lemma_rem_step(x, ix, ox, op_len(x[ix]) - ox);
        lemma_lens_push_op(acc, e);
        lemma_push_op_canonical(acc, e);
        lemma_transform_from(x, y, priority, ix + 1, 0, iy, oy, push_op(acc, e));
    } else {
        let rx = op_len(x[ix]) - ox;
        let ry = op_len(y[iy]) - oy;
        let n = if rx <= ry {
            rx
        } else {
            ry
        };
        let e = transform_step(x[ix], y[iy], n as nat, priority);
        lemma_rem_step(x, ix, ox, n);
        lemma_rem_step(y, iy, oy, n);
        lemma_lens_push_op(acc, e);
        lemma_push_op_canonical(acc, e);
        let nx = advance(x, ix, ox, n);
        let ny = advance(y, iy, oy, n);
        lemma_transform_from(x, y, priority, nx.0, nx.1, ny.0, ny.1, push_op(acc, e));
    }
}

/// Transforming a canonical delta against a concurrent one of the same base length keeps
/// canonical form and gives a delta that applies after the other one.
pub proof fn lemma_transform_lens(x: Seq<OpV>, y: Seq<OpV>, priority: bool)
    requires
        canonical(x),
        canonical(y),
        base_len(x) == base_len(y),
    ensures
        canonical(transform_ops(x, y, priority)),
        base_len(transform_ops(x, y, priority)) == target_len(y),
{
    lemma_suffix(x, 0);
    lemma_suffix(y, 0);
    assert(x.subrange(0, x.len() as int) =~= x);
    assert(y.subrange(0, y.len() as int) =~= y);
    lemma_transform_from(x, y, priority, 0, 0, 0, 0, Seq::empty());
}

impl Delta {
    /// Whether `transform` may be called on `self` and `other`: see `transform_fits`.
    pub fn transform_fits(&self, other: &Delta) -> (r: bool)
        requires
            self.wf(),
            other.wf(),
        ensures
            r == transform_fits(self@, other@),
    {
        let bx = self.base_len();
        let by = other.base_len();
        let tx = self.target_len();
        let ty = other.target_len();
        let m = if bx >= by {
            bx
        } else {
            by
        };
        let px = m - bx;
        let py = m - by;
        if px > usize::MAX - tx {
            return false;
        }
        let s1 = tx + px;
        if ty > usize::MAX - s1 {
            return false;
        }
        let s2 = s1 + ty;
        py <= usize::MAX - s2
    }

    /// `self` rewritten to apply after the concurrent `other`, both applying to a
    /// document of the same length.
    #[verifier::rlimit(60)]
    fn transform_exact(&self, other: &Delta, priority: bool) -> (d: Delta)
        requires
            self.wf(),
            other.wf(),
            base_len(self@) == base_len(other@),
            target_len(self@) + target_len(other@) <= usize::MAX,
        ensures
            d@ == transform_ops(self@, other@, priority),
            d.wf(),
            base_len(d@) == target_len(other@),
    {
        let ghost x = self@;
        let ghost y = other@;
        let x_len = self.ops.len();
        let y_len = other.ops.len();
        let mut acc = Delta::new();
        let mut ix: usize = 0;
        let mut ox: usize = 0;
        let mut iy: usize = 0;
        let mut oy: usize = 0;
        proof {
            lemma_suffix(x, 0);
            lemma_suffix(y, 0);
            assert(x.subrange(0, x.len() as int) =~= x);
            assert(y.subrange(0, y.len() as int) =~= y);
        }
        while ix < x_len || iy < y_len
            invariant
                self.wf(),
                other.wf(),
                x == self@,
                y == other@,
                x_len == x.len(),
                y_len == y.len(),
                ix <= x_len,
                iy <= y_len,
                ix < x_len ==> ox < op_len(x[ix as int]),
                iy < y_len ==> oy < op_len(y[iy as int]),
                target_len(x) + target_len(y) <= usize::MAX,
                acc.wf(),
                transform_from(x, y, priority, ix as int, ox as int, iy as int, oy as int, acc@)
                    == transform_ops(x, y, priority),
                base_len(acc@) + rem_target(y, iy as int, oy as int) == target_len(y),
                target_len(acc@) + rem_target(x, ix as int, ox as int) + rem_target(
                    y,
                    iy as int,
                    oy as int,
                ) <= target_len(x) + target_len(y),
                rem_base(x, ix as int, ox as int) == rem_base(y, iy as int, oy as int),
                rem_target(x, ix as int, ox as int) >= 0,
                rem_target(y, iy as int, oy as int) >= 0,
            decreases (x_len - ix) + (y_len - iy),
        {
            let ghost acc0 = acc@;
            let x_first = ix < x_len && is_insert(&self.ops[ix]) && (priority || iy == y_len
                || !is_insert(&other.ops[iy]));
            if x_first {
                let e = rest_of(&self.ops[ix], ox);
                proof {
                    let n = op_len(x[ix as int]) - ox;
                    lemma_rem_step(x, ix as int, ox as int, n);
                    lemma_lens_push_op(acc0, e@);
                }
                acc.add(e);
                ix = ix + 1;
                ox = 0;
            } else if iy < y_len && is_insert(&other.ops[iy]) {
                let n = other.ops[iy].len() - oy;
                proof {
                    lemma_rem_step(y, iy as int, oy as int, n as int);
                    lemma_lens_push_op(acc0, OpV::Retain(n as nat, Seq::<AttrV>::empty()));
                }
                acc.add(Operation::Retain(n, Attributes::new()));
                iy = iy + 1;
                oy = 0;
            } else if ix == x_len {
                proof {
                    let n = op_len(y[iy as int]) - oy;
                    lemma_rem_step(y, iy as int, oy as int, n);
                }
                iy = iy + 1;
                oy = 0;
            } else if iy == y_len {
                let e = rest_of(&self.ops[ix], ox);
                proof {
                    let n = op_len(x[ix as int]) - ox;
                    lemma_rem_step(x, ix as int, ox as int, n);
                    lemma_lens_push_op(acc0, e@);
                }
                acc.add(e);
                ix = ix + 1;
                ox = 0;
            } else {
                let a = &self.ops[ix];
                let b = &other.ops[iy];
                let rx = a.len() - ox;
                let ry = b.len() - oy;
                let n = if rx <= ry {
                    rx
                } else {
                    ry
                };
                proof {
                    lemma_rem_step(x, ix as int, ox as int, n as int);
                    lemma_rem_step(y, iy as int, oy as int, n as int);
                    lemma_lens_push_op(acc0, transform_step(x[ix as int], y[iy as int], n as nat, priority));
                }
                match a {
                    Operation::Delete(_) => {
                        if !is_delete(b) {
                            acc.add(Operation::Delete(n));
                        }
                    },
                    Operation::Retain(_, p) => match b {
                        Operation::Retain(_, q) => {
                            acc.add(Operation::Retain(n, p.transform(q, priority)));
                        },
                        _ => {},
                    },
                    _ => {},
                }
                assert(acc@ == push_op(acc0, transform_step(x[ix as int], y[iy as int], n as nat, priority)));
                if ox + n >= a.len() {
                    ix = ix + 1;
                    ox = 0;
                } else {
                    ox = ox + n;
                }
                if oy + n >= b.len() {
                    iy = iy + 1;
                    oy = 0;
                } else {
                    oy = oy + n;
                }
            }
        }
        acc
    }

    /// `self` rewritten to apply after the concurrent `other`; with `priority`, `self`'s
    /// inserts go before `other`'s at the same place. The shorter of the two is first
    /// extended by a plain retain to the other's base length, as a trimmed delta leaves
    /// the rest of the document as it is.
    pub fn transform(&self, other: &Delta, priority: bool) -> (r: Result<Delta, OTError>)
        requires
            self.wf(),
            other.wf(),
            transform_fits(self@, other@),
        ensures
            r is Ok,
            r is Ok ==> ({
                let d = r->Ok_0;
                let m = max_base(self@, other@);
                &&& d@ == transform_delta(self@, other@, priority)
                &&& d.wf()
                &&& base_len(d@) == target_len(other@) + (m - base_len(other@))
            }),
    {
        let bx = self.base_len();
        let by = other.base_len();
        let m = if bx >= by {
            bx
        } else {
            by
        };
        let x = self.padded(m);
        let y = other.padded(m);
        Ok(x.transform_exact(&y, priority))
    }
}

} // verus!
