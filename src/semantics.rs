use vstd::prelude::*;
use crate::compose::{
    advance, compose_from, compose_ops, compose_step, lemma_compose_lens, lemma_rem_step,
    lemma_suffix, op_rest, op_slice, rem_base, rem_target,
};
use crate::transform::{
    lemma_transform_lens, transform_from, transform_ops, transform_step, x_inserts_first,
};
use crate::attributes::AttrV;
use crate::delta::{
    base_len, canonical, lemma_lens_concat, lemma_lens_push_op, merged, mergeable, op_base, op_len,
    op_target, ops_nonempty, push_op, target_len, OpV,
};

verus! {

/// `n`, or the length of `d` when `n` runs past it.
pub open spec fn clamp(n: nat, d: Seq<char>) -> int {
    if n <= d.len() {
        n as int
    } else {
        d.len() as int
    }
}

/// The text that applying the operations `s` to the text `d` gives: an insert writes its
/// text, a delete skips, a retain copies; what no operation reaches is kept.
pub open spec fn apply_ops(s: Seq<OpV>, d: Seq<char>) -> Seq<char>
    decreases s.len(),
{
    if s.len() == 0 {
        d
    } else {
        let t = s.drop_first();
        match s[0] {
            OpV::Insert(c, _) => c + apply_ops(t, d),
            OpV::Delete(n) => apply_ops(t, d.subrange(clamp(n, d), d.len() as int)),
            OpV::Retain(n, _) => d.subrange(0, clamp(n, d)) + apply_ops(
                t,
                d.subrange(clamp(n, d), d.len() as int),
            ),
        }
    }
}

proof fn lemma_lens_front(s: Seq<OpV>)
    requires
        s.len() > 0,
    ensures
        base_len(s) == op_base(s[0]) + base_len(s.drop_first()),
        target_len(s) == op_target(s[0]) + target_len(s.drop_first()),
{
    lemma_lens_concat(seq![s[0]], s.drop_first());
    assert(seq![s[0]] + s.drop_first() =~= s);
    assert(seq![s[0]].drop_last() =~= Seq::<OpV>::empty());
    assert(base_len(Seq::<OpV>::empty()) == 0);
    assert(target_len(Seq::<OpV>::empty()) == 0);
    assert(base_len(seq![s[0]]) == op_base(s[0]));
    assert(target_len(seq![s[0]]) == op_target(s[0]));
}

/// Applying to a text at least as long as the base length writes the target length and
/// keeps the rest.
pub proof fn lemma_apply_len(s: Seq<OpV>, d: Seq<char>)
    requires
        base_len(s) <= d.len(),
    ensures
        apply_ops(s, d).len() == target_len(s) + d.len() - base_len(s),
    decreases s.len(),
{
    if s.len() > 0 {
        lemma_lens_front(s);
        let t = s.drop_first();
        match s[0] {
            OpV::Insert(c, _) => {
                lemma_apply_len(t, d);
            },
            OpV::Delete(n) => {
                lemma_apply_len(t, d.subrange(n as int, d.len() as int));
            },
            OpV::Retain(n, _) => {
                lemma_apply_len(t, d.subrange(n as int, d.len() as int));
            },
        }
    }
}

/// Applying a concatenation: the first part works on its base length of the text, the
/// second on what follows.
pub proof fn lemma_apply_concat(x: Seq<OpV>, y: Seq<OpV>, d: Seq<char>)
    requires
        base_len(x) <= d.len(),
    ensures
        apply_ops(x + y, d) == apply_ops(x, d.subrange(0, base_len(x) as int)) + apply_ops(
            y,
            d.subrange(base_len(x) as int, d.len() as int),
        ),
    decreases x.len(),
{
    let b = base_len(x) as int;
    if x.len() == 0 {
        assert(x + y =~= y);
        assert(d.subrange(0, 0) =~= Seq::<char>::empty());
        assert(d.subrange(0, d.len() as int) =~= d);
        assert(Seq::<char>::empty() + apply_ops(y, d) =~= apply_ops(y, d));
    } else {
        lemma_lens_front(x);
        let t = x.drop_first();
        assert((x + y).drop_first() =~= t + y);
        assert((x + y)[0] == x[0]);
        match x[0] {
            OpV::Insert(c, _) => {
                lemma_apply_concat(t, y, d);
                assert(c + (apply_ops(t, d.subrange(0, b)) + apply_ops(y, d.subrange(b, d.len() as int)))
                    =~= (c + apply_ops(t, d.subrange(0, b))) + apply_ops(y, d.subrange(b, d.len() as int)));
            },
            OpV::Delete(n) => {
                let d1 = d.subrange(n as int, d.len() as int);
                lemma_apply_concat(t, y, d1);
                let bt = base_len(t) as int;
                assert(d1.subrange(0, bt) =~= d.subrange(0, b).subrange(n as int, b));
                assert(d1.subrange(bt, d1.len() as int) =~= d.subrange(b, d.len() as int));
            },
            OpV::Retain(n, _) => {
                let d1 = d.subrange(n as int, d.len() as int);
                lemma_apply_concat(t, y, d1);
                let bt = base_len(t) as int;
                assert(d1.subrange(0, bt) =~= d.subrange(0, b).subrange(n as int, b));
                assert(d1.subrange(bt, d1.len() as int) =~= d.subrange(b, d.len() as int));
                assert(d.subrange(0, b).subrange(0, n as int) =~= d.subrange(0, n as int));
                assert(d.subrange(0, n as int) + (apply_ops(t, d1.subrange(0, bt)) + apply_ops(
                    y,
                    d1.subrange(bt, d1.len() as int),
                )) =~= (d.subrange(0, n as int) + apply_ops(t, d1.subrange(0, bt))) + apply_ops(
                    y,
                    d1.subrange(bt, d1.len() as int),
                ));
            },
        }
    }
}

/// A merged operation means what the two it was made of mean one after the other.
pub proof fn lemma_apply_merged(x: OpV, y: OpV, d: Seq<char>)
    requires
        mergeable(x, y),
        op_base(x) + op_base(y) <= d.len(),
    ensures
        apply_ops(seq![merged(x, y)], d) == apply_ops(seq![x, y], d),
{
    reveal_with_fuel(apply_ops, 3);
    let m = merged(x, y);
    assert(seq![m].drop_first() =~= Seq::<OpV>::empty());
    assert(seq![x, y].drop_first() =~= seq![y]);
    assert(seq![y].drop_first() =~= Seq::<OpV>::empty());
    match (x, y) {
        (OpV::Delete(n), OpV::Delete(k)) => {
            let d1 = d.subrange(n as int, d.len() as int);
            assert(d1.subrange(k as int, d1.len() as int) =~= d.subrange((n + k) as int, d.len() as int));
        },
        (OpV::Retain(n, _), OpV::Retain(k, _)) => {
            let d1 = d.subrange(n as int, d.len() as int);
            assert(d1.subrange(k as int, d1.len() as int) =~= d.subrange((n + k) as int, d.len() as int));
            assert(d.subrange(0, n as int) + (d1.subrange(0, k as int) + d1.subrange(
                k as int,
                d1.len() as int,
            )) =~= d.subrange(0, (n + k) as int) + d.subrange((n + k) as int, d.len() as int));
        },
        (OpV::Insert(a, _), OpV::Insert(b, _)) => {
            assert(a + (b + d) =~= (a + b) + d);
        },
        _ => {},
    }
}

/// An operation of length zero leaves any text as it is.
pub proof fn lemma_apply_empty_op(e: OpV, d: Seq<char>)
    requires
        op_len(e) == 0,
    ensures
        apply_ops(seq![e], d) == d,
{
    reveal_with_fuel(apply_ops, 2);
    assert(seq![e].drop_first() =~= Seq::<OpV>::empty());
    match e {
        OpV::Insert(c, _) => {
            assert(c =~= Seq::<char>::empty());
            assert(c + d =~= d);
        },
        _ => {
            assert(d.subrange(0, d.len() as int) =~= d);
            assert(d.subrange(0, 0) + d =~= d);
        },
    }
}

/// Canonical appending keeps the meaning of appending.
pub proof fn lemma_apply_push_op(s: Seq<OpV>, e: OpV, d: Seq<char>)
    requires
        base_len(s) + op_base(e) <= d.len(),
    ensures
        apply_ops(push_op(s, e), d) == apply_ops(s.push(e), d),
{
    let b = base_len(s) as int;
    if op_len(e) == 0 {
        lemma_apply_concat(s, seq![e], d);
        lemma_apply_concat(s, Seq::empty(), d);
        assert(s + Seq::<OpV>::empty() =~= s);
        assert(s + seq![e] =~= s.push(e));
        lemma_apply_empty_op(e, d.subrange(b, d.len() as int));
    } else if s.len() > 0 && mergeable(s.last(), e) {
        let p = s.drop_last();
        let x = s.last();
        lemma_lens_concat(p, seq![x]);
        assert(p + seq![x] =~= s);
        assert(seq![x].drop_last() =~= Seq::<OpV>::empty());
        assert(base_len(Seq::<OpV>::empty()) == 0);
        assert(base_len(seq![x]) == op_base(x));
        let bp = base_len(p) as int;
        lemma_apply_concat(p, seq![merged(x, e)], d);
        lemma_apply_concat(p, seq![x, e], d);
        assert(p.push(merged(x, e)) =~= p + seq![merged(x, e)]);
        assert(s.push(e) =~= p + seq![x, e]);
        lemma_apply_merged(x, e, d.subrange(bp, d.len() as int));
    }
}

/// An operation with nothing consumed of it is itself.
pub proof fn lemma_rest_zero(x: OpV)
    ensures
        op_rest(x, 0) == x,
{
    match x {
        OpV::Insert(c, _) => {
            assert(c.subrange(0, c.len() as int) =~= c);
        },
        _ => {},
    }
}

/// The operations of `s` left from offset `off` of operation `i` on.
pub open spec fn rest_seq(s: Seq<OpV>, i: int, off: int) -> Seq<OpV> {
    if 0 <= i < s.len() {
        seq![op_rest(s[i], off)] + s.subrange(i + 1, s.len() as int)
    } else {
        Seq::empty()
    }
}

/// The remaining operations from a fresh operation are the suffix from it.
pub proof fn lemma_rest_seq_zero(s: Seq<OpV>, i: int)
    requires
        0 <= i <= s.len(),
    ensures
        rest_seq(s, i, 0) == s.subrange(i, s.len() as int),
{
    if i < s.len() {
        lemma_rest_zero(s[i]);
        assert(rest_seq(s, i, 0) =~= s.subrange(i, s.len() as int));
    } else {
        assert(s.subrange(i, s.len() as int) =~= Seq::<OpV>::empty());
    }
}

/// Consuming `n` units of the head: the head's slice works on its base length of the
/// text, and what is left on the remainder.
pub proof fn lemma_split_head(s: Seq<OpV>, i: int, off: int, n: int, d: Seq<char>)
    requires
        0 <= i < s.len(),
        0 <= off,
        0 <= n,
        off + n <= op_len(s[i]),
        op_base(op_rest(s[i], off)) <= d.len(),
    ensures
        ({
            let nx = advance(s, i, off, n);
            let e = op_slice(s[i], off, off + n);
            let k = op_base(e) as int;
            apply_ops(rest_seq(s, i, off), d) == apply_ops(seq![e], d.subrange(0, k)) + apply_ops(
                rest_seq(s, nx.0, nx.1),
                d.subrange(k, d.len() as int),
            )
        }),
{
    let x = s[i];
    let e = op_slice(x, off, off + n);
    let k = op_base(e) as int;
    let t = s.subrange(i + 1, s.len() as int);
    assert(seq![e].drop_last() =~= Seq::<OpV>::empty());
    assert(base_len(Seq::<OpV>::empty()) == 0);
    assert(base_len(seq![e]) == op_base(e));
    if off + n >= op_len(x) {
        lemma_rest_seq_zero(s, i + 1);
        assert(e == op_rest(x, off));
        lemma_apply_concat(seq![e], t, d);
    } else {
        let r = op_rest(x, off + n);
        assert(mergeable(e, r));
        match x {
            OpV::Insert(c, _) => {
                assert(c.subrange(off, off + n) + c.subrange(off + n, c.len() as int) =~= c.subrange(
                    off,
                    c.len() as int,
                ));
            },
            _ => {},
        }
        assert(merged(e, r) == op_rest(x, off));
        lemma_lens_concat(seq![e], seq![r]);
        assert(seq![e] + seq![r] =~= seq![e, r]);
        assert(seq![r].drop_last() =~= Seq::<OpV>::empty());
        assert(base_len(seq![r]) == op_base(r));
        assert(seq![merged(e, r)].drop_last() =~= Seq::<OpV>::empty());
        assert(base_len(seq![merged(e, r)]) == op_base(merged(e, r)));
        lemma_apply_concat(seq![merged(e, r)], t, d);
        lemma_apply_concat(seq![e, r], t, d);
        lemma_apply_merged(e, r, d.subrange(0, op_base(op_rest(x, off)) as int));
        lemma_apply_concat(seq![e], seq![r] + t, d);
        assert(seq![e, r] + t =~= seq![e] + (seq![r] + t));
        assert(rest_seq(s, i, off + n) == seq![r] + t);
        let b0 = op_base(op_rest(x, off)) as int;
        lemma_apply_concat(seq![r], t, d.subrange(k, d.len() as int));
        lemma_apply_concat(seq![e, r], Seq::empty(), d.subrange(0, b0));
        assert(d.subrange(0, b0).subrange(0, k) =~= d.subrange(0, k));
        assert(d.subrange(k, d.len() as int).subrange(0, b0 - k) =~= d.subrange(0, b0).subrange(k, b0));
        assert(d.subrange(k, d.len() as int).subrange(b0 - k, d.len() - k) =~= d.subrange(b0, d.len() as int));
        assert(seq![e, r] + Seq::<OpV>::empty() =~= seq![e, r]);
        lemma_apply_concat(seq![e], seq![r], d.subrange(0, b0));
    }
}

/// The remaining operations have exactly the remaining lengths.
pub proof fn lemma_rest_seq_lens(s: Seq<OpV>, i: int, off: int)
    ensures
        base_len(rest_seq(s, i, off)) == rem_base(s, i, off),
        target_len(rest_seq(s, i, off)) == rem_target(s, i, off),
{
    if 0 <= i < s.len() {
        let h = op_rest(s[i], off);
        lemma_lens_concat(seq![h], s.subrange(i + 1, s.len() as int));
        assert(seq![h].drop_last() =~= Seq::<OpV>::empty());
        assert(base_len(Seq::<OpV>::empty()) == 0);
        assert(target_len(Seq::<OpV>::empty()) == 0);
        assert(base_len(seq![h]) == op_base(h));
        assert(target_len(seq![h]) == op_target(h));
    } else {
        assert(base_len(Seq::<OpV>::empty()) == 0);
        assert(target_len(Seq::<OpV>::empty()) == 0);
    }
}

/// One overlap of a composition means the `b` slice applied after the `a` slice.
pub proof fn lemma_step_apply(x: OpV, y: OpV, oa: int, ob: int, n: int, d: Seq<char>)
    requires
        !(x is Delete),
        !(y is Insert),
        0 <= oa,
        0 <= n,
        oa + n <= op_len(x),
        d.len() == op_base(op_slice(x, oa, oa + n)),
    ensures
        apply_ops(seq![compose_step(x, y, oa, n as nat)], d) == apply_ops(
            seq![op_slice(y, ob, ob + n)],
            apply_ops(seq![op_slice(x, oa, oa + n)], d),
        ),
{
    reveal_with_fuel(apply_ops, 2);
    let e = compose_step(x, y, oa, n as nat);
    let sx = op_slice(x, oa, oa + n);
    let sy = op_slice(y, ob, ob + n);
    assert(seq![e].drop_first() =~= Seq::<OpV>::empty());
    assert(seq![sx].drop_first() =~= Seq::<OpV>::empty());
    assert(seq![sy].drop_first() =~= Seq::<OpV>::empty());
    let p = apply_ops(seq![sx], d);
    match x {
        OpV::Insert(c, _) => {
            assert(d =~= Seq::<char>::empty());
            assert(p =~= c.subrange(oa, oa + n));
            assert(p.subrange(0, p.len() as int) =~= p);
            assert(p.subrange(0, 0) =~= Seq::<char>::empty());
            assert(p.subrange(p.len() as int, p.len() as int) =~= Seq::<char>::empty());
            assert(d.subrange(0, 0) =~= Seq::<char>::empty());
            assert(p + Seq::<char>::empty() =~= p);
        },
        _ => {
            assert(d.subrange(0, d.len() as int) =~= d);
            assert(d.subrange(d.len() as int, d.len() as int) =~= Seq::<char>::empty());
            assert(p =~= d);
            assert(d + Seq::<char>::empty() =~= d);
        },
    }
}

proof fn lemma_apply_single_len(e: OpV, d: Seq<char>)
    requires
        d.len() == op_base(e),
    ensures
        apply_ops(seq![e], d).len() == op_target(e),
{
    assert(seq![e].drop_last() =~= Seq::<OpV>::empty());
    assert(base_len(Seq::<OpV>::empty()) == 0);
    assert(target_len(Seq::<OpV>::empty()) == 0);
    assert(base_len(seq![e]) == op_base(e));
    assert(target_len(seq![e]) == op_target(e));
    lemma_apply_len(seq![e], d);
}

/// The operation that one step of composition emits, and the cursors after it.
pub open spec fn compose_next(a: Seq<OpV>, b: Seq<OpV>, ia: int, oa: int, ib: int, ob: int) -> (
    OpV,
    int,
    int,
    int,
    int,
) {
    if ia == a.len() {
        (op_rest(b[ib], ob), ia, oa, ib + 1, 0)
    } else if ib == b.len() || a[ia] is Delete {
        (op_rest(a[ia], oa), ia + 1, 0, ib, ob)
    } else if b[ib] is Insert {
        (op_rest(b[ib], ob), ia, oa, ib + 1, 0)
    } else {
        let ra_n = op_len(a[ia]) - oa;
        let rb_n = op_len(b[ib]) - ob;
        let n = if ra_n <= rb_n {
            ra_n
        } else {
            rb_n
        };
        let na = advance(a, ia, oa, n);
        let nb = advance(b, ib, ob, n);
        (compose_step(a[ia], b[ib], oa, n as nat), na.0, na.1, nb.0, nb.1)
    }
}

pub open spec fn cursors_ok(a: Seq<OpV>, b: Seq<OpV>, ia: int, oa: int, ib: int, ob: int) -> bool {
    &&& ops_nonempty(a)
    &&& ops_nonempty(b)
    &&& 0 <= ia <= a.len()
    &&& 0 <= ib <= b.len()
    &&& (ia < a.len() ==> 0 <= oa < op_len(a[ia]))
    &&& (ib < b.len() ==> 0 <= ob < op_len(b[ib]))
    &&& rem_target(a, ia, oa) == rem_base(b, ib, ob)
}

/// One step of composition, on what is left of `a`'s input `d`: the emitted operation
/// on its part of `d`, then the rest of `b` after the rest of `a`, is the rest of `b`
/// after the rest of `a` before the step.
pub proof fn lemma_compose_next(a: Seq<OpV>, b: Seq<OpV>, ia: int, oa: int, ib: int, ob: int, d: Seq<char>)
    requires
        cursors_ok(a, b, ia, oa, ib, ob),
        !(ia == a.len() && ib == b.len()),
        d.len() == rem_base(a, ia, oa),
    ensures
        ({
            let nx = compose_next(a, b, ia, oa, ib, ob);
            let k = op_base(nx.0) as int;
            &&& cursors_ok(a, b, nx.1, nx.2, nx.3, nx.4)
            &&& k <= d.len()
            &&& rem_base(a, nx.1, nx.2) == d.len() - k
            &&& apply_ops(seq![nx.0], d.subrange(0, k)) + apply_ops(
                rest_seq(b, nx.3, nx.4),
                apply_ops(rest_seq(a, nx.1, nx.2), d.subrange(k, d.len() as int)),
            ) == apply_ops(rest_seq(b, ib, ob), apply_ops(rest_seq(a, ia, oa), d))
        }),
{
    lemma_rest_seq_lens(a, ia, oa);
    lemma_rest_seq_lens(b, ib, ob);
    lemma_apply_len(rest_seq(a, ia, oa), d);
    let ra = rest_seq(a, ia, oa);
    let y = apply_ops(ra, d);
    let nx = compose_next(a, b, ia, oa, ib, ob);
    let e = nx.0;
    let k = op_base(e) as int;
    if ia == a.len() {
        lemma_rem_step(b, ib, ob, op_len(b[ib]) - ob);
        assert(b[ib] is Insert);
        lemma_split_head(b, ib, ob, op_len(b[ib]) - ob, y);
        assert(y.subrange(0, 0) =~= d.subrange(0, k));
        assert(y.subrange(0, y.len() as int) =~= y);
        assert(d.subrange(k, d.len() as int) =~= d);
    } else if ib == b.len() || a[ia] is Delete {
        lemma_rem_step(a, ia, oa, op_len(a[ia]) - oa);
        assert(a[ia] is Delete);
        lemma_split_head(a, ia, oa, op_len(a[ia]) - oa, d);
        reveal_with_fuel(apply_ops, 2);
        assert(seq![e].drop_first() =~= Seq::<OpV>::empty());
        assert(apply_ops(seq![e], d.subrange(0, k)) =~= Seq::<char>::empty());
        assert(Seq::<char>::empty() + apply_ops(rest_seq(b, ib, ob), apply_ops(
            rest_seq(a, nx.1, nx.2),
            d.subrange(k, d.len() as int),
        )) =~= apply_ops(rest_seq(b, ib, ob), apply_ops(rest_seq(a, nx.1, nx.2), d.subrange(k, d.len() as int))));
    } else if b[ib] is Insert {
        lemma_rem_step(b, ib, ob, op_len(b[ib]) - ob);
        lemma_split_head(b, ib, ob, op_len(b[ib]) - ob, y);
        assert(y.subrange(0, 0) =~= d.subrange(0, k));
        assert(y.subrange(0, y.len() as int) =~= y);
        assert(d.subrange(k, d.len() as int) =~= d);
    } else {
        let ra_n = op_len(a[ia]) - oa;
        let rb_n = op_len(b[ib]) - ob;
        let n = if ra_n <= rb_n {
            ra_n
        } else {
            rb_n
        };
        lemma_rem_step(a, ia, oa, n);
        lemma_rem_step(b, ib, ob, n);
        let sa = op_slice(a[ia], oa, oa + n);
        let ka = op_base(sa) as int;
        lemma_split_head(a, ia, oa, n, d);
        let p = apply_ops(seq![sa], d.subrange(0, ka));
        lemma_apply_single_len(sa, d.subrange(0, ka));
        lemma_split_head(b, ib, ob, n, y);
        let ra2 = rest_seq(a, nx.1, nx.2);
        assert(y.subrange(0, n) =~= p);
        assert(y.subrange(n, y.len() as int) =~= apply_ops(ra2, d.subrange(ka, d.len() as int)));
        lemma_step_apply(a[ia], b[ib], oa, ob, n, d.subrange(0, ka));
    }
}

/// Composition from a cursor pair: on the text `pre + d`, where `pre` is what `acc`
/// consumes and `d` what is left of `a`'s input, the result is `acc` on `pre` followed
/// by the rest of `b` applied after the rest of `a`.
pub proof fn lemma_compose_from_apply(
    a: Seq<OpV>,
    b: Seq<OpV>,
    ia: int,
    oa: int,
    ib: int,
    ob: int,
    acc: Seq<OpV>,
    pre: Seq<char>,
    d: Seq<char>,
)
    requires
        cursors_ok(a, b, ia, oa, ib, ob),
        pre.len() == base_len(acc),
        d.len() == rem_base(a, ia, oa),
    ensures
        apply_ops(compose_from(a, b, ia, oa, ib, ob, acc), pre + d) == apply_ops(acc, pre)
            + apply_ops(rest_seq(b, ib, ob), apply_ops(rest_seq(a, ia, oa), d)),
    decreases (a.len() - ia) + (b.len() - ib),
{
    if ia == a.len() && ib == b.len() {
        assert(d =~= Seq::<char>::empty());
        assert(pre + d =~= pre);
        assert(rest_seq(a, ia, oa) =~= Seq::<OpV>::empty());
        assert(rest_seq(b, ib, ob) =~= Seq::<OpV>::empty());
        assert(apply_ops(acc, pre) + Seq::<char>::empty() =~= apply_ops(acc, pre));
    } else {
        let nx = compose_next(a, b, ia, oa, ib, ob);
        let e = nx.0;
        lemma_compose_next(a, b, ia, oa, ib, ob, d);
        assert(compose_from(a, b, ia, oa, ib, ob, acc) == compose_from(a, b, nx.1, nx.2, nx.3, nx.4, push_op(acc, e)));
        let k = op_base(e) as int;
        let pre2 = pre + d.subrange(0, k);
        let d2 = d.subrange(k, d.len() as int);
        lemma_lens_push_op(acc, e);
        lemma_apply_push_op(acc, e, pre2);
        lemma_apply_concat(acc, seq![e], pre2);
        assert(acc + seq![e] =~= acc.push(e));
        assert(seq![e].drop_last() =~= Seq::<OpV>::empty());
        assert(pre2.subrange(0, pre.len() as int) =~= pre);
        assert(pre2.subrange(pre.len() as int, pre2.len() as int) =~= d.subrange(0, k));
        assert(pre2 + d2 =~= pre + d);
        lemma_compose_from_apply(a, b, nx.1, nx.2, nx.3, nx.4, push_op(acc, e), pre2, d2);
        let x1 = apply_ops(acc, pre);
        let x2 = apply_ops(seq![e], d.subrange(0, k));
        let x3 = apply_ops(rest_seq(b, nx.3, nx.4), apply_ops(rest_seq(a, nx.1, nx.2), d2));
        assert((x1 + x2) + x3 =~= x1 + (x2 + x3));
    }
}

/// Composition is sequencing: on any text of `a`'s base length, the composition of
/// canonical deltas `a` then `b` gives what applying `a` and then `b` gives.
pub proof fn lemma_compose_apply(a: Seq<OpV>, b: Seq<OpV>, d: Seq<char>)
    requires
        canonical(a),
        canonical(b),
        target_len(a) == base_len(b),
        d.len() == base_len(a),
    ensures
        apply_ops(compose_ops(a, b), d) == apply_ops(b, apply_ops(a, d)),
{
    lemma_suffix(a, 0);
    lemma_suffix(b, 0);
    assert(a.subrange(0, a.len() as int) =~= a);
    assert(b.subrange(0, b.len() as int) =~= b);
    lemma_rest_seq_zero(a, 0);
    lemma_rest_seq_zero(b, 0);
    let e = Seq::<char>::empty();
    assert(base_len(Seq::<OpV>::empty()) == 0);
    lemma_compose_from_apply(a, b, 0, 0, 0, 0, Seq::empty(), e, d);
    assert(e + d =~= d);
    assert(e + apply_ops(b, apply_ops(a, d)) =~= apply_ops(b, apply_ops(a, d)));
}

/// Composition is associative in effect: on any text of `a`'s base length, composing
/// `a`, `b`, `c` grouped either way gives the same text.
pub proof fn lemma_compose_associative_on_text(a: Seq<OpV>, b: Seq<OpV>, c: Seq<OpV>, d: Seq<char>)
    requires
        canonical(a),
        canonical(b),
        canonical(c),
        target_len(a) == base_len(b),
        target_len(b) == base_len(c),
        d.len() == base_len(a),
    ensures
        apply_ops(compose_ops(compose_ops(a, b), c), d) == apply_ops(
            compose_ops(a, compose_ops(b, c)),
            d,
        ),
{
    lemma_compose_lens(a, b);
    lemma_compose_lens(b, c);
    lemma_compose_apply(a, b, d);
    lemma_compose_apply(compose_ops(a, b), c, d);
    lemma_apply_len(a, d);
    lemma_compose_apply(b, c, apply_ops(a, d));
    lemma_compose_apply(a, compose_ops(b, c), d);
}

proof fn lemma_apply_after_push(acc: Seq<OpV>, e: OpV, pre: Seq<char>, piece: Seq<char>)
    requires
        pre.len() == base_len(acc),
        piece.len() == op_base(e),
    ensures
        apply_ops(push_op(acc, e), pre + piece) == apply_ops(acc, pre) + apply_ops(seq![e], piece),
        base_len(push_op(acc, e)) == (pre + piece).len(),
{
    let pre2 = pre + piece;
    lemma_lens_push_op(acc, e);
    lemma_apply_push_op(acc, e, pre2);
    lemma_apply_concat(acc, seq![e], pre2);
    assert(acc + seq![e] =~= acc.push(e));
    assert(pre2.subrange(0, pre.len() as int) =~= pre);
    assert(pre2.subrange(pre.len() as int, pre2.len() as int) =~= piece);
}

proof fn lemma_apply_one(e: OpV, d: Seq<char>)
    ensures
        apply_ops(seq![e], d) == match e {
            OpV::Insert(c, _) => c + d,
            OpV::Delete(n) => d.subrange(clamp(n, d), d.len() as int),
            OpV::Retain(n, _) => d.subrange(0, clamp(n, d)) + d.subrange(clamp(n, d), d.len() as int),
        },
{
    reveal_with_fuel(apply_ops, 2);
    assert(seq![e].drop_first() =~= Seq::<OpV>::empty());
}

/// The two transformations of concurrent `a` and `b` walk them in step. Whatever both
/// have written so far being equal, applying each to the other side's result gives
/// equal texts.
pub proof fn lemma_transform_pair(
    a: Seq<OpV>,
    b: Seq<OpV>,
    ia: int,
    oa: int,
    ib: int,
    ob: int,
    acc1: Seq<OpV>,
    pre1: Seq<char>,
    acc2: Seq<OpV>,
    pre2: Seq<char>,
    d: Seq<char>,
)
    requires
        ops_nonempty(a),
        ops_nonempty(b),
        0 <= ia <= a.len(),
        0 <= ib <= b.len(),
        ia < a.len() ==> 0 <= oa < op_len(a[ia]),
        ib < b.len() ==> 0 <= ob < op_len(b[ib]),
        rem_base(a, ia, oa) == d.len(),
        rem_base(b, ib, ob) == d.len(),
        pre1.len() == base_len(acc1),
        pre2.len() == base_len(acc2),
        apply_ops(acc1, pre1) == apply_ops(acc2, pre2),
    ensures
        apply_ops(
            transform_from(b, a, false, ib, ob, ia, oa, acc1),
            pre1 + apply_ops(rest_seq(a, ia, oa), d),
        ) == apply_ops(
            transform_from(a, b, true, ia, oa, ib, ob, acc2),
            pre2 + apply_ops(rest_seq(b, ib, ob), d),
        ),
    decreases (a.len() - ia) + (b.len() - ib), 1int,
{
    let ra = rest_seq(a, ia, oa);
    let rb = rest_seq(b, ib, ob);
    if ia == a.len() && ib == b.len() {
        assert(d =~= Seq::<char>::empty());
        assert(pre1 + d =~= pre1);
        assert(pre2 + d =~= pre2);
    } else if ia < a.len() && a[ia] is Insert {
        lemma_pair_a_inserts(a, b, ia, oa, ib, ob, acc1, pre1, acc2, pre2, d);
    } else if ib < b.len() && b[ib] is Insert {
        lemma_pair_b_inserts(a, b, ia, oa, ib, ob, acc1, pre1, acc2, pre2, d);
    } else {
        lemma_pair_overlap(a, b, ia, oa, ib, ob, acc1, pre1, acc2, pre2, d);
    }
}

proof fn lemma_pair_a_inserts(
    a: Seq<OpV>,
    b: Seq<OpV>,
    ia: int,
    oa: int,
    ib: int,
    ob: int,
    acc1: Seq<OpV>,
    pre1: Seq<char>,
    acc2: Seq<OpV>,
    pre2: Seq<char>,
    d: Seq<char>,
)
    requires
        ops_nonempty(a),
        ops_nonempty(b),
        0 <= ia <= a.len(),
        0 <= ib <= b.len(),
        ia < a.len() ==> 0 <= oa < op_len(a[ia]),
        ib < b.len() ==> 0 <= ob < op_len(b[ib]),
        rem_base(a, ia, oa) == d.len(),
        rem_base(b, ib, ob) == d.len(),
        pre1.len() == base_len(acc1),
        pre2.len() == base_len(acc2),
        apply_ops(acc1, pre1) == apply_ops(acc2, pre2),
        ia < a.len() && a[ia] is Insert,
    ensures
        apply_ops(
            transform_from(b, a, false, ib, ob, ia, oa, acc1),
            pre1 + apply_ops(rest_seq(a, ia, oa), d),
        ) == apply_ops(
            transform_from(a, b, true, ia, oa, ib, ob, acc2),
            pre2 + apply_ops(rest_seq(b, ib, ob), d),
        ),
    decreases (a.len() - ia) + (b.len() - ib), 0int,
{
    let ra = rest_seq(a, ia, oa);
    let len = op_len(a[ia]) - oa;
    let e1 = OpV::Retain(len as nat, Seq::<AttrV>::empty());
    let e2 = op_rest(a[ia], oa);
    assert(!x_inserts_first(b, a, ib, ia, false));
    assert(x_inserts_first(a, b, ia, ib, true));
    assert(transform_from(b, a, false, ib, ob, ia, oa, acc1) == transform_from(b, a, false, ib, ob, ia + 1, 0, push_op(acc1, e1)));
    assert(transform_from(a, b, true, ia, oa, ib, ob, acc2) == transform_from(a, b, true, ia + 1, 0, ib, ob, push_op(acc2, e2)));
    lemma_rem_step(a, ia, oa, len);
    lemma_split_head(a, ia, oa, len, d);
    let s = apply_ops(seq![e2], d.subrange(0, 0));
    lemma_apply_one(e2, d.subrange(0, 0));
    assert(d.subrange(0, 0) =~= Seq::<char>::empty());
    assert(s =~= e2->Insert_0);
    assert(d.subrange(0, d.len() as int) =~= d);
    let e = Seq::<char>::empty();
    lemma_apply_after_push(acc1, e1, pre1, s);
    lemma_apply_after_push(acc2, e2, pre2, e);
    lemma_apply_one(e1, s);
    assert(s.subrange(0, s.len() as int) =~= s);
    assert(s.subrange(s.len() as int, s.len() as int) =~= e);
    assert(s + e =~= s);
    assert(pre2 + e =~= pre2);
    lemma_apply_one(e2, e);
    lemma_transform_pair(a, b, ia + 1, 0, ib, ob, push_op(acc1, e1), pre1 + s, push_op(acc2, e2), pre2, d);
    assert((pre1 + s) + apply_ops(rest_seq(a, ia + 1, 0), d) =~= pre1 + apply_ops(ra, d));
}

proof fn lemma_pair_b_inserts(
    a: Seq<OpV>,
    b: Seq<OpV>,
    ia: int,
    oa: int,
    ib: int,
    ob: int,
    acc1: Seq<OpV>,
    pre1: Seq<char>,
    acc2: Seq<OpV>,
    pre2: Seq<char>,
    d: Seq<char>,
)
    requires
        ops_nonempty(a),
        ops_nonempty(b),
        0 <= ia <= a.len(),
        0 <= ib <= b.len(),
        ia < a.len() ==> 0 <= oa < op_len(a[ia]),
        ib < b.len() ==> 0 <= ob < op_len(b[ib]),
        rem_base(a, ia, oa) == d.len(),
        rem_base(b, ib, ob) == d.len(),
        pre1.len() == base_len(acc1),
        pre2.len() == base_len(acc2),
        apply_ops(acc1, pre1) == apply_ops(acc2, pre2),
        !(ia < a.len() && a[ia] is Insert),
        ib < b.len() && b[ib] is Insert,
    ensures
        apply_ops(
            transform_from(b, a, false, ib, ob, ia, oa, acc1),
            pre1 + apply_ops(rest_seq(a, ia, oa), d),
        ) == apply_ops(
            transform_from(a, b, true, ia, oa, ib, ob, acc2),
            pre2 + apply_ops(rest_seq(b, ib, ob), d),
        ),
    decreases (a.len() - ia) + (b.len() - ib), 0int,
{
    let rb = rest_seq(b, ib, ob);
    let len = op_len(b[ib]) - ob;
    let e1 = op_rest(b[ib], ob);
    let e2 = OpV::Retain(len as nat, Seq::<AttrV>::empty());
    assert(x_inserts_first(b, a, ib, ia, false));
    assert(!x_inserts_first(a, b, ia, ib, true));
    assert(transform_from(b, a, false, ib, ob, ia, oa, acc1) == transform_from(b, a, false, ib + 1, 0, ia, oa, push_op(acc1, e1)));
    assert(transform_from(a, b, true, ia, oa, ib, ob, acc2) == transform_from(a, b, true, ia, oa, ib + 1, 0, push_op(acc2, e2)));
    lemma_rem_step(b, ib, ob, len);
    lemma_split_head(b, ib, ob, len, d);
    let t = apply_ops(seq![e1], d.subrange(0, 0));
    lemma_apply_one(e1, d.subrange(0, 0));
    assert(d.subrange(0, 0) =~= Seq::<char>::empty());
    assert(t =~= e1->Insert_0);
    assert(d.subrange(0, d.len() as int) =~= d);
    let e = Seq::<char>::empty();
    lemma_apply_after_push(acc1, e1, pre1, e);
    lemma_apply_after_push(acc2, e2, pre2, t);
    lemma_apply_one(e2, t);
    assert(t.subrange(0, t.len() as int) =~= t);
    assert(t.subrange(t.len() as int, t.len() as int) =~= e);
    assert(t + e =~= t);
    assert(pre1 + e =~= pre1);
    lemma_apply_one(e1, e);
    lemma_transform_pair(a, b, ia, oa, ib + 1, 0, push_op(acc1, e1), pre1, push_op(acc2, e2), pre2 + t, d);
    assert((pre2 + t) + apply_ops(rest_seq(b, ib + 1, 0), d) =~= pre2 + apply_ops(rb, d));
}

proof fn lemma_pair_overlap(
    a: Seq<OpV>,
    b: Seq<OpV>,
    ia: int,
    oa: int,
    ib: int,
    ob: int,
    acc1: Seq<OpV>,
    pre1: Seq<char>,
    acc2: Seq<OpV>,
    pre2: Seq<char>,
    d: Seq<char>,
)
    requires
        ops_nonempty(a),
        ops_nonempty(b),
        0 <= ia <= a.len(),
        0 <= ib <= b.len(),
        ia < a.len() ==> 0 <= oa < op_len(a[ia]),
        ib < b.len() ==> 0 <= ob < op_len(b[ib]),
        rem_base(a, ia, oa) == d.len(),
        rem_base(b, ib, ob) == d.len(),
        pre1.len() == base_len(acc1),
        pre2.len() == base_len(acc2),
        apply_ops(acc1, pre1) == apply_ops(acc2, pre2),
        !(ia == a.len() && ib == b.len()),
        !(ia < a.len() && a[ia] is Insert),
        !(ib < b.len() && b[ib] is Insert),
    ensures
        apply_ops(
            transform_from(b, a, false, ib, ob, ia, oa, acc1),
            pre1 + apply_ops(rest_seq(a, ia, oa), d),
        ) == apply_ops(
            transform_from(a, b, true, ia, oa, ib, ob, acc2),
            pre2 + apply_ops(rest_seq(b, ib, ob), d),
        ),
    decreases (a.len() - ia) + (b.len() - ib), 0int,
{
    let ra = rest_seq(a, ia, oa);
    let rb = rest_seq(b, ib, ob);
    assert(ia < a.len() && ib < b.len());
    let rx = op_len(a[ia]) - oa;
    let ry = op_len(b[ib]) - ob;
    let n = if rx <= ry {
        rx
    } else {
        ry
    };
    let e1 = transform_step(b[ib], a[ia], n as nat, false);
    let e2 = transform_step(a[ia], b[ib], n as nat, true);
    let na = advance(a, ia, oa, n);
    let nb = advance(b, ib, ob, n);
    assert(!x_inserts_first(b, a, ib, ia, false));
    assert(!x_inserts_first(a, b, ia, ib, true));
    assert(transform_from(b, a, false, ib, ob, ia, oa, acc1) == transform_from(b, a, false, nb.0, nb.1, na.0, na.1, push_op(acc1, e1)));
    assert(transform_from(a, b, true, ia, oa, ib, ob, acc2) == transform_from(a, b, true, na.0, na.1, nb.0, nb.1, push_op(acc2, e2)));
    lemma_rem_step(a, ia, oa, n);
    lemma_rem_step(b, ib, ob, n);
    lemma_split_head(a, ia, oa, n, d);
    lemma_split_head(b, ib, ob, n, d);
    let sa = op_slice(a[ia], oa, oa + n);
    let sb = op_slice(b[ib], ob, ob + n);
    let dn = d.subrange(0, n);
    let rest = d.subrange(n, d.len() as int);
    let pa = apply_ops(seq![sa], dn);
    let pb = apply_ops(seq![sb], dn);
    lemma_apply_one(sa, dn);
    lemma_apply_one(sb, dn);
    lemma_apply_one(e1, pa);
    lemma_apply_one(e2, pb);
    assert(dn.subrange(0, n) =~= dn);
    assert(dn.subrange(n, n) =~= Seq::<char>::empty());
    assert(dn + Seq::<char>::empty() =~= dn);
    let e = Seq::<char>::empty();
    assert(e.subrange(0, 0) =~= e);
    assert(e + e =~= e);
    lemma_apply_after_push(acc1, e1, pre1, pa);
    lemma_apply_after_push(acc2, e2, pre2, pb);
    lemma_transform_pair(a, b, na.0, na.1, nb.0, nb.1, push_op(acc1, e1), pre1 + pa, push_op(acc2, e2), pre2 + pb, rest);
    assert((pre1 + pa) + apply_ops(rest_seq(a, na.0, na.1), rest) =~= pre1 + apply_ops(ra, d));
    assert((pre2 + pb) + apply_ops(rest_seq(b, nb.0, nb.1), rest) =~= pre2 + apply_ops(rb, d));
}

/// Convergence on text: for concurrent canonical deltas `a` and `b` on one document,
/// `a` followed by `b` transformed against it, and `b` followed by `a` transformed
/// against it (with priority), turn the document into the same text.
pub proof fn lemma_convergence_on_text(a: Seq<OpV>, b: Seq<OpV>, d: Seq<char>)
    requires
        canonical(a),
        canonical(b),
        base_len(a) == base_len(b),
        d.len() == base_len(a),
    ensures
        apply_ops(compose_ops(a, transform_ops(b, a, false)), d) == apply_ops(
            compose_ops(b, transform_ops(a, b, true)),
            d,
        ),
{
    lemma_transform_lens(b, a, false);
    lemma_transform_lens(a, b, true);
    lemma_compose_apply(a, transform_ops(b, a, false), d);
    lemma_compose_apply(b, transform_ops(a, b, true), d);
    lemma_suffix(a, 0);
    lemma_suffix(b, 0);
    assert(a.subrange(0, a.len() as int) =~= a);
    assert(b.subrange(0, b.len() as int) =~= b);
    lemma_rest_seq_zero(a, 0);
    lemma_rest_seq_zero(b, 0);
    let e = Seq::<char>::empty();
    assert(base_len(Seq::<OpV>::empty()) == 0);
    lemma_transform_pair(a, b, 0, 0, 0, 0, Seq::empty(), e, Seq::empty(), e, d);
    assert(e + apply_ops(a, d) =~= apply_ops(a, d));
    assert(e + apply_ops(b, d) =~= apply_ops(b, d));
}

} // verus!
