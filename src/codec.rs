use vstd::prelude::*;
use crate::attributes::{attrs_view, opt_view, AttrV, Attribute, Attributes};
use crate::delta::{chars_of, delta_wf, Delta, OpV, Operation};
use crate::session::Revision;

verus! {

/// Word encoding of a text: its length, then one word per character.
pub open spec fn enc_str(s: Seq<char>) -> Seq<u64> {
    seq![s.len() as u64] + s.map_values(|c: char| (c as u32) as u64)
}

/// Word encoding of an optional value: a tag, then the text when there is one.
pub open spec fn enc_value(v: Option<Seq<char>>) -> Seq<u64> {
    match v {
        Some(s) => seq![1u64] + enc_str(s),
        None => seq![0u64],
    }
}

pub open spec fn enc_entry(e: AttrV) -> Seq<u64> {
    enc_str(e.0) + enc_value(e.1)
}

/// The encodings of the items of `s`, one after another.
pub open spec fn enc_list<T>(s: Seq<T>, f: spec_fn(T) -> Seq<u64>) -> Seq<u64>
    decreases s.len(),
{
    if s.len() == 0 {
        Seq::empty()
    } else {
        enc_list(s.drop_last(), f) + f(s.last())
    }
}

pub open spec fn entry_f() -> spec_fn(AttrV) -> Seq<u64> {
    |e: AttrV| enc_entry(e)
}

pub open spec fn enc_entries(a: Seq<AttrV>) -> Seq<u64> {
    enc_list(a, entry_f())
}

/// Word encoding of attributes: the number of entries, then each entry.
pub open spec fn enc_attrs(a: Seq<AttrV>) -> Seq<u64> {
    seq![a.len() as u64] + enc_entries(a)
}

/// Whether `w` holds `e` from `pos` on.
pub open spec fn encoded_at(w: Seq<u64>, pos: int, e: Seq<u64>) -> bool {
    &&& 0 <= pos
    &&& pos + e.len() <= w.len()
    &&& w.subrange(pos, pos + e.len()) == e
}

/// Word encoding of an operation: a tag, then its length or text, then its attributes.
pub open spec fn enc_op(op: OpV) -> Seq<u64> {
    match op {
        OpV::Delete(n) => seq![0u64, n as u64],
        OpV::Retain(n, a) => seq![1u64, n as u64] + enc_attrs(a),
        OpV::Insert(t, a) => seq![2u64] + enc_str(t) + enc_attrs(a),
    }
}

pub open spec fn op_f() -> spec_fn(OpV) -> Seq<u64> {
    |o: OpV| enc_op(o)
}

/// Word encoding of a delta: the number of operations, then each operation.
pub open spec fn enc_delta(ops: Seq<OpV>) -> Seq<u64> {
    seq![ops.len() as u64] + enc_list(ops, op_f())
}

/// Word encoding of a revision: its base revision, its checksum, then its delta.
pub open spec fn enc_revision(base: u64, md5: Seq<char>, ops: Seq<OpV>) -> Seq<u64> {
    seq![base] + enc_str(md5) + enc_delta(ops)
}

pub proof fn lemma_enc_list_concat<T>(x: Seq<T>, y: Seq<T>, f: spec_fn(T) -> Seq<u64>)
    ensures
        enc_list(x + y, f) == enc_list(x, f) + enc_list(y, f),
    decreases y.len(),
{
    if y.len() == 0 {
        assert(x + y =~= x);
        assert(enc_list(x, f) + enc_list(y, f) =~= enc_list(x, f));
    } else {
        lemma_enc_list_concat(x, y.drop_last(), f);
        assert((x + y).drop_last() =~= x + y.drop_last());
        assert(enc_list(x + y, f) =~= enc_list(x, f) + enc_list(y, f));
    }
}

/// Where item `i` of a list's encoding stands: after the encodings of the items before it.
pub proof fn lemma_enc_list_at<T>(s: Seq<T>, i: int, f: spec_fn(T) -> Seq<u64>)
    requires
        0 <= i < s.len(),
    ensures
        enc_list(s.subrange(0, i + 1), f) == enc_list(s.subrange(0, i), f) + f(s[i]),
        enc_list(s, f) == enc_list(s.subrange(0, i + 1), f) + enc_list(
            s.subrange(i + 1, s.len() as int),
            f,
        ),
{
    assert(s.subrange(0, i + 1).drop_last() =~= s.subrange(0, i));
    lemma_enc_list_concat(s.subrange(0, i + 1), s.subrange(i + 1, s.len() as int), f);
    assert(s.subrange(0, i + 1) + s.subrange(i + 1, s.len() as int) =~= s);
}

/// Whether every length in a text fits in a word.
pub open spec fn str_fits(s: Seq<char>) -> bool {
    s.len() < usize::MAX
}

pub open spec fn value_fits(v: Option<Seq<char>>) -> bool {
    match v {
        Some(t) => str_fits(t),
        None => true,
    }
}

pub open spec fn entry_fits(e: AttrV) -> bool {
    str_fits(e.0) && value_fits(e.1)
}

pub open spec fn attrs_fit(a: Seq<AttrV>) -> bool {
    &&& a.len() < usize::MAX
    &&& forall|i: int| 0 <= i < a.len() ==> entry_fits(#[trigger] a[i])
}

pub open spec fn op_fits(op: OpV) -> bool {
    match op {
        OpV::Delete(n) => n <= usize::MAX,
        OpV::Retain(n, a) => n <= usize::MAX && attrs_fit(a),
        OpV::Insert(t, a) => str_fits(t) && attrs_fit(a),
    }
}

pub open spec fn ops_fit(s: Seq<OpV>) -> bool {
    &&& s.len() < usize::MAX
    &&& forall|i: int| 0 <= i < s.len() ==> op_fits(#[trigger] s[i])
}

/// Relies on collecting characters into a `String` (`FromIterator<char>`), which keeps
/// them in order.
#[verifier::external_body]
fn string_from_chars(v: &Vec<char>) -> (r: String)
    ensures
        r@ == v@,
{
    String::from_iter(v.iter())
}

/// Relies on `char::from_u32`, which gives the character with that scalar value, and
/// `None` for a number that is no character.
#[verifier::external_body]
fn char_from_u32(i: u32) -> (r: Option<char>)
    ensures
        r matches Some(c) ==> c as u32 == i,
        forall|c: char| c as u32 == i ==> r == Some(c),
{
    char::from_u32(i)
}

proof fn lemma_split(w: Seq<u64>, pos: int, a: Seq<u64>, b: Seq<u64>)
    requires
        encoded_at(w, pos, a + b),
    ensures
        encoded_at(w, pos, a),
        encoded_at(w, pos + a.len(), b),
{
    let n = (a.len() + b.len()) as int;
    let m = a.len() as int;
    assert(w.subrange(pos, pos + m) =~= (a + b).subrange(0, m));
    assert((a + b).subrange(0, m) =~= a);
    assert(w.subrange(pos + m, pos + n) =~= (a + b).subrange(m, n));
    assert((a + b).subrange(m, n) =~= b);
}

proof fn lemma_at(w: Seq<u64>, pos: int, e: Seq<u64>, k: int)
    requires
        encoded_at(w, pos, e),
        0 <= k < e.len(),
    ensures
        w[pos + k] == e[k],
{
    assert(w.subrange(pos, pos + e.len())[k] == w[pos + k]);
}

proof fn lemma_join(w: Seq<u64>, pos: int, a: Seq<u64>, b: Seq<u64>)
    requires
        encoded_at(w, pos, a),
        encoded_at(w, pos + a.len(), b),
    ensures
        encoded_at(w, pos, a + b),
{
    let m = a.len() as int;
    let n = (a.len() + b.len()) as int;
    assert forall|j: int| 0 <= j < n implies #[trigger] w.subrange(pos, pos + n)[j] == (a + b)[j] by {
        if j < m {
            assert(w.subrange(pos, pos + m)[j] == w[pos + j]);
        } else {
            assert(w.subrange(pos + m, pos + n)[j - m] == w[pos + j]);
        }
    }
    assert(w.subrange(pos, pos + n) =~= a + b);
}

/// Appends the encoding of a text.
pub fn write_str(out: &mut Vec<u64>, s: &Vec<char>)
    ensures
        final(out)@ == old(out)@ + enc_str(s@),
{
    out.push(s.len() as u64);
    let ghost start = out@;
    let mut i: usize = 0;
    while i < s.len()
        invariant
            i <= s.len(),
            out@ == start + s@.subrange(0, i as int).map_values(|c: char| (c as u32) as u64),
        decreases s.len() - i,
    {
        out.push(s[i] as u32 as u64);
        i = i + 1;
        assert(out@ =~= start + s@.subrange(0, i as int).map_values(|c: char| (c as u32) as u64));
    }
    assert(s@.subrange(0, i as int) =~= s@);
    assert(out@ =~= old(out)@ + enc_str(s@));
}

/// Reads a text written by `write_str` at `pos`.
pub fn read_str(w: &Vec<u64>, pos: usize) -> (r: Option<(Vec<char>, usize)>)
    ensures
        forall|s: Seq<char>|
            #![trigger enc_str(s)]
            str_fits(s) && encoded_at(w@, pos as int, enc_str(s)) ==> (r matches Some((v, p)) && v@ == s && p == pos + enc_str(s).len()),
        r matches Some((v, p)) ==> (encoded_at(w@, pos as int, enc_str(v@)) && p == pos + enc_str(
            v@,
        ).len()),
{
    if pos >= w.len() {
        return None;
    }
    let m = w[pos];
    proof {
        assert forall|s: Seq<char>|
            #![trigger enc_str(s)]
            str_fits(s) && encoded_at(w@, pos as int, enc_str(s)) implies m == s.len() && pos + 1
                + s.len() <= w@.len() by {
            lemma_at(w@, pos as int, enc_str(s), 0);
        }
    }
    if m > usize::MAX as u64 {
        return None;
    }
    let n = m as usize;
    if n > w.len() - pos - 1 {
        return None;
    }
    let mut v: Vec<char> = Vec::new();
    let mut i: usize = 0;
    let mut k: usize = pos + 1;
    while i < n
        invariant
            i <= n,
            k == pos + 1 + i,
            pos + 1 + n <= w@.len() <= usize::MAX,
            m == n,
            w@[pos as int] == m,
            v@.len() == i,
            w@.subrange(pos + 1, k as int) == v@.map_values(|c: char| (c as u32) as u64),
            forall|s: Seq<char>|
                #![trigger enc_str(s)]
                str_fits(s) && encoded_at(w@, pos as int, enc_str(s)) ==> s.len() == n && v@ == s.subrange(0, i as int),
        decreases n - i,
    {
        let x = w[k];
        if x > u32::MAX as u64 {
            proof {
                assert forall|s: Seq<char>|
                    #![trigger enc_str(s)]
                    str_fits(s) && encoded_at(w@, pos as int, enc_str(s)) implies false by {
                    assert(s.len() == n);
                    lemma_at(w@, pos as int, enc_str(s), 1 + i);
                    assert(enc_str(s)[1 + i] == (s[i as int] as u32) as u64);
                }
            }
            return None;
        }
        let xc = x as u32;
        let cr = char_from_u32(xc);
        let c = match cr {
            Some(c) => c,
            None => {
                proof {
                    assert forall|s: Seq<char>|
                        #![trigger enc_str(s)]
                        str_fits(s) && encoded_at(w@, pos as int, enc_str(s)) implies false by {
                        lemma_at(w@, pos as int, enc_str(s), 1 + i);
                        assert(enc_str(s)[1 + i] == (s[i as int] as u32) as u64);
                        assert(xc == s[i as int] as u32);
                        assert(cr == Some(s[i as int]));
                    }
                }
                return None;
            },
        };
        proof {
            assert forall|s: Seq<char>|
                #![trigger enc_str(s)]
                str_fits(s) && encoded_at(w@, pos as int, enc_str(s)) implies s.len() == n && c
                    == s[i as int] by {
                lemma_at(w@, pos as int, enc_str(s), 1 + i);
                assert(enc_str(s)[1 + i] == (s[i as int] as u32) as u64);
                assert(xc == s[i as int] as u32);
                assert(cr == Some(s[i as int]));
            }
        }
        let ghost v0 = v@;
        v.push(c);
        proof {
            assert(x == (c as u32) as u64);
            assert(w@.subrange(pos + 1, k + 1) =~= w@.subrange(pos + 1, k as int).push(x));
            assert(v@.map_values(|c: char| (c as u32) as u64) =~= v0.map_values(
                |c: char| (c as u32) as u64,
            ).push((c as u32) as u64));
            assert forall|s: Seq<char>|
                #![trigger enc_str(s)]
                str_fits(s) && encoded_at(w@, pos as int, enc_str(s)) implies s.len() == n && v@
                    == s.subrange(0, i + 1) by {
                assert(v0 == s.subrange(0, i as int));
                assert(v@ =~= s.subrange(0, i + 1));
            }
        }
        i = i + 1;
        k = k + 1;
    }
    proof {
        assert forall|s: Seq<char>|
            #![trigger enc_str(s)]
            str_fits(s) && encoded_at(w@, pos as int, enc_str(s)) implies v@ == s by {
            assert(s.subrange(0, n as int) =~= s);
        }
        assert(w@.subrange(pos as int, k as int) =~= enc_str(v@));
    }
    Some((v, k))
}

/// Appends the encoding of an optional value.
pub fn write_value(out: &mut Vec<u64>, v: &Option<String>)
    ensures
        final(out)@ == old(out)@ + enc_value(opt_view(*v)),
{
    match v {
        Some(t) => {
            out.push(1);
            let c = chars_of(t.as_str());
            write_str(out, &c);
            assert(final(out)@ =~= old(out)@ + enc_value(opt_view(*v)));
        },
        None => {
            out.push(0);
            assert(final(out)@ =~= old(out)@ + enc_value(opt_view(*v)));
        },
    }
}

/// Appends the encoding of attributes.
pub fn write_attrs(out: &mut Vec<u64>, a: &Attributes)
    ensures
        final(out)@ == old(out)@ + enc_attrs(a@),
{
    out.push(a.entries.len() as u64);
    let ghost start = out@;
    let mut i: usize = 0;
    proof {
        assert(a@.subrange(0, 0) =~= Seq::<AttrV>::empty());
        assert(start + enc_entries(a@.subrange(0, 0)) =~= start);
    }
    while i < a.entries.len()
        invariant
            i <= a.entries.len(),
            out@ == start + enc_entries(a@.subrange(0, i as int)),
        decreases a.entries.len() - i,
    {
        let e = &a.entries[i];
        let key = chars_of(e.key.as_str());
        write_str(out, &key);
        write_value(out, &e.value);
        proof {
            lemma_enc_list_at(a@, i as int, entry_f());
            assert(a@[i as int] == e@);
        }
        assert(out@ =~= start + enc_entries(a@.subrange(0, i as int + 1)));
        i = i + 1;
    }
    assert(a@.subrange(0, i as int) =~= a@);
    assert(out@ =~= old(out)@ + enc_attrs(a@));
}

/// Appends the encoding of an operation.
pub fn write_op(out: &mut Vec<u64>, op: &Operation)
    ensures
        final(out)@ == old(out)@ + enc_op(op@),
{
    match op {
        Operation::Delete(n) => {
            out.push(0);
            out.push(*n as u64);
        },
        Operation::Retain(n, a) => {
            out.push(1);
            out.push(*n as u64);
            write_attrs(out, a);
        },
        Operation::Insert(t, a) => {
            out.push(2);
            write_str(out, t);
            write_attrs(out, a);
        },
    }
    assert(final(out)@ =~= old(out)@ + enc_op(op@));
}

/// Appends the encoding of a delta.
pub fn write_delta(out: &mut Vec<u64>, d: &Delta)
    ensures
        final(out)@ == old(out)@ + enc_delta(d@),
{
    out.push(d.ops.len() as u64);
    let ghost start = out@;
    let mut i: usize = 0;
    proof {
        assert(d@.subrange(0, 0) =~= Seq::<OpV>::empty());
        assert(start + enc_list(d@.subrange(0, 0), op_f()) =~= start);
    }
    while i < d.ops.len()
        invariant
            i <= d.ops.len(),
            out@ == start + enc_list(d@.subrange(0, i as int), op_f()),
        decreases d.ops.len() - i,
    {
        write_op(out, &d.ops[i]);
        proof {
            lemma_enc_list_at(d@, i as int, op_f());
        }
        assert(out@ =~= start + enc_list(d@.subrange(0, i as int + 1), op_f()));
        i = i + 1;
    }
    assert(d@.subrange(0, i as int) =~= d@);
    assert(out@ =~= old(out)@ + enc_delta(d@));
}

/// The word encoding of a delta.
pub fn encode_delta(d: &Delta) -> (r: Vec<u64>)
    ensures
        r@ == enc_delta(d@),
{
    let mut out: Vec<u64> = Vec::new();
    write_delta(&mut out, d);
    assert(out@ =~= enc_delta(d@));
    out
}

/// The word encoding of a revision.
pub fn encode_revision(rev: &Revision) -> (r: Vec<u64>)
    ensures
        r@ == enc_revision(rev.base_revision, rev.md5@, rev.delta@),
{
    let mut out: Vec<u64> = Vec::new();
    out.push(rev.base_revision);
    let c = chars_of(rev.md5.as_str());
    write_str(&mut out, &c);
    write_delta(&mut out, &rev.delta);
    assert(out@ =~= enc_revision(rev.base_revision, rev.md5@, rev.delta@));
    out
}

/// Reads an optional value written by `write_value` at `pos`.
pub fn read_value(w: &Vec<u64>, pos: usize) -> (r: Option<(Option<String>, usize)>)
    ensures
        forall|v: Option<Seq<char>>|
            #![trigger enc_value(v)]
            value_fits(v) && encoded_at(w@, pos as int, enc_value(v)) ==> (r matches Some((x, p))
                && opt_view(x) == v && p == pos + enc_value(v).len()),
        r is Some ==> encoded_at(w@, pos as int, enc_value(opt_view(r->Some_0.0))),
        r is Some ==> r->Some_0.1 == pos + enc_value(opt_view(r->Some_0.0)).len(),
{
    if pos >= w.len() {
        return None;
    }
    let tag = w[pos];
    proof {
        assert forall|v: Option<Seq<char>>|
            #![trigger enc_value(v)]
            value_fits(v) && encoded_at(w@, pos as int, enc_value(v)) implies (tag == 0) == (v is None)
                && (v is Some ==> tag == 1) && (v is Some ==> encoded_at(w@, pos + 1, enc_str(v->Some_0))) by {
            lemma_at(w@, pos as int, enc_value(v), 0);
            if let Some(t) = v {
                lemma_split(w@, pos as int, seq![1u64], enc_str(t));
            }
        }
    }
    if tag == 0 {
        assert(w@.subrange(pos as int, pos + 1) =~= seq![0u64]);
        return Some((None, pos + 1));
    }
    if tag != 1 {
        return None;
    }
    match read_str(w, pos + 1) {
        Some((c, p)) => {
            let t = string_from_chars(&c);
            proof {
                assert(w@.subrange(pos as int, pos + 1) =~= seq![1u64]);
                lemma_join(w@, pos as int, seq![1u64], enc_str(c@));
            }
            Some((Some(t), p))
        },
        None => None,
    }
}

proof fn lemma_attrs_item(w: Seq<u64>, pos: int, a: Seq<AttrV>, i: int)
    requires
        attrs_fit(a),
        encoded_at(w, pos, enc_attrs(a)),
        0 <= i < a.len(),
    ensures
        encoded_at(w, pos + 1 + enc_entries(a.subrange(0, i)).len(), enc_entry(a[i])),
        entry_fits(a[i]),
{
    lemma_enc_list_at(a, i, entry_f());
    let head = seq![a.len() as u64] + enc_entries(a.subrange(0, i));
    let tail = enc_entry(a[i]) + enc_entries(a.subrange(i + 1, a.len() as int));
    assert(enc_attrs(a) =~= head + tail);
    lemma_split(w, pos, head, tail);
    lemma_split(w, pos + head.len(), enc_entry(a[i]), enc_entries(a.subrange(i + 1, a.len() as int)));
}

/// Reads attributes written by `write_attrs` at `pos`.
pub fn read_attrs(w: &Vec<u64>, pos: usize) -> (r: Option<(Attributes, usize)>)
    ensures
        forall|a: Seq<AttrV>|
            #![trigger enc_attrs(a)]
            attrs_fit(a) && encoded_at(w@, pos as int, enc_attrs(a)) ==> (r matches Some((x, p))
                && x@ == a && p == pos + enc_attrs(a).len()),
        r is Some ==> encoded_at(w@, pos as int, enc_attrs(r->Some_0.0@)),
        r is Some ==> r->Some_0.1 == pos + enc_attrs(r->Some_0.0@).len(),
{
    if pos >= w.len() {
        return None;
    }
    let m = w[pos];
    proof {
        assert forall|a: Seq<AttrV>|
            #![trigger enc_attrs(a)]
            attrs_fit(a) && encoded_at(w@, pos as int, enc_attrs(a)) implies m == a.len() by {
            lemma_at(w@, pos as int, enc_attrs(a), 0);
        }
    }
    if m >= usize::MAX as u64 {
        return None;
    }
    let n = m as usize;
    let mut entries: Vec<Attribute> = Vec::new();
    let mut i: usize = 0;
    let mut p: usize = pos + 1;
    proof {
        assert forall|a: Seq<AttrV>|
            #![trigger enc_attrs(a)]
            attrs_fit(a) && encoded_at(w@, pos as int, enc_attrs(a)) implies attrs_view(entries@)
                == a.subrange(0, 0) && p == pos + 1 + enc_entries(a.subrange(0, 0)).len() by {
            assert(a.subrange(0, 0) =~= Seq::<AttrV>::empty());
            assert(attrs_view(entries@) =~= Seq::<AttrV>::empty());
        }
        assert(attrs_view(entries@) =~= Seq::<AttrV>::empty());
        assert(w@.subrange(pos as int, pos + 1) =~= seq![m]);
        assert(seq![m] + enc_entries(attrs_view(entries@)) =~= seq![m]);
    }
    while i < n
        invariant
            i <= n,
            w@.len() <= usize::MAX,
            n == m,
            attrs_view(entries@).len() == i,
            encoded_at(w@, pos as int, seq![m] + enc_entries(attrs_view(entries@))),
            p == pos + 1 + enc_entries(attrs_view(entries@)).len(),
            forall|a: Seq<AttrV>|
                #![trigger enc_attrs(a)]
                attrs_fit(a) && encoded_at(w@, pos as int, enc_attrs(a)) ==> a.len() == n
                    && attrs_view(entries@) == a.subrange(0, i as int) && p == pos + 1
                    + enc_entries(a.subrange(0, i as int)).len(),
        decreases n - i,
    {
        let key = read_str(w, p);
        let (kc, mid) = match key {
            Some(x) => x,
            None => {
                proof {
                    assert forall|a: Seq<AttrV>|
                        #![trigger enc_attrs(a)]
                        attrs_fit(a) && encoded_at(w@, pos as int, enc_attrs(a)) implies false by {
                        lemma_attrs_item(w@, pos as int, a, i as int);
                        lemma_split(w@, p as int, enc_str(a[i as int].0), enc_value(a[i as int].1));
                    }
                }
                return None;
            },
        };
        let value = read_value(w, mid);
        let (v, end) = match value {
            Some(x) => x,
            None => {
                proof {
                    assert forall|a: Seq<AttrV>|
                        #![trigger enc_attrs(a)]
                        attrs_fit(a) && encoded_at(w@, pos as int, enc_attrs(a)) implies false by {
                        lemma_attrs_item(w@, pos as int, a, i as int);
                        lemma_split(w@, p as int, enc_str(a[i as int].0), enc_value(a[i as int].1));
                    }
                }
                return None;
            },
        };
        let ghost e0 = attrs_view(entries@);
        let e = Attribute { key: string_from_chars(&kc), value: v };
        let ghost ev = e@;
        entries.push(e);
        proof {
            lemma_join(w@, p as int, enc_str(kc@), enc_value(ev.1));
            assert(enc_entry(ev) == enc_str(kc@) + enc_value(ev.1));
            assert((seq![m] + enc_entries(e0)).len() == 1 + enc_entries(e0).len());
            lemma_join(w@, pos as int, seq![m] + enc_entries(e0), enc_entry(ev));
            assert(attrs_view(entries@) =~= e0.push(ev));
            assert(attrs_view(entries@).drop_last() =~= e0);
            assert(enc_entries(attrs_view(entries@)) == enc_entries(e0) + enc_entry(ev));
            assert(seq![m] + enc_entries(e0) + enc_entry(ev) =~= seq![m] + enc_entries(attrs_view(entries@)));
            assert forall|a: Seq<AttrV>|
                #![trigger enc_attrs(a)]
                attrs_fit(a) && encoded_at(w@, pos as int, enc_attrs(a)) implies a.len() == n
                    && attrs_view(entries@) == a.subrange(0, i + 1) && end == pos + 1
                    + enc_entries(a.subrange(0, i + 1)).len() by {
                lemma_attrs_item(w@, pos as int, a, i as int);
                lemma_split(w@, p as int, enc_str(a[i as int].0), enc_value(a[i as int].1));
                lemma_enc_list_at(a, i as int, entry_f());
                assert(attrs_view(entries@) =~= e0.push(a[i as int]));
                assert(attrs_view(entries@) =~= a.subrange(0, i + 1));
            }
        }
        i = i + 1;
        p = end;
    }
    let r = Attributes { entries };
    proof {
        assert forall|a: Seq<AttrV>|
            #![trigger enc_attrs(a)]
            attrs_fit(a) && encoded_at(w@, pos as int, enc_attrs(a)) implies r@ == a && p == pos
                + enc_attrs(a).len() by {
            assert(a.subrange(0, n as int) =~= a);
        }
        assert(r@.len() as u64 == m);
        assert(enc_attrs(r@) =~= seq![m] + enc_entries(attrs_view(r.entries@)));
    }
    Some((r, p))
}

/// Reads an operation written by `write_op` at `pos`.
pub fn read_op(w: &Vec<u64>, pos: usize) -> (r: Option<(Operation, usize)>)
    ensures
        forall|o: OpV|
            #![trigger enc_op(o)]
            op_fits(o) && encoded_at(w@, pos as int, enc_op(o)) ==> (r matches Some((x, p)) && x@
                == o && p == pos + enc_op(o).len()),
        r is Some ==> encoded_at(w@, pos as int, enc_op(r->Some_0.0@)),
        r is Some ==> r->Some_0.1 == pos + enc_op(r->Some_0.0@).len(),
{
    if w.len() < 2 || pos >= w.len() - 1 {
        proof {
            assert forall|o: OpV|
                #![trigger enc_op(o)]
                op_fits(o) && encoded_at(w@, pos as int, enc_op(o)) implies false by {
                match o {
                    OpV::Insert(t, a) => {
                        lemma_split(w@, pos as int, seq![2u64] + enc_str(t), enc_attrs(a));
                        lemma_split(w@, pos as int, seq![2u64], enc_str(t));
                    },
                    _ => {},
                }
            }
        }
        return None;
    }
    let tag = w[pos];
    let m = w[pos + 1];
    proof {
        assert forall|o: OpV|
            #![trigger enc_op(o)]
            op_fits(o) && encoded_at(w@, pos as int, enc_op(o)) implies tag == match o {
                OpV::Delete(_) => 0u64,
                OpV::Retain(_, _) => 1u64,
                OpV::Insert(_, _) => 2u64,
            } && (!(o is Insert) ==> m == op_len_word(o)) by {
            lemma_at(w@, pos as int, enc_op(o), 0);
            match o {
                OpV::Insert(_, _) => {},
                _ => {
                    lemma_at(w@, pos as int, enc_op(o), 1);
                },
            }
        }
    }
    if tag == 0 || tag == 1 {
        if m > usize::MAX as u64 {
            return None;
        }
        let n = m as usize;
        proof {
            assert(w@.subrange(pos as int, pos + 2) =~= seq![tag, m]);
        }
        if tag == 0 {
            assert(enc_op(Operation::Delete(n)@) == seq![tag, m]);
            return Some((Operation::Delete(n), pos + 2));
        }
        match read_attrs(w, pos + 2) {
            Some((a, p)) => {
                proof {
                    assert forall|o: OpV|
                        #![trigger enc_op(o)]
                        op_fits(o) && encoded_at(w@, pos as int, enc_op(o)) implies Operation::Retain(
                            n,
                            a,
                        )@ == o && p == pos + enc_op(o).len() by {
                        if let OpV::Retain(k, b) = o {
                            lemma_split(w@, pos as int, seq![1u64, k as u64], enc_attrs(b));
                        }
                    }
                }
                proof {
                    lemma_join(w@, pos as int, seq![tag, m], enc_attrs(a@));
                    assert(enc_op(Operation::Retain(n, a)@) == seq![tag, m] + enc_attrs(a@));
                }
                Some((Operation::Retain(n, a), p))
            },
            None => {
                proof {
                    assert forall|o: OpV|
                        #![trigger enc_op(o)]
                        op_fits(o) && encoded_at(w@, pos as int, enc_op(o)) implies false by {
                        if let OpV::Retain(k, b) = o {
                            lemma_split(w@, pos as int, seq![1u64, k as u64], enc_attrs(b));
                        }
                    }
                }
                None
            },
        }
    } else if tag == 2 {
        let (t, mid) = match read_str(w, pos + 1) {
            Some(x) => x,
            None => {
                proof {
                    assert forall|o: OpV|
                        #![trigger enc_op(o)]
                        op_fits(o) && encoded_at(w@, pos as int, enc_op(o)) implies false by {
                        if let OpV::Insert(c, b) = o {
                            lemma_split(w@, pos as int, seq![2u64] + enc_str(c), enc_attrs(b));
                            lemma_split(w@, pos as int, seq![2u64], enc_str(c));
                        }
                    }
                }
                return None;
            },
        };
        let (a, end) = match read_attrs(w, mid) {
            Some(x) => x,
            None => {
                proof {
                    assert forall|o: OpV|
                        #![trigger enc_op(o)]
                        op_fits(o) && encoded_at(w@, pos as int, enc_op(o)) implies false by {
                        if let OpV::Insert(c, b) = o {
                            lemma_split(w@, pos as int, seq![2u64] + enc_str(c), enc_attrs(b));
                            lemma_split(w@, pos as int, seq![2u64], enc_str(c));
                        }
                    }
                }
                return None;
            },
        };
        proof {
            assert forall|o: OpV|
                #![trigger enc_op(o)]
                op_fits(o) && encoded_at(w@, pos as int, enc_op(o)) implies Operation::Insert(t, a)@
                    == o && end == pos + enc_op(o).len() by {
                if let OpV::Insert(c, b) = o {
                    lemma_split(w@, pos as int, seq![2u64] + enc_str(c), enc_attrs(b));
                    lemma_split(w@, pos as int, seq![2u64], enc_str(c));
                }
            }
        }
        proof {
            assert(w@.subrange(pos as int, pos + 1) =~= seq![tag]);
            lemma_join(w@, pos as int, seq![tag], enc_str(t@));
            lemma_join(w@, pos as int, seq![tag] + enc_str(t@), enc_attrs(a@));
            assert(enc_op(Operation::Insert(t, a)@) == seq![tag] + enc_str(t@) + enc_attrs(a@));
        }
        Some((Operation::Insert(t, a), end))
    } else {
        proof {
            assert forall|o: OpV|
                #![trigger enc_op(o)]
                op_fits(o) && encoded_at(w@, pos as int, enc_op(o)) implies false by {
                lemma_at(w@, pos as int, enc_op(o), 0);
            }
        }
        None
    }
}

/// The length word of a delete or a retain.
pub open spec fn op_len_word(o: OpV) -> u64 {
    match o {
        OpV::Delete(n) => n as u64,
        OpV::Retain(n, _) => n as u64,
        OpV::Insert(t, _) => t.len() as u64,
    }
}

proof fn lemma_ops_item(w: Seq<u64>, pos: int, d: Seq<OpV>, i: int)
    requires
        encoded_at(w, pos, enc_delta(d)),
        0 <= i < d.len(),
    ensures
        encoded_at(w, pos + 1 + enc_list(d.subrange(0, i), op_f()).len(), enc_op(d[i])),
{
    lemma_enc_list_at(d, i, op_f());
    let head = seq![d.len() as u64] + enc_list(d.subrange(0, i), op_f());
    let tail = enc_op(d[i]) + enc_list(d.subrange(i + 1, d.len() as int), op_f());
    assert(enc_delta(d) =~= head + tail);
    lemma_split(w, pos, head, tail);
    lemma_split(w, pos + head.len(), enc_op(d[i]), enc_list(d.subrange(i + 1, d.len() as int), op_f()));
}

/// Reads a delta written by `write_delta` at `pos`.
pub fn read_delta(w: &Vec<u64>, pos: usize) -> (r: Option<(Delta, usize)>)
    ensures
        forall|d: Seq<OpV>|
            #![trigger enc_delta(d)]
            ops_fit(d) && encoded_at(w@, pos as int, enc_delta(d)) ==> (r matches Some((x, p)) && x@
                == d && p == pos + enc_delta(d).len()),
        r is Some ==> encoded_at(w@, pos as int, enc_delta(r->Some_0.0@)),
        r is Some ==> r->Some_0.1 == pos + enc_delta(r->Some_0.0@).len(),
{
    if pos >= w.len() {
        return None;
    }
    let m = w[pos];
    proof {
        assert forall|d: Seq<OpV>|
            #![trigger enc_delta(d)]
            ops_fit(d) && encoded_at(w@, pos as int, enc_delta(d)) implies m == d.len() by {
            lemma_at(w@, pos as int, enc_delta(d), 0);
        }
    }
    if m >= usize::MAX as u64 {
        return None;
    }
    let n = m as usize;
    let mut ops: Vec<Operation> = Vec::new();
    let mut i: usize = 0;
    let mut p: usize = pos + 1;
    proof {
        assert forall|d: Seq<OpV>|
            #![trigger enc_delta(d)]
            ops_fit(d) && encoded_at(w@, pos as int, enc_delta(d)) implies ops@.map_values(
                |o: Operation| o@,
            ) == d.subrange(0, 0) && p == pos + 1 + enc_list(d.subrange(0, 0), op_f()).len() by {
            assert(d.subrange(0, 0) =~= Seq::<OpV>::empty());
            assert(ops@.map_values(|o: Operation| o@) =~= Seq::<OpV>::empty());
        }
        assert(ops@.map_values(|o: Operation| o@) =~= Seq::<OpV>::empty());
        assert(w@.subrange(pos as int, pos + 1) =~= seq![m]);
        assert(seq![m] + enc_list(ops@.map_values(|o: Operation| o@), op_f()) =~= seq![m]);
    }
    while i < n
        invariant
            i <= n,
            w@.len() <= usize::MAX,
            n == m,
            ops@.len() == i,
            encoded_at(w@, pos as int, seq![m] + enc_list(ops@.map_values(|o: Operation| o@), op_f())),
            p == pos + 1 + enc_list(ops@.map_values(|o: Operation| o@), op_f()).len(),
            forall|d: Seq<OpV>|
                #![trigger enc_delta(d)]
                ops_fit(d) && encoded_at(w@, pos as int, enc_delta(d)) ==> d.len() == n
                    && ops@.map_values(|o: Operation| o@) == d.subrange(0, i as int) && p == pos + 1
                    + enc_list(d.subrange(0, i as int), op_f()).len(),
        decreases n - i,
    {
        let (op, end) = match read_op(w, p) {
            Some(x) => x,
            None => {
                proof {
                    assert forall|d: Seq<OpV>|
                        #![trigger enc_delta(d)]
                        ops_fit(d) && encoded_at(w@, pos as int, enc_delta(d)) implies false by {
                        lemma_ops_item(w@, pos as int, d, i as int);
                    }
                }
                return None;
            },
        };
        let ghost o0 = ops@.map_values(|o: Operation| o@);
        let ghost ov = op@;
        ops.push(op);
        proof {
            assert((seq![m] + enc_list(o0, op_f())).len() == 1 + enc_list(o0, op_f()).len());
            lemma_join(w@, pos as int, seq![m] + enc_list(o0, op_f()), enc_op(ov));
            assert(ops@.map_values(|o: Operation| o@) =~= o0.push(ov));
            assert(o0.push(ov).drop_last() =~= o0);
            assert(enc_list(o0.push(ov), op_f()) == enc_list(o0, op_f()) + enc_op(ov));
            assert(seq![m] + enc_list(o0, op_f()) + enc_op(ov) =~= seq![m] + enc_list(o0.push(ov), op_f()));
            assert forall|d: Seq<OpV>|
                #![trigger enc_delta(d)]
                ops_fit(d) && encoded_at(w@, pos as int, enc_delta(d)) implies d.len() == n
                    && ops@.map_values(|o: Operation| o@) == d.subrange(0, i + 1) && end == pos + 1
                    + enc_list(d.subrange(0, i + 1), op_f()).len() by {
                lemma_ops_item(w@, pos as int, d, i as int);
                lemma_enc_list_at(d, i as int, op_f());
                assert(ops@.map_values(|o: Operation| o@) =~= o0.push(d[i as int]));
                assert(ops@.map_values(|o: Operation| o@) =~= d.subrange(0, i + 1));
            }
        }
        i = i + 1;
        p = end;
    }
    let r = Delta { ops };
    proof {
        assert forall|d: Seq<OpV>|
            #![trigger enc_delta(d)]
            ops_fit(d) && encoded_at(w@, pos as int, enc_delta(d)) implies r@ == d && p == pos
                + enc_delta(d).len() by {
            assert(d.subrange(0, n as int) =~= d);
        }
        assert(r@.len() as u64 == m);
        assert(enc_delta(r@) =~= seq![m] + enc_list(ops@.map_values(|o: Operation| o@), op_f()));
    }
    Some((r, p))
}

/// Decodes a delta from its word encoding. It gives exactly the well-formed deltas:
/// `Some` only for a well-formed delta whose encoding is `w`, and every well-formed delta
/// whose lengths fit comes back equal from its own encoding.
pub fn decode_delta(w: &Vec<u64>) -> (r: Option<Delta>)
    ensures
        forall|d: Seq<OpV>|
            #![trigger enc_delta(d)]
            ops_fit(d) && delta_wf(d) && w@ == enc_delta(d) ==> (r matches Some(x) && x@ == d),
        r is Some ==> r->Some_0.wf() && w@ == enc_delta(r->Some_0@),
{
    proof {
        assert forall|d: Seq<OpV>|
            #![trigger enc_delta(d)]
            ops_fit(d) && w@ == enc_delta(d) implies encoded_at(w@, 0, enc_delta(d)) by {
            assert(w@.subrange(0, w@.len() as int) =~= w@);
        }
    }
    match read_delta(w, 0) {
        Some((d, p)) => {
            if p == w.len() && d.is_well_formed() {
                assert(w@.subrange(0, w@.len() as int) =~= w@);
                Some(d)
            } else {
                None
            }
        },
        None => None,
    }
}

/// Decodes a revision from its word encoding: `Some` only for a revision with a
/// well-formed delta whose encoding is `w`, and every such revision whose lengths fit
/// comes back equal from its own encoding.
pub fn decode_revision(w: &Vec<u64>) -> (r: Option<Revision>)
    ensures
        forall|base: u64, md5: Seq<char>, d: Seq<OpV>|
            #![trigger enc_revision(base, md5, d)]
            str_fits(md5) && ops_fit(d) && delta_wf(d) && w@ == enc_revision(base, md5, d) ==> (r matches Some(x)
                && x.base_revision == base && x.md5@ == md5 && x.delta@ == d),
        r is Some ==> r->Some_0.delta.wf() && w@ == enc_revision(
            r->Some_0.base_revision,
            r->Some_0.md5@,
            r->Some_0.delta@,
        ),
{
    if w.len() == 0 {
        return None;
    }
    let base = w[0];
    proof {
        assert forall|b: u64, md5: Seq<char>, d: Seq<OpV>|
            #![trigger enc_revision(b, md5, d)]
            str_fits(md5) && ops_fit(d) && w@ == enc_revision(b, md5, d) implies b == base
                && encoded_at(w@, 1, enc_str(md5)) && encoded_at(w@, 1 + enc_str(md5).len() as int, enc_delta(d)) by {
            assert(w@.subrange(0, w@.len() as int) =~= w@);
            assert(encoded_at(w@, 0, enc_revision(b, md5, d)));
            lemma_split(w@, 0, seq![b] + enc_str(md5), enc_delta(d));
            lemma_split(w@, 0, seq![b], enc_str(md5));
        }
    }
    let (m, mid) = match read_str(w, 1) {
        Some(x) => x,
        None => {
            return None;
        },
    };
    let (d, end) = match read_delta(w, mid) {
        Some(x) => x,
        None => {
            return None;
        },
    };
    if end != w.len() || !d.is_well_formed() {
        return None;
    }
    let md5 = string_from_chars(&m);
    proof {
        assert(w@.subrange(0, 1) =~= seq![base]);
        lemma_join(w@, 0, seq![base], enc_str(m@));
        lemma_join(w@, 0, seq![base] + enc_str(m@), enc_delta(d@));
        assert(w@.subrange(0, w@.len() as int) =~= w@);
    }
    Some(Revision { base_revision: base, delta: d, md5 })
}

} // verus!
