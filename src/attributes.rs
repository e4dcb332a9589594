use vstd::prelude::*;

verus! {

/// A key together with its value; a value of `None` is the explicit "unset" marker,
/// which differs from the key being absent.
pub type AttrV = (Seq<char>, Option<Seq<char>>);

/// One formatting entry.
#[derive(Debug, PartialEq, Eq)]
pub struct Attribute {
    pub key: String,
    pub value: Option<String>,
}

/// Formatting attached to a run of content: an ordered mapping from key to value.
#[derive(Debug, PartialEq, Eq)]
pub struct Attributes {
    pub entries: Vec<Attribute>,
}

pub open spec fn opt_view(v: Option<String>) -> Option<Seq<char>> {
    match v {
        Some(s) => Some(s@),
        None => None,
    }
}

impl View for Attribute {
    type V = AttrV;

    open spec fn view(&self) -> AttrV {
        (self.key@, opt_view(self.value))
    }
}

impl View for Attributes {
    type V = Seq<AttrV>;

    open spec fn view(&self) -> Seq<AttrV> {
        attrs_view(self.entries@)
    }
}

pub open spec fn attrs_view(v: Seq<Attribute>) -> Seq<AttrV> {
    v.map_values(|e: Attribute| e@)
}

/// `s` with the entry `e` set: the first entry with `e`'s key is replaced, or `e` is
/// appended when the key is absent.
pub open spec fn set_entry(s: Seq<AttrV>, e: AttrV) -> Seq<AttrV>
    decreases s.len(),
{
    if s.len() == 0 {
        seq![e]
    } else if s[0].0 == e.0 {
        seq![e] + s.drop_first()
    } else {
        seq![s[0]] + set_entry(s.drop_first(), e)
    }
}

/// Right-biased merge: every entry of `b`, in order, is set on `a`.
pub open spec fn merge_attrs(a: Seq<AttrV>, b: Seq<AttrV>) -> Seq<AttrV>
    decreases b.len(),
{
    if b.len() == 0 {
        a
    } else {
        set_entry(merge_attrs(a, b.drop_last()), b.last())
    }
}

pub open spec fn has_key(s: Seq<AttrV>, k: Seq<char>) -> bool {
    exists|i: int| 0 <= i < s.len() && (#[trigger] s[i]).0 == k
}

/// The entries of `x` whose key `y` does not hold.
pub open spec fn without_keys(x: Seq<AttrV>, y: Seq<AttrV>) -> Seq<AttrV>
    decreases x.len(),
{
    if x.len() == 0 {
        x
    } else if has_key(y, x.last().0) {
        without_keys(x.drop_last(), y)
    } else {
        without_keys(x.drop_last(), y).push(x.last())
    }
}

/// Attributes of a retain transformed against a concurrent retain: with priority they
/// survive whole, without it the keys that the other side sets are given up.
pub open spec fn transform_attrs(x: Seq<AttrV>, y: Seq<AttrV>, priority: bool) -> Seq<AttrV> {
    if priority {
        x
    } else {
        without_keys(x, y)
    }
}

proof fn lemma_set_entry_found(s: Seq<AttrV>, e: AttrV, i: int)
    requires
        0 <= i < s.len(),
        s[i].0 == e.0,
        forall|j: int| 0 <= j < i ==> (#[trigger] s[j]).0 != e.0,
    ensures
        set_entry(s, e) == s.update(i, e),
    decreases s.len(),
{
    if i == 0 {
        assert(set_entry(s, e) =~= s.update(i, e));
    } else {
        let t = s.drop_first();
        assert forall|j: int| 0 <= j < i - 1 implies (#[trigger] t[j]).0 != e.0 by {
            assert(t[j] == s[j + 1]);
        }
        lemma_set_entry_found(t, e, i - 1);
        assert(set_entry(s, e) =~= s.update(i, e));
    }
}

proof fn lemma_set_entry_absent(s: Seq<AttrV>, e: AttrV)
    requires
        forall|j: int| 0 <= j < s.len() ==> (#[trigger] s[j]).0 != e.0,
    ensures
        set_entry(s, e) == s.push(e),
    decreases s.len(),
{
    if s.len() == 0 {
        assert(set_entry(s, e) =~= s.push(e));
    } else {
        let t = s.drop_first();
        assert forall|j: int| 0 <= j < t.len() implies (#[trigger] t[j]).0 != e.0 by {
            assert(t[j] == s[j + 1]);
        }
        lemma_set_entry_absent(t, e);
        assert(set_entry(s, e) =~= s.push(e));
    }
}

/// Copies an optional value.
pub fn copy_value(v: &Option<String>) -> (r: Option<String>)
    ensures
        opt_view(r) == opt_view(*v),
{
    match v {
        Some(s) => Some(s.clone()),
        None => None,
    }
}

/// Copies one entry.
pub fn copy_attribute(a: &Attribute) -> (r: Attribute)
    ensures
        r@ == a@,
{
    Attribute { key: a.key.clone(), value: copy_value(&a.value) }
}

/// Whether two optional values are equal.
pub fn values_equal(a: &Option<String>, b: &Option<String>) -> (r: bool)
    ensures
        r == (opt_view(*a) == opt_view(*b)),
{
    match a {
        Some(x) => match b {
            Some(y) => {
                let r = x.eq(y);
                r
            },
            None => false,
        },
        None => b.is_none(),
    }
}

impl Attributes {
    /// The empty set: no formatting.
    pub fn new() -> (r: Attributes)
        ensures
            r@ == Seq::<AttrV>::empty(),
    {
        let r = Attributes { entries: Vec::new() };
        assert(r@ =~= Seq::<AttrV>::empty());
        r
    }

    /// Whether no formatting is held.
    pub fn is_plain(&self) -> (r: bool)
        ensures
            r == (self@.len() == 0),
    {
        self.entries.len() == 0
    }

    /// A copy of the set.
    pub fn copy(&self) -> (r: Attributes)
        ensures
            r@ == self@,
    {
        let mut entries: Vec<Attribute> = Vec::new();
        let mut i: usize = 0;
        while i < self.entries.len()
            invariant
                i <= self.entries.len(),
                attrs_view(entries@) == self@.subrange(0, i as int),
            decreases self.entries.len() - i,
        {
            let ghost before = entries@;
            entries.push(copy_attribute(&self.entries[i]));
            assert(attrs_view(entries@) =~= attrs_view(before).push(self@[i as int]));
            i = i + 1;
            assert(attrs_view(entries@) =~= self@.subrange(0, i as int));
        }
        let r = Attributes { entries };
        assert(r@ =~= self@);
        r
    }

    /// Whether `self` and `other` hold the same entries in the same order.
    pub fn equals(&self, other: &Attributes) -> (r: bool)
        ensures
            r == (self@ == other@),
    {
        if self.entries.len() != other.entries.len() {
            assert(self@.len() != other@.len());
            return false;
        }
        let mut i: usize = 0;
        while i < self.entries.len()
            invariant
                i <= self.entries.len() == other.entries.len(),
                forall|j: int| 0 <= j < i ==> self@[j] == other@[j],
            decreases self.entries.len() - i,
        {
            let a = &self.entries[i];
            let b = &other.entries[i];
            if !(a.key == b.key) || !values_equal(&a.value, &b.value) {
                assert(self@[i as int] != other@[i as int]);
                return false;
            }
            i = i + 1;
        }
        assert(self@ =~= other@);
        true
    }

    /// Whether some entry has key `k`.
    pub fn contains_key(&self, k: &String) -> (r: bool)
        ensures
            r == has_key(self@, k@),
    {
        let mut i: usize = 0;
        while i < self.entries.len()
            invariant
                i <= self.entries.len(),
                forall|j: int| 0 <= j < i ==> (#[trigger] self@[j]).0 != k@,
            decreases self.entries.len() - i,
        {
            if self.entries[i].key == *k {
                assert(self@[i as int].0 == k@);
                return true;
            }
            i = i + 1;
        }
        false
    }

    /// Sets one entry: the value of an existing key is replaced in place, a new key is
    /// appended.
    pub fn set(&mut self, e: Attribute)
        ensures
            final(self)@ == set_entry(old(self)@, e@),
    {
        let mut i: usize = 0;
        while i < self.entries.len()
            invariant
                i <= self.entries.len(),
                self@ == old(self)@,
                forall|j: int| 0 <= j < i ==> (#[trigger] self@[j]).0 != e@.0,
            decreases self.entries.len() - i,
        {
            if self.entries[i].key == e.key {
                proof {
                    lemma_set_entry_found(self@, e@, i as int);
                }
                self.entries.set(i, e);
                assert(self@ =~= old(self)@.update(i as int, e@));
                return;
            }
            i = i + 1;
        }
        proof {
            lemma_set_entry_absent(self@, e@);
        }
        self.entries.push(e);
        assert(self@ =~= old(self)@.push(e@));
    }

    /// Right-biased merge: the entries of `other` override those of `self`, and keys new
    /// to `self` follow its own in `other`'s order.
    pub fn merge(&self, other: &Attributes) -> (r: Attributes)
        ensures
            r@ == merge_attrs(self@, other@),
    {
        let mut r = self.copy();
        let mut i: usize = 0;
        while i < other.entries.len()
            invariant
                i <= other.entries.len(),
                r@ == merge_attrs(self@, other@.subrange(0, i as int)),
            decreases other.entries.len() - i,
        {
            r.set(copy_attribute(&other.entries[i]));
            proof {
                let s = other@.subrange(0, i as int + 1);
                assert(s.drop_last() =~= other@.subrange(0, i as int));
            }
            i = i + 1;
        }
        assert(other@.subrange(0, other@.len() as int) =~= other@);
        r
    }

    /// The attributes of a retain transformed against a concurrent retain's `other`.
    pub fn transform(&self, other: &Attributes, priority: bool) -> (r: Attributes)
        ensures
            r@ == transform_attrs(self@, other@, priority),
    {
        if priority {
            return self.copy();
        }
        let mut entries: Vec<Attribute> = Vec::new();
        let mut i: usize = 0;
        while i < self.entries.len()
            invariant
                i <= self.entries.len(),
                attrs_view(entries@) == without_keys(
                    self@.subrange(0, i as int),
                    other@,
                ),
            decreases self.entries.len() - i,
        {
            let s = Ghost(self@.subrange(0, i as int + 1));
            assert(s@.drop_last() =~= self@.subrange(0, i as int));
            if !other.contains_key(&self.entries[i].key) {
                let ghost before = entries@;
                entries.push(copy_attribute(&self.entries[i]));
                assert(attrs_view(entries@) =~= attrs_view(before).push(self@[i as int]));
                assert(attrs_view(entries@) =~= without_keys(s@, other@));
            }
            i = i + 1;
        }
        let r = Attributes { entries };
        assert(self@.subrange(0, self@.len() as int) =~= self@);
        r
    }
}

} // verus!
