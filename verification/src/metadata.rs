//! Structured metadata of a document: string keys, tagged values.

use vstd::prelude::*;

verus! {

/// A value that can stand alone or inside an array.
#[derive(Debug)]
pub enum MetadataScalar {
    String(String),
    Integer(i64),
    /// The bits of a double-precision float.
    Float(u64),
    Boolean(bool),
    Null,
}

/// A metadata value: a scalar, or an array of scalars.
#[derive(Debug)]
pub enum MetadataValue {
    String(String),
    Integer(i64),
    /// The bits of a double-precision float.
    Float(u64),
    Boolean(bool),
    Null,
    Array(Vec<MetadataScalar>),
}

/// What a `MetadataScalar` holds.
pub enum ScalarView {
    Text(Seq<char>),
    Integer(i64),
    Float(u64),
    Boolean(bool),
    Null,
}

/// What a `MetadataValue` holds.
pub enum ValueView {
    Text(Seq<char>),
    Integer(i64),
    Float(u64),
    Boolean(bool),
    Null,
    Array(Seq<ScalarView>),
}

impl View for MetadataScalar {
    type V = ScalarView;

    open spec fn view(&self) -> ScalarView {
        match self {
            MetadataScalar::String(s) => ScalarView::Text(s@),
            MetadataScalar::Integer(i) => ScalarView::Integer(*i),
            MetadataScalar::Float(f) => ScalarView::Float(*f),
            MetadataScalar::Boolean(b) => ScalarView::Boolean(*b),
            MetadataScalar::Null => ScalarView::Null,
        }
    }
}

/// The views of a sequence of scalars.
pub open spec fn scalar_views(s: Seq<MetadataScalar>) -> Seq<ScalarView> {
    Seq::new(s.len(), |i: int| s[i]@)
}

impl View for MetadataValue {
    type V = ValueView;

    open spec fn view(&self) -> ValueView {
        match self {
            MetadataValue::String(s) => ValueView::Text(s@),
            MetadataValue::Integer(i) => ValueView::Integer(*i),
            MetadataValue::Float(f) => ValueView::Float(*f),
            MetadataValue::Boolean(b) => ValueView::Boolean(*b),
            MetadataValue::Null => ValueView::Null,
            MetadataValue::Array(a) => ValueView::Array(scalar_views(a@)),
        }
    }
}

impl MetadataScalar {
    /// A copy of this scalar.
    pub fn duplicate(&self) -> (r: Self)
        ensures
            r@ == self@,
    {
        match self {
            MetadataScalar::String(s) => MetadataScalar::String(s.clone()),
            MetadataScalar::Integer(i) => MetadataScalar::Integer(*i),
            MetadataScalar::Float(f) => MetadataScalar::Float(*f),
            MetadataScalar::Boolean(b) => MetadataScalar::Boolean(*b),
            MetadataScalar::Null => MetadataScalar::Null,
        }
    }
}

impl MetadataValue {
    /// A copy of this value.
    pub fn duplicate(&self) -> (r: Self)
        ensures
            r@ == self@,
    {
        match self {
            MetadataValue::String(s) => MetadataValue::String(s.clone()),
            MetadataValue::Integer(i) => MetadataValue::Integer(*i),
            MetadataValue::Float(f) => MetadataValue::Float(*f),
            MetadataValue::Boolean(b) => MetadataValue::Boolean(*b),
            MetadataValue::Null => MetadataValue::Null,
            MetadataValue::Array(a) => {
                let mut out: Vec<MetadataScalar> = Vec::new();
                let mut i: usize = 0;
                while i < a.len()
                    invariant
                        i <= a.len(),
                        out.len() == i,
                        forall|j: int| 0 <= j < i ==> out[j]@ == a[j]@,
                    decreases a.len() - i,
                {
                    out.push(a[i].duplicate());
                    i += 1;
                }
                assert(scalar_views(out@) =~= scalar_views(a@));
                MetadataValue::Array(out)
            },
        }
    }
}

/// One key with its value.
#[derive(Debug)]
pub struct MetadataEntry {
    pub key: String,
    pub value: MetadataValue,
}

/// What a `MetadataEntry` holds.
pub struct EntryView {
    pub key: Seq<char>,
    pub value: ValueView,
}

impl View for MetadataEntry {
    type V = EntryView;

    open spec fn view(&self) -> EntryView {
        EntryView { key: self.key@, value: self.value@ }
    }
}

/// The views of a sequence of entries.
pub open spec fn entry_views(s: Seq<MetadataEntry>) -> Seq<EntryView> {
    Seq::new(s.len(), |i: int| s[i]@)
}

/// The value that `entries` gives to `key`: that of the first entry with this
/// key, if there is one.
pub open spec fn lookup(entries: Seq<EntryView>, key: Seq<char>) -> Option<ValueView>
    decreases entries.len(),
{
    if entries.len() == 0 {
        None
    } else if entries[0].key == key {
        Some(entries[0].value)
    } else {
        lookup(entries.drop_first(), key)
    }
}

/// Whether no key occurs twice.
pub open spec fn keys_distinct(entries: Seq<EntryView>) -> bool {
    forall|i: int, j: int|
        0 <= i < j < entries.len() ==> (#[trigger] entries[i]).key != (#[trigger] entries[j]).key
}

/// The metadata of one document: a mapping from keys to values, held as
/// entries in the order of insertion, no key twice. The order of the
/// entries is the order in which they stand in the document's binary form,
/// so that one document has one form.
#[derive(Debug)]
pub struct Metadata {
    pub entries: Vec<MetadataEntry>,
}

impl View for Metadata {
    type V = Seq<EntryView>;

    open spec fn view(&self) -> Seq<EntryView> {
        entry_views(self.entries@)
    }
}

/// `lookup` finds the value at the first index that holds the key.
pub proof fn lemma_lookup_first(entries: Seq<EntryView>, key: Seq<char>, at: int)
    requires
        0 <= at < entries.len(),
        entries[at].key == key,
        forall|j: int| 0 <= j < at ==> entries[j].key != key,
    ensures
        lookup(entries, key) == Some(entries[at].value),
    decreases entries.len(),
{
    if at > 0 {
        let rest = entries.drop_first();
        assert forall|j: int| 0 <= j < at - 1 implies rest[j].key != key by {
            assert(rest[j] == entries[j + 1]);
        }
        lemma_lookup_first(rest, key, at - 1);
    }
}

/// `lookup` finds nothing where no entry holds the key.
pub proof fn lemma_lookup_absent(entries: Seq<EntryView>, key: Seq<char>)
    requires
        forall|j: int| 0 <= j < entries.len() ==> entries[j].key != key,
    ensures
        lookup(entries, key) is None,
    decreases entries.len(),
{
    if entries.len() > 0 {
        let rest = entries.drop_first();
        assert forall|j: int| 0 <= j < rest.len() implies rest[j].key != key by {
            assert(rest[j] == entries[j + 1]);
        }
        lemma_lookup_absent(rest, key);
    }
}

impl Metadata {
    /// Metadata without entries.
    pub fn new() -> (r: Self)
        ensures
            r@ == Seq::<EntryView>::empty(),
    {
        let r = Metadata { entries: Vec::new() };
        assert(r@ =~= Seq::<EntryView>::empty());
        r
    }

    pub fn len(&self) -> (r: usize)
        ensures
            r == self@.len(),
    {
        self.entries.len()
    }

    pub fn is_empty(&self) -> (r: bool)
        ensures
            r == (self@.len() == 0),
    {
        self.entries.len() == 0
    }

    /// Index of the first entry with this key.
    fn position(&self, key: &String) -> (r: Option<usize>)
        ensures
            match r {
                Some(at) => at < self@.len() && self@[at as int].key == key@ && forall|j: int|
                    0 <= j < at ==> self@[j].key != key@,
                None => forall|j: int| 0 <= j < self@.len() ==> self@[j].key != key@,
            },
    {
        let mut i: usize = 0;
        while i < self.entries.len()
            invariant
                i <= self.entries.len(),
                forall|j: int| 0 <= j < i ==> self@[j].key != key@,
            decreases self.entries.len() - i,
        {
            if self.entries[i].key == *key {
                return Some(i);
            }
            i += 1;
        }
        None
    }

    /// The value of `key`.
    pub fn get(&self, key: &String) -> (r: Option<&MetadataValue>)
        ensures
            match r {
                Some(v) => lookup(self@, key@) == Some(v@),
                None => lookup(self@, key@) is None,
            },
    {
        match self.position(key) {
            Some(at) => {
                proof {
                    lemma_lookup_first(self@, key@, at as int);
                }
                Some(&self.entries[at].value)
            },
            None => {
                proof {
                    lemma_lookup_absent(self@, key@);
                }
                None
            },
        }
    }

    /// Give `key` the value `value`: in place where the key is present, as a
    /// new last entry where it is not.
    pub fn insert(&mut self, key: String, value: MetadataValue)
        ensures
            lookup(final(self)@, key@) == Some(value@),
            forall|other: Seq<char>|
                other != key@ ==> lookup(final(self)@, other) == lookup(old(self)@, other),
            keys_distinct(old(self)@) ==> keys_distinct(final(self)@),
            match lookup(old(self)@, key@) {
                Some(_) => final(self)@.len() == old(self)@.len(),
                None => final(self)@ == old(self)@.push(EntryView { key: key@, value: value@ }),
            },
    {
        let ghost before = self@;
        let ghost k = key@;
        let ghost v = value@;
        match self.position(&key) {
            Some(at) => {
                proof {
                    lemma_lookup_first(before, k, at as int);
                }
                self.entries.set(at, MetadataEntry { key, value });
                proof {
                    let after = self@;
                    assert(after =~= before.update(at as int, EntryView { key: k, value: v }));
                    lemma_lookup_first(after, k, at as int);
                    assert forall|other: Seq<char>| other != k implies lookup(after, other)
                        == lookup(before, other) by {
                        lemma_lookup_update_other(before, at as int, EntryView { key: k, value: v }, other);
                    }
                }
            },
            None => {
                proof {
                    lemma_lookup_absent(before, k);
                }
                self.entries.push(MetadataEntry { key, value });
                proof {
                    let after = self@;
                    assert(after =~= before.push(EntryView { key: k, value: v }));
                    lemma_lookup_first(after, k, before.len() as int);
                    assert forall|other: Seq<char>| other != k implies lookup(after, other)
                        == lookup(before, other) by {
                        lemma_lookup_push_other(before, EntryView { key: k, value: v }, other);
                    }
                }
            },
        }
    }

    /// A copy of this metadata.
    pub fn duplicate(&self) -> (r: Self)
        ensures
            r@ == self@,
    {
        let mut out: Vec<MetadataEntry> = Vec::new();
        let mut i: usize = 0;
        while i < self.entries.len()
            invariant
                i <= self.entries.len(),
                out.len() == i,
                forall|j: int| 0 <= j < i ==> out[j]@ == self.entries[j]@,
            decreases self.entries.len() - i,
        {
            let e = &self.entries[i];
            out.push(MetadataEntry { key: e.key.clone(), value: e.value.duplicate() });
            i += 1;
        }
        let r = Metadata { entries: out };
        assert(r@ =~= self@);
        r
    }
}

/// Replacing an entry by one with the same key changes no other key's value.
pub proof fn lemma_lookup_update_other(
    entries: Seq<EntryView>,
    at: int,
    e: EntryView,
    other: Seq<char>,
)
    requires
        0 <= at < entries.len(),
        entries[at].key == e.key,
        other != e.key,
    ensures
        lookup(entries.update(at, e), other) == lookup(entries, other),
    decreases entries.len(),
{
    let after = entries.update(at, e);
    if at == 0 {
        assert(after.drop_first() =~= entries.drop_first());
    } else {
        assert(after.drop_first() =~= entries.drop_first().update(at - 1, e));
        if entries[0].key != other {
            lemma_lookup_update_other(entries.drop_first(), at - 1, e, other);
        }
    }
}

/// Appending an entry changes no other key's value.
pub proof fn lemma_lookup_push_other(entries: Seq<EntryView>, e: EntryView, other: Seq<char>)
    requires
        other != e.key,
    ensures
        lookup(entries.push(e), other) == lookup(entries, other),
    decreases entries.len(),
{
    let after = entries.push(e);
    if entries.len() == 0 {
        assert(after[0] == e);
        assert(after.drop_first() =~= Seq::<EntryView>::empty());
        assert(lookup(after.drop_first(), other) is None);
    } else {
        assert(after[0] == entries[0]);
        assert(after.drop_first() =~= entries.drop_first().push(e));
        if entries[0].key != other {
            lemma_lookup_push_other(entries.drop_first(), e, other);
        }
    }
}

} // verus!
