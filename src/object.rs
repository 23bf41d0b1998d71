use vstd::prelude::*;

use crate::bytes::same_bytes;

verus! {

/// Why a parse failed. Every malformed input maps to exactly one of these.
#[derive(Debug, Clone, Copy, PartialEq, Eq, Structural)]
pub enum ParseError {
    /// A byte that the construct being parsed does not allow at that place.
    InvalidCharacter,
    /// A backslash escape in a string literal, or a `#` escape in a name, that is malformed.
    InvalidEscape,
    /// A stream's `Length` entry holds something other than a non-negative integer or a reference.
    WrongType,
    /// A stream's dictionary has no `Length` entry.
    MissingKey,
    /// A stream's `Length` is a reference that does not resolve to a non-negative integer.
    UnresolvableReference,
    /// A number, or an octal escape, does not fit its type.
    NumericOverflow,
    /// The first byte of a value starts no known kind of object.
    UnexpectedCharacter,
    /// Arrays, dictionaries and references are nested deeper than the limit.
    DepthExceeded,
}

/// The outcome of an executable parser: the value and the number of input bytes it
/// consumed, a failure, or a signal that the input ends before a decision can be made.
#[derive(Debug, PartialEq)]
pub enum ParseResult<T> {
    Done(usize, T),
    Error(ParseError),
    Incomplete,
}

impl<T> ParseResult<T> {
    /// Whether a success consumed at least one and at most `len` bytes.
    pub open spec fn within(&self, len: nat) -> bool {
        match self {
            ParseResult::Done(n, _) => 0 < *n <= len,
            _ => true,
        }
    }
}

/// The mathematical counterpart of `ParseResult`.
pub enum Outcome<V> {
    Done(nat, V),
    Error(ParseError),
    Incomplete,
}

impl<T: View> View for ParseResult<T> {
    type V = Outcome<T::V>;

    open spec fn view(&self) -> Outcome<T::V> {
        match self {
            ParseResult::Done(n, v) => Outcome::Done(*n as nat, v@),
            ParseResult::Error(e) => Outcome::Error(*e),
            ParseResult::Incomplete => Outcome::Incomplete,
        }
    }
}

/// Adds `k` to the number of consumed bytes of a successful outcome.
pub open spec fn advance<V>(k: nat, o: Outcome<V>) -> Outcome<V> {
    match o {
        Outcome::Done(n, v) => Outcome::Done(n + k, v),
        Outcome::Error(e) => Outcome::Error(e),
        Outcome::Incomplete => Outcome::Incomplete,
    }
}

/// The first alternative that succeeds; the second one's outcome when the first does not.
pub open spec fn first_done<V>(a: Outcome<V>, b: Outcome<V>) -> Outcome<V> {
    if a is Done {
        a
    } else {
        b
    }
}

/// A real number as it is written: its sign and its ASCII digits before and after the point.
/// Keeping the digits loses nothing; a caller converts them to the binary precision it needs.
#[derive(Debug, PartialEq)]
pub struct Decimal {
    pub negative: bool,
    pub integral: Vec<u8>,
    pub fraction: Vec<u8>,
}

/// An object of the document syntax.
#[derive(Debug, PartialEq)]
pub enum PdfObject {
    Null,
    Boolean(bool),
    Integer(i32),
    Real(Decimal),
    String(Vec<u8>),
    NameObject(Vec<u8>),
    Array(Vec<PdfObject>),
    Dictionary(Dictionary),
    Stream(Dictionary, Vec<u8>),
    Indirect(i32, i32, Box<PdfObject>),
    Reference(i32, i32),
}

/// A mapping from names to objects: keys are unique and no value is `Null`.
/// Entries are kept in the order in which their keys first arrived.
#[derive(Debug, PartialEq)]
pub struct Dictionary {
    entries: Vec<(Vec<u8>, PdfObject)>,
}

/// The mathematical model of an object.
pub enum ObjectView {
    Null,
    Boolean(bool),
    Integer(i32),
    Real(bool, Seq<u8>, Seq<u8>),
    String(Seq<u8>),
    NameObject(Seq<u8>),
    Array(Seq<ObjectView>),
    Dictionary(Map<Seq<u8>, ObjectView>),
    Stream(Map<Seq<u8>, ObjectView>, Seq<u8>),
    Indirect(i32, i32, Box<ObjectView>),
    Reference(i32, i32),
}

pub open spec fn object_view(o: PdfObject) -> ObjectView
    decreases o, 0nat,
{
    match o {
        PdfObject::Null => ObjectView::Null,
        PdfObject::Boolean(b) => ObjectView::Boolean(b),
        PdfObject::Integer(i) => ObjectView::Integer(i),
        PdfObject::Real(d) => ObjectView::Real(d.negative, d.integral@, d.fraction@),
        PdfObject::String(s) => ObjectView::String(s@),
        PdfObject::NameObject(s) => ObjectView::NameObject(s@),
        PdfObject::Array(v) => ObjectView::Array(objects_view(v@)),
        PdfObject::Dictionary(d) => ObjectView::Dictionary(dictionary_view(d)),
        PdfObject::Stream(d, bytes) => ObjectView::Stream(dictionary_view(d), bytes@),
        PdfObject::Indirect(n, g, inner) => ObjectView::Indirect(n, g, Box::new(object_view(*inner))),
        PdfObject::Reference(n, g) => ObjectView::Reference(n, g),
    }
}

/// The models of a sequence of objects, element by element.
pub open spec fn objects_view(s: Seq<PdfObject>) -> Seq<ObjectView>
    decreases s, 0nat,
{
    if s.len() == 0 {
        Seq::empty()
    } else {
        objects_view(s.subrange(0, s.len() - 1)).push(object_view(s[s.len() - 1]))
    }
}

/// The mapping that a dictionary holds.
pub closed spec fn dictionary_view(d: Dictionary) -> Map<Seq<u8>, ObjectView>
    decreases d, 0nat,
{
    entries_view(d.entries@)
}

/// The mapping that a sequence of entries denotes; a later entry wins over an earlier one.
pub open spec fn entries_view(s: Seq<(Vec<u8>, PdfObject)>) -> Map<Seq<u8>, ObjectView>
    decreases s, 0nat,
{
    if s.len() == 0 {
        Map::empty()
    } else {
        entries_view(s.subrange(0, s.len() - 1)).insert(
            s[s.len() - 1].0@,
            object_view(s[s.len() - 1].1),
        )
    }
}

/// Whether the keys of a sequence of entries are pairwise distinct.
pub open spec fn keys_distinct(s: Seq<(Vec<u8>, PdfObject)>) -> bool {
    forall|i: int, j: int| 0 <= i < j < s.len() ==> s[i].0@ != s[j].0@
}

proof fn lemma_entries_view_key(s: Seq<(Vec<u8>, PdfObject)>, k: Seq<u8>)
    ensures
        entries_view(s).contains_key(k) <==> exists|i: int| 0 <= i < s.len() && s[i].0@ == k,
    decreases s.len(),
{
    if s.len() > 0 {
        let p = s.subrange(0, s.len() - 1);
        lemma_entries_view_key(p, k);
        if entries_view(s).contains_key(k) && s[s.len() - 1].0@ != k {
            let i = choose|i: int| 0 <= i < p.len() && p[i].0@ == k;
            assert(s[i].0@ == k);
        }
        if exists|i: int| 0 <= i < s.len() && s[i].0@ == k {
            let i = choose|i: int| 0 <= i < s.len() && s[i].0@ == k;
            if i < s.len() - 1 {
                assert(p[i].0@ == k);
            }
        }
    }
}

proof fn lemma_entries_view_value(s: Seq<(Vec<u8>, PdfObject)>, i: int)
    requires
        keys_distinct(s),
        0 <= i < s.len(),
    ensures
        entries_view(s).contains_key(s[i].0@),
        entries_view(s)[s[i].0@] == object_view(s[i].1),
    decreases s.len(),
{
    let p = s.subrange(0, s.len() - 1);
    if i < s.len() - 1 {
        assert(keys_distinct(p));
        assert(p[i] == s[i]);
        lemma_entries_view_value(p, i);
    }
}

proof fn lemma_entries_view_update(s: Seq<(Vec<u8>, PdfObject)>, i: int, e: (Vec<u8>, PdfObject))
    requires
        keys_distinct(s),
        0 <= i < s.len(),
        e.0@ == s[i].0@,
    ensures
        entries_view(s.update(i, e)) == entries_view(s).insert(e.0@, object_view(e.1)),
    decreases s.len(),
{
    let u = s.update(i, e);
    let p = s.subrange(0, s.len() - 1);
    let q = u.subrange(0, u.len() - 1);
    if i == s.len() - 1 {
        assert(q =~= p);
        assert(entries_view(u) =~= entries_view(s).insert(e.0@, object_view(e.1)));
    } else {
        assert(q =~= p.update(i, e));
        assert(keys_distinct(p));
        lemma_entries_view_update(p, i, e);
        assert(s[s.len() - 1].0@ != e.0@);
        assert(entries_view(u) =~= entries_view(s).insert(e.0@, object_view(e.1)));
    }
}

proof fn lemma_entries_view_len(s: Seq<(Vec<u8>, PdfObject)>)
    requires
        keys_distinct(s),
    ensures
        entries_view(s).dom().finite(),
        entries_view(s).len() == s.len(),
    decreases s.len(),
{
    if s.len() > 0 {
        let p = s.subrange(0, s.len() - 1);
        assert(keys_distinct(p));
        lemma_entries_view_len(p);
        lemma_entries_view_key(p, s[s.len() - 1].0@);
        if entries_view(p).contains_key(s[s.len() - 1].0@) {
            let i = choose|i: int| 0 <= i < p.len() && p[i].0@ == s[s.len() - 1].0@;
            assert(s[i].0@ == s[s.len() - 1].0@);
        }
    }
}

/// The index of the entry whose key is `key`, if there is one.
fn position_of(entries: &Vec<(Vec<u8>, PdfObject)>, key: &[u8]) -> (r: Option<usize>)
    ensures
        match r {
            Some(i) => i < entries@.len() && entries@[i as int].0@ == key@,
            None => forall|i: int| 0 <= i < entries@.len() ==> entries@[i].0@ != key@,
        },
{
    let mut i: usize = 0;
    while i < entries.len()
        invariant
            i <= entries@.len(),
            forall|j: int| 0 <= j < i ==> entries@[j].0@ != key@,
        decreases entries@.len() - i,
    {
        if same_bytes(entries[i].0.as_slice(), key) {
            return Some(i);
        }
        i = i + 1;
    }
    None
}

impl Dictionary {
    #[verifier::type_invariant]
    spec fn well_formed(self) -> bool {
        &&& keys_distinct(self.entries@)
        &&& forall|i: int| 0 <= i < self.entries@.len() ==> !(self.entries@[i].1 is Null)
    }

    /// An empty dictionary.
    pub fn new() -> (d: Dictionary)
        ensures
            d@ == Map::<Seq<u8>, ObjectView>::empty(),
    {
        let d = Dictionary { entries: Vec::new() };
        assert(d.entries@.len() == 0);
        d
    }

    /// The number of entries.
    pub fn len(&self) -> (n: usize)
        ensures
            n == self@.len(),
    {
        proof {
            use_type_invariant(self);
            lemma_entries_view_len(self.entries@);
        }
        self.entries.len()
    }

    /// The value under `key`, if there is one.
    pub fn get(&self, key: &[u8]) -> (r: Option<&PdfObject>)
        ensures
            match r {
                Some(v) => self@.contains_key(key@) && self@[key@] == v@,
                None => !self@.contains_key(key@),
            },
    {
        proof {
            use_type_invariant(self);
            lemma_entries_view_key(self.entries@, key@);
        }
        match position_of(&self.entries, key) {
            Some(i) => {
                proof {
                    lemma_entries_view_value(self.entries@, i as int);
                }
                Some(&self.entries[i].1)
            },
            None => None,
        }
    }

    /// Sets `key` to `value`, replacing an earlier value; a `Null` value is not stored, and
    /// leaves the dictionary as it was.
    pub fn insert(&mut self, key: Vec<u8>, value: PdfObject)
        ensures
            value is Null ==> final(self)@ == old(self)@,
            !(value is Null) ==> final(self)@ == old(self)@.insert(key@, value@),
    {
        if let PdfObject::Null = value {
            return;
        }
        let mut taken = Dictionary::new();
        core::mem::swap(self, &mut taken);
        proof {
            use_type_invariant(&taken);
            lemma_entries_view_key(taken.entries@, key@);
        }
        let mut entries = taken.entries;
        match position_of(&entries, key.as_slice()) {
            Some(i) => {
                proof {
                    lemma_entries_view_update(entries@, i as int, (key, value));
                }
                entries.set(i, (key, value));
            },
            None => {
                let ghost before = entries@;
                entries.push((key, value));
                assert(entries@.subrange(0, entries@.len() - 1) =~= before);
            },
        }
        *self = Dictionary { entries };
    }
}

impl View for PdfObject {
    type V = ObjectView;

    open spec fn view(&self) -> ObjectView {
        object_view(*self)
    }
}

impl View for Dictionary {
    type V = Map<Seq<u8>, ObjectView>;

    open spec fn view(&self) -> Map<Seq<u8>, ObjectView> {
        dictionary_view(*self)
    }
}

} // verus!
