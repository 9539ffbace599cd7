//! A JSON value tree and the decoder that produces it from raw bytes.
//!
//! The decoder is a recursive-descent parser over an immutable byte buffer.
//! It returns, for every successful parse, the decoded value together with
//! the byte offset just past the value and any trailing whitespace, so that
//! a caller can parse several values back-to-back from one buffer.

pub mod laws;
pub mod model;
pub mod parse;

use vstd::prelude::*;
use vstd::string::StrSliceExecFns;

pub use parse::check_inbounds;
pub use parse::parse_value;
pub use parse::parse_value_with_depth;
pub use parse::skip_whitespace;

verus! {

/// How a parse fails: a malformed token, a terminator missing before the
/// input ran out, or an invalid byte-level encoding inside a string literal.
#[derive(Clone, Copy, Debug, PartialEq, Eq, Structural)]
pub enum Error {
    Syntax,
    NotClosed,
    BadUtf8,
}

/// A floating-point literal, kept in its decoded decimal parts rather than
/// evaluated: the value it denotes is
/// `sign * (integer + 0.fraction) * 10^exponent`,
/// where `sign` is -1 when `negative` holds and 1 otherwise.
/// Evaluation to machine floating point is left to the caller.
#[derive(Debug, PartialEq, Eq)]
pub struct FloatLit {
    pub negative: bool,
    pub integer: i64,
    pub fraction: Vec<u8>,
    pub exponent: i32,
}

/// A numeric literal: an integer when the literal contains neither `.` nor
/// `e`/`E`, and a floating-point literal otherwise.
#[derive(Debug, PartialEq)]
pub enum IntOrFloat {
    Int(i64),
    Float(FloatLit),
}

/// A decoded JSON node.
#[derive(Debug, PartialEq)]
pub enum Value {
    Null,
    Boolean(bool),
    Number(IntOrFloat),
    String(String),
    Array(Vec<Value>),
    Object(Object),
}

/// An object's key/value mapping. Keys are unique: inserting an existing
/// key overwrites its value, so duplicate keys in the input are
/// last-write-wins. Entry order carries no meaning; the mathematical view
/// is a `Map`.
#[derive(Debug, PartialEq)]
pub struct Object {
    entries: Vec<(String, Value)>,
}

/// The mathematical form of a `FloatLit`.
pub struct FloatLitView {
    pub negative: bool,
    pub integer: i64,
    pub fraction: Seq<u8>,
    pub exponent: i32,
}

/// The mathematical form of an `IntOrFloat`.
pub enum NumberView {
    Int(i64),
    Float(FloatLitView),
}

/// The mathematical form of a `Value`: strings as character sequences,
/// arrays as sequences, objects as maps.
pub enum ValueView {
    Null,
    Boolean(bool),
    Number(NumberView),
    Str(Seq<char>),
    Array(Seq<ValueView>),
    Object(Map<Seq<char>, ValueView>),
}

impl View for FloatLit {
    type V = FloatLitView;

    open spec fn view(&self) -> FloatLitView {
        FloatLitView {
            negative: self.negative,
            integer: self.integer,
            fraction: self.fraction@,
            exponent: self.exponent,
        }
    }
}

impl View for IntOrFloat {
    type V = NumberView;

    open spec fn view(&self) -> NumberView {
        match self {
            IntOrFloat::Int(i) => NumberView::Int(*i),
            IntOrFloat::Float(f) => NumberView::Float(f@),
        }
    }
}

/// The views of the elements of an array, in order.
pub open spec fn views_of(items: Seq<Value>) -> Seq<ValueView>
    decreases items,
{
    if items.len() == 0 {
        Seq::empty()
    } else {
        views_of(items.drop_last()).push(items.last()@)
    }
}

/// `views_of` is the pointwise view of the element sequence.
pub proof fn lemma_views_of(items: Seq<Value>)
    ensures
        views_of(items).len() == items.len(),
        forall|i: int| 0 <= i < items.len() ==> views_of(items)[i] == items[i]@,
    decreases items.len(),
{
    if items.len() > 0 {
        let dl = items.drop_last();
        lemma_views_of(dl);
        assert(views_of(items) == views_of(dl).push(items.last()@));
        assert forall|i: int| 0 <= i < items.len() implies views_of(items)[i] == items[i]@ by {
            if i == items.len() - 1 {
                assert(views_of(items)[i] == items.last()@);
            } else {
                assert(views_of(items)[i] == views_of(dl)[i]);
                assert(dl[i] == items[i]);
            }
        }
    }
}

/// The map denoted by an entry list, built left to right so that a later
/// entry with the same key overwrites an earlier one.
pub open spec fn entries_map(entries: Seq<(String, Value)>) -> Map<Seq<char>, ValueView>
    decreases entries,
{
    if entries.len() == 0 {
        Map::empty()
    } else {
        entries_map(entries.drop_last()).insert(entries.last().0@, entries.last().1@)
    }
}

impl View for Value {
    type V = ValueView;

    open spec fn view(&self) -> ValueView
        decreases self,
    {
        match self {
            Value::Null => ValueView::Null,
            Value::Boolean(b) => ValueView::Boolean(*b),
            Value::Number(n) => ValueView::Number(n@),
            Value::String(s) => ValueView::Str(s@),
            Value::Array(items) => ValueView::Array(views_of(items@)),
            Value::Object(obj) => ValueView::Object(obj@),
        }
    }
}

impl View for Object {
    type V = Map<Seq<char>, ValueView>;

    closed spec fn view(&self) -> Map<Seq<char>, ValueView>
        decreases self,
    {
        entries_map(self.entries@)
    }
}

/// No two entries of the list share a key.
pub open spec fn entries_unique(es: Seq<(String, Value)>) -> bool {
    forall|i: int, j: int| 0 <= i < j < es.len() ==> es[i].0@ != es[j].0@
}

/// An entry's key is in the map and leads to the entry's value.
proof fn lemma_entries_map_get(es: Seq<(String, Value)>, i: int)
    requires
        entries_unique(es),
        0 <= i < es.len(),
    ensures
        entries_map(es).dom().contains(es[i].0@),
        entries_map(es)[es[i].0@] == es[i].1@,
    decreases es.len(),
{
    let dl = es.drop_last();
    assert(entries_map(es) == entries_map(dl).insert(es[es.len() - 1].0@, es[es.len() - 1].1@));
    if i < es.len() - 1 {
        assert(dl[i] == es[i]);
        lemma_entries_map_get(dl, i);
        assert(es[i].0@ != es[es.len() - 1].0@);
    }
}

/// A key held by no entry is not in the map.
proof fn lemma_entries_map_absent(es: Seq<(String, Value)>, k: Seq<char>)
    requires
        forall|i: int| 0 <= i < es.len() ==> es[i].0@ != k,
    ensures
        !entries_map(es).dom().contains(k),
    decreases es.len(),
{
    if es.len() > 0 {
        let dl = es.drop_last();
        assert(entries_map(es) == entries_map(dl).insert(
            es[es.len() - 1].0@,
            es[es.len() - 1].1@,
        ));
        assert(es[es.len() - 1].0@ != k);
        assert forall|i: int| 0 <= i < dl.len() implies dl[i].0@ != k by {
            assert(dl[i] == es[i]);
        }
        lemma_entries_map_absent(dl, k);
    }
}

/// Replacing the entry that holds a key is inserting over that key.
proof fn lemma_entries_map_update(es: Seq<(String, Value)>, i: int, p: (String, Value))
    requires
        entries_unique(es),
        0 <= i < es.len(),
        p.0@ == es[i].0@,
    ensures
        entries_map(es.update(i, p)) == entries_map(es).insert(p.0@, p.1@),
    decreases es.len(),
{
    let dl = es.drop_last();
    let es2 = es.update(i, p);
    if i == es.len() - 1 {
        assert(es2.drop_last() =~= dl);
        assert(es2.last() == p);
        assert(entries_map(dl).insert(es.last().0@, es.last().1@).insert(p.0@, p.1@)
            =~= entries_map(dl).insert(p.0@, p.1@));
    } else {
        assert(es2.drop_last() =~= dl.update(i, p));
        assert(es2.last() == es.last());
        assert(dl[i] == es[i]);
        lemma_entries_map_update(dl, i, p);
        assert(entries_map(dl).insert(p.0@, p.1@).insert(es.last().0@, es.last().1@)
            =~= entries_map(dl).insert(es.last().0@, es.last().1@).insert(p.0@, p.1@));
    }
}

/// Taking out the entry that holds a key is removing that key.
proof fn lemma_entries_map_remove(es: Seq<(String, Value)>, i: int)
    requires
        entries_unique(es),
        0 <= i < es.len(),
    ensures
        entries_map(es.remove(i)) == entries_map(es).remove(es[i].0@),
    decreases es.len(),
{
    let dl = es.drop_last();
    if i == es.len() - 1 {
        assert(es.remove(i) =~= dl);
        assert forall|m: int| 0 <= m < dl.len() implies dl[m].0@ != es[i].0@ by {
            assert(dl[m] == es[m]);
        }
        lemma_entries_map_absent(dl, es[i].0@);
        assert(entries_map(dl).insert(es[i].0@, es[i].1@).remove(es[i].0@) =~= entries_map(dl));
    } else {
        assert(es.remove(i).drop_last() =~= dl.remove(i));
        assert(es.remove(i).last() == es.last());
        assert(dl[i] == es[i]);
        lemma_entries_map_remove(dl, i);
        assert(entries_map(dl).remove(es[i].0@).insert(es.last().0@, es.last().1@)
            =~= entries_map(dl).insert(es.last().0@, es.last().1@).remove(es[i].0@));
    }
}

/// A value's view is of the string, array or object form exactly when
/// the value is of that variant.
pub proof fn lemma_view_variants(v: Value)
    ensures
        (v@ matches ValueView::Str(_)) <==> (v matches Value::String(_)),
        (v@ matches ValueView::Array(_)) <==> (v matches Value::Array(_)),
        (v@ matches ValueView::Object(_)) <==> (v matches Value::Object(_)),
{
    match v {
        Value::Null => {},
        Value::Boolean(_) => {},
        Value::Number(_) => {},
        Value::String(_) => {},
        Value::Array(_) => {},
        Value::Object(_) => {},
    }
}

/// Whether two string slices hold the same characters.
pub fn str_eq(a: &str, b: &str) -> (r: bool)
    ensures
        r == (a@ == b@),
{
    let la = a.unicode_len();
    let lb = b.unicode_len();
    if la != lb {
        proof {
            assert(a@ != b@);
        }
        return false;
    }
    let mut i: usize = 0;
    while i < la
        invariant
            0 <= i <= la,
            la == a@.len(),
            lb == b@.len(),
            la == lb,
            forall|k: int| 0 <= k < i ==> a@[k] == b@[k],
        decreases la - i,
    {
        if a.get_char(i) != b.get_char(i) {
            return false;
        }
        i += 1;
    }
    proof {
        assert(a@ =~= b@);
    }
    true
}

impl Object {
    /// No two entries share a key, so the entry list and the map agree.
    #[verifier::type_invariant]
    spec fn wf(&self) -> bool {
        entries_unique(self.entries@)
    }

    /// An empty object.
    pub fn new() -> (r: Object)
        ensures
            r@ == Map::<Seq<char>, ValueView>::empty(),
    {
        Object { entries: Vec::new() }
    }

    /// Puts `value` under `key`; an entry already under that key is
    /// overwritten, so duplicate keys are last-write-wins.
    pub fn insert(&mut self, key: String, value: Value)
        ensures
            final(self)@ == old(self)@.insert(key@, value@),
    {
        proof {
            use_type_invariant(&*self);
        }
        let mut entries: Vec<(String, Value)> = Vec::new();
        core::mem::swap(&mut entries, &mut self.entries);
        let ghost es = entries@;
        let mut i: usize = 0;
        let n = entries.len();
        while i < n
            invariant
                0 <= i <= n,
                n == es.len(),
                entries@ == es,
                entries_unique(es),
                entries_map(es) == old(self)@,
                forall|m: int| 0 <= m < i ==> es[m].0@ != key@,
            decreases n - i,
        {
            if str_eq(entries[i].0.as_str(), key.as_str()) {
                proof {
                    lemma_entries_map_update(es, i as int, (key, value));
                }
                entries[i] = (key, value);
                proof {
                    assert(entries_unique(entries@));
                }
                core::mem::swap(&mut entries, &mut self.entries);
                return;
            }
            i += 1;
        }
        proof {
            lemma_entries_map_absent(es, key@);
            assert(es.push((key, value)).drop_last() =~= es);
        }
        entries.push((key, value));
        proof {
            assert(entries_unique(entries@));
        }
        core::mem::swap(&mut entries, &mut self.entries);
    }

    /// The value under `key`, or `None` when the key is absent. A caller
    /// expecting a particular variant treats a mismatch as absence.
    pub fn get(&self, key: &str) -> (r: Option<&Value>)
        ensures
            match r {
                Some(v) => self@.dom().contains(key@) && v@ == self@[key@],
                None => !self@.dom().contains(key@),
            },
    {
        proof {
            use_type_invariant(&*self);
        }
        let mut i: usize = 0;
        let n = self.entries.len();
        while i < n
            invariant
                0 <= i <= n,
                n == self.entries@.len(),
                forall|m: int| 0 <= m < i ==> self.entries@[m].0@ != key@,
            decreases n - i,
        {
            proof {
                use_type_invariant(&*self);
            }
            if str_eq(self.entries[i].0.as_str(), key) {
                proof {
                    lemma_entries_map_get(self.entries@, i as int);
                }
                return Some(&self.entries[i].1);
            }
            i += 1;
        }
        proof {
            lemma_entries_map_absent(self.entries@, key@);
        }
        None
    }

    /// Takes the value under `key` out of the object, or `None` when the
    /// key is absent.
    pub fn remove(&mut self, key: &str) -> (r: Option<Value>)
        ensures
            final(self)@ == old(self)@.remove(key@),
            match r {
                Some(v) => old(self)@.dom().contains(key@) && v@ == old(self)@[key@],
                None => !old(self)@.dom().contains(key@),
            },
    {
        proof {
            use_type_invariant(&*self);
        }
        let mut entries: Vec<(String, Value)> = Vec::new();
        core::mem::swap(&mut entries, &mut self.entries);
        let ghost es = entries@;
        let mut i: usize = 0;
        let n = entries.len();
        while i < n
            invariant
                0 <= i <= n,
                n == es.len(),
                entries@ == es,
                entries_unique(es),
                entries_map(es) == old(self)@,
                forall|m: int| 0 <= m < i ==> es[m].0@ != key@,
            decreases n - i,
        {
            if str_eq(entries[i].0.as_str(), key) {
                proof {
                    lemma_entries_map_get(es, i as int);
                    lemma_entries_map_remove(es, i as int);
                }
                let pair = entries.remove(i);
                proof {
                    assert forall|a: int, b: int|
                        0 <= a < b < entries@.len() implies entries@[a].0@ != entries@[b].0@ by {
                        if b < i {
                            assert(entries@[a] == es[a] && entries@[b] == es[b]);
                        } else if a < i {
                            assert(entries@[a] == es[a] && entries@[b] == es[b + 1]);
                        } else {
                            assert(entries@[a] == es[a + 1] && entries@[b] == es[b + 1]);
                        }
                    }
                }
                core::mem::swap(&mut entries, &mut self.entries);
                return Some(pair.1);
            }
            i += 1;
        }
        proof {
            lemma_entries_map_absent(es, key@);
            assert(entries_map(es).remove(key@) =~= entries_map(es));
        }
        core::mem::swap(&mut entries, &mut self.entries);
        None
    }
}

} // verus!
