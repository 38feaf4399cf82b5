//! The value tree: a closed sum of seven kinds, its mathematical model,
//! and the sorted-entry object container.

use vstd::prelude::*;
use crate::order::{lex_lt, str_lt, lemma_lex_irreflexive, lemma_lex_connected,
    lemma_lex_transitive};

verus! {

/// Mathematical model of a value tree. Strings are character sequences,
/// integers are signed 64-bit values, doubles are carried as the 64 bits
/// of their IEEE-754 representation, and an object is the sequence of its
/// entries in storage order.
pub enum JsonV {
    Str(Seq<char>),
    Int(i64),
    Double(u64),
    Bool(bool),
    Null,
    Array(Seq<JsonV>),
    Object(Seq<(Seq<char>, JsonV)>),
}

/// The keys of an entry sequence are strictly ascending; in particular
/// they are pairwise distinct.
pub open spec fn entries_sorted(es: Seq<(Seq<char>, JsonV)>) -> bool {
    forall|i: int, j: int| 0 <= i < j < es.len() ==> lex_lt(es[i].0, es[j].0)
}

/// Well-formedness of a model tree: every object in it keeps its entries
/// in strictly ascending key order.
pub open spec fn wf(v: JsonV) -> bool
    decreases v,
{
    match v {
        JsonV::Array(vs) => forall|i: int| 0 <= i < vs.len() ==> wf(#[trigger] vs[i]),
        JsonV::Object(es) => entries_sorted(es) && forall|i: int|
            0 <= i < es.len() ==> wf(#[trigger] es[i].1),
        _ => true,
    }
}

/// Number of entries whose key precedes `k`: in a sorted entry sequence,
/// the position at which `k` belongs.
pub open spec fn insert_idx(es: Seq<(Seq<char>, JsonV)>, k: Seq<char>) -> int
    decreases es.len(),
{
    if es.len() == 0 {
        0
    } else if lex_lt(es[0].0, k) {
        1 + insert_idx(es.drop_first(), k)
    } else {
        0
    }
}

/// Insertion into an entry sequence: replaces the entry whose key equals
/// `k` if there is one, otherwise places `(k, v)` at its sorted position.
pub open spec fn entry_insert(
    es: Seq<(Seq<char>, JsonV)>,
    k: Seq<char>,
    v: JsonV,
) -> Seq<(Seq<char>, JsonV)> {
    let i = insert_idx(es, k);
    if i < es.len() && es[i].0 == k {
        es.update(i, (k, v))
    } else {
        es.insert(i, (k, v))
    }
}

pub proof fn lemma_insert_idx_bounds(es: Seq<(Seq<char>, JsonV)>, k: Seq<char>)
    ensures
        0 <= insert_idx(es, k) <= es.len(),
    decreases es.len(),
{
    if es.len() > 0 && lex_lt(es[0].0, k) {
        lemma_insert_idx_bounds(es.drop_first(), k);
    }
}

/// The first entries of a sorted sequence all precede `k`, and the entry
/// at the insertion point itself (if any) does not.
pub proof fn lemma_insert_idx_split(es: Seq<(Seq<char>, JsonV)>, k: Seq<char>)
    requires
        entries_sorted(es),
    ensures
        0 <= insert_idx(es, k) <= es.len(),
        forall|j: int| 0 <= j < insert_idx(es, k) ==> lex_lt(#[trigger] es[j].0, k),
        insert_idx(es, k) < es.len() ==> !lex_lt(es[insert_idx(es, k)].0, k),
    decreases es.len(),
{
    lemma_insert_idx_bounds(es, k);
    if es.len() > 0 && lex_lt(es[0].0, k) {
        let tail = es.drop_first();
        assert forall|i: int, j: int| 0 <= i < j < tail.len() implies
            lex_lt(#[trigger] tail[i].0, #[trigger] tail[j].0) by {
            assert(tail[i] == es[i + 1]);
            assert(tail[j] == es[j + 1]);
        }
        lemma_insert_idx_split(tail, k);
        assert forall|j: int| 0 <= j < insert_idx(es, k) implies
            lex_lt(#[trigger] es[j].0, k) by {
            if j > 0 {
                assert(es[j] == tail[j - 1]);
            }
        }
        if insert_idx(es, k) < es.len() {
            assert(es[insert_idx(es, k)] == tail[insert_idx(tail, k)]);
        }
    }
}

/// Insertion keeps the keys strictly ascending.
pub proof fn lemma_entry_insert_sorted(es: Seq<(Seq<char>, JsonV)>, k: Seq<char>, v: JsonV)
    requires
        entries_sorted(es),
    ensures
        entries_sorted(entry_insert(es, k, v)),
{
    lemma_insert_idx_split(es, k);
    let i = insert_idx(es, k);
    let out = entry_insert(es, k, v);
    if i < es.len() && es[i].0 == k {
        assert forall|p: int, q: int| 0 <= p < q < out.len() implies
            lex_lt(out[p].0, out[q].0) by {
            assert(out[p].0 == es[p].0);
            assert(out[q].0 == es[q].0);
        }
    } else {
        if i < es.len() {
            if !lex_lt(k, es[i].0) {
                lemma_lex_connected(k, es[i].0);
                assert(false);
            }
        }
        assert forall|p: int, q: int| 0 <= p < q < out.len() implies
            lex_lt(out[p].0, out[q].0) by {
            if q < i {
                assert(out[p] == es[p]);
                assert(out[q] == es[q]);
            } else if p < i && q == i {
                assert(out[p] == es[p]);
            } else if p == i && q > i {
                assert(out[q] == es[q - 1]);
                if q - 1 > i {
                    lemma_lex_transitive(k, es[i].0, es[q - 1].0);
                }
            } else if p < i && q > i {
                assert(out[p] == es[p]);
                assert(out[q] == es[q - 1]);
            } else if p > i {
                assert(out[p] == es[p - 1]);
                assert(out[q] == es[q - 1]);
            }
        }
    }
}

/// Insertion of a well-formed value among well-formed values leaves
/// every stored value well-formed.
pub proof fn lemma_entry_insert_wf(es: Seq<(Seq<char>, JsonV)>, k: Seq<char>, v: JsonV)
    requires
        forall|j: int| 0 <= j < es.len() ==> wf(#[trigger] es[j].1),
        wf(v),
    ensures
        forall|j: int| 0 <= j < entry_insert(es, k, v).len()
            ==> wf(#[trigger] entry_insert(es, k, v)[j].1),
{
    lemma_insert_idx_bounds(es, k);
    let out = entry_insert(es, k, v);
    let i = insert_idx(es, k);
    assert forall|j: int| 0 <= j < out.len() implies wf(out[j].1) by {
        if i < es.len() && es[i].0 == k {
            if j != i {
                assert(out[j] == es[j]);
            }
        } else {
            if j < i {
                assert(out[j] == es[j]);
            } else if j > i {
                assert(out[j] == es[j - 1]);
            }
        }
    }
}

pub proof fn lemma_insert_idx_at_end(es: Seq<(Seq<char>, JsonV)>, k: Seq<char>)
    requires
        forall|j: int| 0 <= j < es.len() ==> lex_lt(#[trigger] es[j].0, k),
    ensures
        insert_idx(es, k) == es.len(),
    decreases es.len(),
{
    if es.len() > 0 {
        let tail = es.drop_first();
        assert forall|j: int| 0 <= j < tail.len() implies
            lex_lt(#[trigger] tail[j].0, k) by {
            assert(tail[j] == es[j + 1]);
        }
        lemma_insert_idx_at_end(tail, k);
    }
}

/// Appending an entry whose key follows every present key inserts it at
/// the end.
pub proof fn lemma_entry_insert_at_end(es: Seq<(Seq<char>, JsonV)>, k: Seq<char>, v: JsonV)
    requires
        forall|j: int| 0 <= j < es.len() ==> lex_lt(#[trigger] es[j].0, k),
    ensures
        entry_insert(es, k, v) == es.push((k, v)),
{
    lemma_insert_idx_at_end(es, k);
    assert(entry_insert(es, k, v) =~= es.push((k, v)));
}

/// A string value.
#[derive(Debug, PartialEq)]
pub struct Str {
    pub value: String,
}

/// A signed 64-bit integer value.
#[derive(Debug, PartialEq)]
pub struct Int {
    pub value: i64,
}

/// A 64-bit floating-point value, carried as the bits of its IEEE-754
/// representation; the tree itself never computes on it.
#[derive(Debug, PartialEq)]
pub struct Double {
    pub bits: u64,
}

/// A boolean value.
#[derive(Debug, PartialEq)]
pub struct Bool {
    pub value: bool,
}

/// The null value. The payload is an always-absent optional byte, kept
/// only for structural uniformity with the decoder's absent-value paths;
/// it carries no meaning.
#[derive(Debug, PartialEq)]
pub struct Null {
    pub value: Option<u8>,
}

/// An ordered sequence of values; order is decode order and is kept.
#[derive(Debug, PartialEq)]
pub struct Array {
    pub value: Vec<Json>,
}

/// A mapping from string keys to values, stored in strictly ascending
/// key order. The field is private so that every `Object` reachable from
/// outside was built by `new` and `insert` and is therefore sorted.
#[derive(Debug, PartialEq)]
pub struct Object {
    value: Vec<(String, Json)>,
}

/// A value tree: exactly one of the seven kinds.
#[derive(Debug, PartialEq)]
pub enum Json {
    Str(Str),
    Int(Int),
    Double(Double),
    Bool(Bool),
    Null(Null),
    Array(Array),
    Object(Object),
}

/// Model of a concrete tree.
pub open spec fn view_json(v: Json) -> JsonV
    decreases v,
{
    match v {
        Json::Str(s) => JsonV::Str(s.value@),
        Json::Int(x) => JsonV::Int(x.value),
        Json::Double(d) => JsonV::Double(d.bits),
        Json::Bool(b) => JsonV::Bool(b.value),
        Json::Null(_) => JsonV::Null,
        Json::Array(a) => JsonV::Array(seq_view(a.value@)),
        Json::Object(o) => JsonV::Object(o.entries()),
    }
}

/// Models of a sequence of concrete trees, elementwise.
pub open spec fn seq_view(s: Seq<Json>) -> Seq<JsonV>
    decreases s,
{
    if s.len() == 0 {
        Seq::empty()
    } else {
        seq_view(s.drop_last()).push(view_json(s.last()))
    }
}

/// Models of an entry sequence, elementwise: the key's characters and
/// the value's model.
pub open spec fn entries_view(s: Seq<(String, Json)>) -> Seq<(Seq<char>, JsonV)>
    decreases s,
{
    if s.len() == 0 {
        Seq::empty()
    } else {
        entries_view(s.drop_last()).push((s.last().0@, view_json(s.last().1)))
    }
}

/// `seq_view` maps the elements one for one.
pub proof fn lemma_seq_view(s: Seq<Json>)
    ensures
        seq_view(s).len() == s.len(),
        forall|i: int| 0 <= i < s.len() ==> #[trigger] seq_view(s)[i] == view_json(s[i]),
    decreases s.len(),
{
    if s.len() > 0 {
        lemma_seq_view(s.drop_last());
        assert forall|i: int| 0 <= i < s.len() implies #[trigger] seq_view(s)[i]
            == view_json(s[i]) by {
            if i < s.len() - 1 {
                assert(s.drop_last()[i] == s[i]);
            } else {
                assert(s[i] == s.last());
            }
        }
    }
}

/// `entries_view` maps the entries one for one.
pub proof fn lemma_entries_view(s: Seq<(String, Json)>)
    ensures
        entries_view(s).len() == s.len(),
        forall|i: int| 0 <= i < s.len() ==> #[trigger] entries_view(s)[i]
            == (s[i].0@, view_json(s[i].1)),
    decreases s.len(),
{
    if s.len() > 0 {
        lemma_entries_view(s.drop_last());
        assert forall|i: int| 0 <= i < s.len() implies #[trigger] entries_view(s)[i]
            == (s[i].0@, view_json(s[i].1)) by {
            if i < s.len() - 1 {
                assert(s.drop_last()[i] == s[i]);
            } else {
                assert(s[i] == s.last());
            }
        }
    }
}

impl View for Json {
    type V = JsonV;

    open spec fn view(&self) -> JsonV {
        view_json(*self)
    }
}

impl Object {
    /// The model of the object: its entries in storage (ascending key)
    /// order.
    pub closed spec fn entries(&self) -> Seq<(Seq<char>, JsonV)>
        decreases self,
    {
        entries_view(self.value@)
    }

    /// An empty object.
    pub fn new() -> (o: Object)
        ensures
            o.entries() == Seq::<(Seq<char>, JsonV)>::empty(),
    {
        let o = Object { value: Vec::new() };
        proof {
            assert(o.entries() =~= Seq::<(Seq<char>, JsonV)>::empty());
        }
        o
    }

    /// Number of entries.
    pub fn len(&self) -> (n: usize)
        ensures
            n == self.entries().len(),
    {
        proof {
            lemma_entries_view(self.value@);
        }
        self.value.len()
    }

    /// The key of the entry at position `i`.
    pub fn key_at(&self, i: usize) -> (k: &String)
        requires
            i < self.entries().len(),
        ensures
            k@ == self.entries()[i as int].0,
    {
        proof {
            lemma_entries_view(self.value@);
        }
        &self.value[i].0
    }

    /// The value of the entry at position `i`.
    pub fn value_at(&self, i: usize) -> (v: &Json)
        requires
            i < self.entries().len(),
        ensures
            v@ == self.entries()[i as int].1,
    {
        proof {
            lemma_entries_view(self.value@);
        }
        &self.value[i].1
    }

    /// Looks a key up: the value stored under it, if any.
    pub fn get(&self, key: &str) -> (r: Option<&Json>)
        ensures
            match r {
                Some(v) => exists|j: int| 0 <= j < self.entries().len()
                    && #[trigger] self.entries()[j] == (key@, v@),
                None => forall|j: int| 0 <= j < self.entries().len()
                    ==> #[trigger] self.entries()[j].0 != key@,
            },
    {
        proof {
            lemma_entries_view(self.value@);
        }
        let ghost es = self.entries();
        let n = self.value.len();
        let mut i: usize = 0;
        while i < n
            invariant
                i <= n,
                n == es.len(),
                es == self.entries(),
                es.len() == self.value@.len(),
                forall|j: int| 0 <= j < n ==> #[trigger] es[j].0 == self.value@[j].0@,
                forall|j: int| 0 <= j < i ==> #[trigger] es[j].0 != key@,
            decreases n - i,
        {
            let stored = self.value[i].0.as_str();
            if !str_lt(stored, key) && !str_lt(key, stored) {
                proof {
                    lemma_lex_connected(es[i as int].0, key@);
                    lemma_entries_view(self.value@);
                    assert(self.entries()[i as int]
                        == (self.value@[i as int].0@, view_json(self.value@[i as int].1)));
                    assert(self.entries()[i as int] == (key@, self.value@[i as int].1@));
                }
                return Some(&self.value[i].1);
            }
            proof {
                if es[i as int].0 == key@ {
                    lemma_lex_irreflexive(key@);
                }
            }
            i = i + 1;
        }
        None
    }

    /// Inserts `(key, v)`, keeping the entries sorted by key; a later
    /// insertion with a present key overwrites the earlier value.
    pub fn insert(&mut self, key: String, v: Json)
        requires
            entries_sorted(old(self).entries()),
        ensures
            final(self).entries() == entry_insert(old(self).entries(), key@, v@),
            entries_sorted(final(self).entries()),
    {
        proof {
            lemma_insert_idx_split(self.entries(), key@);
            lemma_entry_insert_sorted(self.entries(), key@, v@);
            lemma_entries_view(self.value@);
        }
        let ghost es = self.entries();
        let ghost vs = self.value@;
        let mut i: usize = 0;
        loop
            invariant
                i <= es.len(),
                es == self.entries(),
                vs == self.value@,
                es.len() == self.value@.len(),
                forall|j: int| 0 <= j < es.len() ==> #[trigger] es[j].0 == self.value@[j].0@,
                forall|j: int| 0 <= j < i ==> lex_lt(#[trigger] es[j].0, key@),
            ensures
                i <= es.len(),
                es == self.entries(),
                vs == self.value@,
                forall|j: int| 0 <= j < i ==> lex_lt(#[trigger] es[j].0, key@),
                i < es.len() ==> !lex_lt(es[i as int].0, key@),
            decreases es.len() - i,
        {
            if i >= self.value.len() {
                break;
            }
            if !str_lt(self.value[i].0.as_str(), key.as_str()) {
                break;
            }
            i = i + 1;
        }
        proof {
            let s = insert_idx(es, key@);
            if i < s {
                assert(!lex_lt(es[i as int].0, key@));
                assert(lex_lt(es[i as int].0, key@));
            }
            if s < i {
                assert(lex_lt(es[s].0, key@));
            }
            assert(i == s);
        }
        if i < self.value.len() && !str_lt(key.as_str(), self.value[i].0.as_str()) {
            proof {
                lemma_entries_view(vs);
                lemma_lex_connected(es[i as int].0, key@);
                assert(es[i as int].0 == key@);
            }
            let ghost keyv = key@;
            let ghost vv = v@;
            self.value.set(i, (key, v));
            proof {
                lemma_entries_view(self.value@);
                assert(self.entries() =~= es.update(i as int, (keyv, vv)));
                assert(self.entries() =~= entry_insert(es, keyv, vv));
            }
        } else {
            proof {
                lemma_entries_view(vs);
                if i < es.len() && es[i as int].0 == key@ {
                    lemma_lex_irreflexive(key@);
                }
                assert(!(i < es.len() && es[i as int].0 == key@));
            }
            let ghost keyv = key@;
            let ghost vv = v@;
            self.value.insert(i, (key, v));
            proof {
                lemma_entries_view(self.value@);
                assert(self.entries() =~= es.insert(i as int, (keyv, vv)));
                assert(self.entries() =~= entry_insert(es, keyv, vv));
            }
        }
    }
}

impl Json {
    /// True exactly of a string value.
    pub fn is_str(&self) -> (r: bool)
        ensures
            r == (self@ is Str),
    {
        match self {
            Json::Str(_) => true,
            _ => false,
        }
    }

    /// True exactly of a 64-bit integer value.
    pub fn is_i64(&self) -> (r: bool)
        ensures
            r == (self@ is Int),
    {
        match self {
            Json::Int(_) => true,
            _ => false,
        }
    }

    /// True exactly of a 64-bit floating-point value.
    pub fn is_f64(&self) -> (r: bool)
        ensures
            r == (self@ is Double),
    {
        match self {
            Json::Double(_) => true,
            _ => false,
        }
    }

    /// True exactly of a boolean value.
    pub fn is_bool(&self) -> (r: bool)
        ensures
            r == (self@ is Bool),
    {
        match self {
            Json::Bool(_) => true,
            _ => false,
        }
    }

    /// True exactly of the null value.
    pub fn is_null(&self) -> (r: bool)
        ensures
            r == (self@ is Null),
    {
        match self {
            Json::Null(_) => true,
            _ => false,
        }
    }

    /// True exactly of an array.
    pub fn is_array(&self) -> (r: bool)
        ensures
            r == (self@ is Array),
    {
        match self {
            Json::Array(_) => true,
            _ => false,
        }
    }

    /// True exactly of an object.
    pub fn is_object(&self) -> (r: bool)
        ensures
            r == (self@ is Object),
    {
        match self {
            Json::Object(_) => true,
            _ => false,
        }
    }

    /// The held text, for a string value; absent otherwise.
    pub fn as_str(&self) -> (r: Option<&String>)
        ensures
            match r {
                Some(s) => self@ == JsonV::Str(s@),
                None => !(self@ is Str),
            },
    {
        match self {
            Json::Str(s) => Some(&s.value),
            _ => None,
        }
    }

    /// The held integer, for an integer value; absent otherwise.
    pub fn as_i64(&self) -> (r: Option<i64>)
        ensures
            match r {
                Some(x) => self@ == JsonV::Int(x),
                None => !(self@ is Int),
            },
    {
        match self {
            Json::Int(x) => Some(x.value),
            _ => None,
        }
    }

    /// The IEEE-754 bit pattern of the held double, for a floating-point
    /// value; absent otherwise.
    pub fn as_f64(&self) -> (r: Option<u64>)
        ensures
            match r {
                Some(b) => self@ == JsonV::Double(b),
                None => !(self@ is Double),
            },
    {
        match self {
            Json::Double(d) => Some(d.bits),
            _ => None,
        }
    }

    /// The held boolean, for a boolean value; absent otherwise.
    pub fn as_bool(&self) -> (r: Option<bool>)
        ensures
            match r {
                Some(b) => self@ == JsonV::Bool(b),
                None => !(self@ is Bool),
            },
    {
        match self {
            Json::Bool(b) => Some(b.value),
            _ => None,
        }
    }

    /// The held elements, for an array; absent otherwise.
    pub fn as_array(&self) -> (r: Option<&Vec<Json>>)
        ensures
            match r {
                Some(a) => self@ == JsonV::Array(seq_view(a@)),
                None => !(self@ is Array),
            },
    {
        match self {
            Json::Array(a) => Some(&a.value),
            _ => None,
        }
    }

    /// The held entries, for an object; absent otherwise.
    pub fn as_object(&self) -> (r: Option<&Object>)
        ensures
            match r {
                Some(o) => self@ == JsonV::Object(o.entries()),
                None => !(self@ is Object),
            },
    {
        match self {
            Json::Object(o) => Some(o),
            _ => None,
        }
    }
}

/// Exactly one of the seven kind predicates holds of any value: the
/// seven indicator terms below always sum to one.
pub proof fn lemma_exactly_one_kind(v: JsonV)
    ensures
        (if v is Str { 1int } else { 0int }) + (if v is Int { 1int } else { 0int })
            + (if v is Double { 1int } else { 0int }) + (if v is Bool { 1int } else { 0int })
            + (if v is Null { 1int } else { 0int }) + (if v is Array { 1int } else { 0int })
            + (if v is Object { 1int } else { 0int }) == 1,
{
}

} // verus!
