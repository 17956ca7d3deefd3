//! JSON values as plain data, and their mathematical model.
//!
//! An object is kept as the list of its members in the order in which they were
//! written. Where a key occurs more than once the last member counts, as in the
//! usual reading of JSON, so every list of members is a valid object.

use crate::serial::Real;
use crate::text::same_text;
use vstd::prelude::*;

verus! {

/// A JSON value. A nonnegative number is the same number in either of the two
/// integer forms.
#[derive(Debug)]
pub enum Json {
    Null,
    Bool(bool),
    Unsigned(u64),
    Negative(i64),
    Real(Real),
    Text(String),
    Array(Vec<Json>),
    Object(Vec<(String, Json)>),
}

/// The model of a JSON value: texts are sequences of characters, arrays are
/// sequences and objects are maps.
pub enum Val {
    Null,
    Bool(bool),
    Unsigned(u64),
    Negative(i64),
    Real(Seq<char>),
    Text(Seq<char>),
    Array(Seq<Val>),
    Object(Map<Seq<char>, Val>),
}

/// A signed integer as a number.
pub open spec fn signed(n: i64) -> Val {
    if n < 0 {
        Val::Negative(n)
    } else {
        Val::Unsigned(n as u64)
    }
}

/// The models of the elements of an array.
pub open spec fn elements(items: Seq<Json>) -> Seq<Val>
    decreases items,
{
    if items.len() == 0 {
        Seq::empty()
    } else {
        elements(items.drop_last()).push(items.last().view())
    }
}

/// The map that a list of members stands for.
pub open spec fn members(items: Seq<(String, Json)>) -> Map<Seq<char>, Val>
    decreases items,
{
    if items.len() == 0 {
        Map::empty()
    } else {
        members(items.drop_last()).insert(items.last().0@, items.last().1.view())
    }
}

impl Json {
    pub open spec fn view(&self) -> Val
        decreases self,
    {
        match self {
            Json::Null => Val::Null,
            Json::Bool(b) => Val::Bool(*b),
            Json::Unsigned(n) => Val::Unsigned(*n),
            Json::Negative(n) => signed(*n),
            Json::Real(r) => Val::Real(r@),
            Json::Text(s) => Val::Text(s@),
            Json::Array(items) => Val::Array(elements(items@)),
            Json::Object(items) => Val::Object(members(items@)),
        }
    }
}

/// The text of a real number that is zero, of either sign.
pub open spec fn zero_text(text: Seq<char>) -> bool {
    text == "0.0"@ || text == "-0.0"@
}

/// Equality of JSON values: numbers of different kinds differ, the two zeros of
/// the real numbers are equal, and objects are equal as maps.
pub open spec fn same(a: Val, b: Val) -> bool
    decreases a,
{
    match (a, b) {
        (Val::Null, Val::Null) => true,
        (Val::Bool(x), Val::Bool(y)) => x == y,
        (Val::Unsigned(x), Val::Unsigned(y)) => x == y,
        (Val::Negative(x), Val::Negative(y)) => x == y,
        (Val::Real(x), Val::Real(y)) => x == y || (zero_text(x) && zero_text(y)),
        (Val::Text(x), Val::Text(y)) => x == y,
        (Val::Array(x), Val::Array(y)) => x.len() == y.len() && forall|i: int|
            0 <= i < x.len() ==> same(#[trigger] x[i], y[i]),
        (Val::Object(x), Val::Object(y)) => x.dom() =~= y.dom() && forall|k: Seq<char>|
            x.contains_key(k) ==> same(#[trigger] x[k], y[k]),
        _ => false,
    }
}

impl Val {
    /// The member of an object under a key.
    pub open spec fn get(self, key: Seq<char>) -> Option<Val> {
        match self {
            Val::Object(m) => if m.contains_key(key) {
                Some(m[key])
            } else {
                None
            },
            _ => None,
        }
    }

    /// The member of an object under a key, or null.
    pub open spec fn at(self, key: Seq<char>) -> Val {
        match self.get(key) {
            Some(v) => v,
            None => Val::Null,
        }
    }

    /// The characters of a text.
    pub open spec fn as_text(self) -> Option<Seq<char>> {
        match self {
            Val::Text(s) => Some(s),
            _ => None,
        }
    }

    /// The value of an unsigned integer.
    pub open spec fn as_uint(self) -> Option<u64> {
        match self {
            Val::Unsigned(n) => Some(n),
            _ => None,
        }
    }

    /// The text under a key of an object.
    pub open spec fn text_at(self, key: Seq<char>) -> Option<Seq<char>> {
        self.at(key).as_text()
    }

    /// The text under a key of an object, or no text.
    pub open spec fn named(self, key: Seq<char>) -> Seq<char> {
        match self.text_at(key) {
            Some(s) => s,
            None => Seq::empty(),
        }
    }

    /// The unsigned integer under a key of an object.
    pub open spec fn uint_at(self, key: Seq<char>) -> Option<u64> {
        self.at(key).as_uint()
    }

    /// An object with one more member.
    pub open spec fn with(self, key: Seq<char>, value: Val) -> Val {
        match self {
            Val::Object(m) => Val::Object(m.insert(key, value)),
            _ => self,
        }
    }

    /// The object without members.
    pub open spec fn empty_object() -> Val {
        Val::Object(Map::empty())
    }
}

/// A value is the same as itself.
pub proof fn law_same_is_reflexive(v: Val)
    ensures
        same(v, v),
    decreases v,
{
    match v {
        Val::Array(items) => {
            assert forall|i: int| 0 <= i < items.len() implies same(#[trigger] items[i], items[i]) by {
                law_same_is_reflexive(items[i]);
            }
        },
        Val::Object(m) => {
            assert forall|k: Seq<char>| m.contains_key(k) implies same(#[trigger] m[k], m[k]) by {
                law_same_is_reflexive(v->Object_0[k]);
            }
        },
        _ => {},
    }
}

/// Equality goes both ways.
pub proof fn law_same_is_symmetric(a: Val, b: Val)
    requires
        same(a, b),
    ensures
        same(b, a),
    decreases a,
{
    match (a, b) {
        (Val::Array(x), Val::Array(y)) => {
            assert forall|i: int| 0 <= i < y.len() implies same(#[trigger] y[i], x[i]) by {
                assert(same(x[i], y[i]));
                law_same_is_symmetric(x[i], y[i]);
            }
        },
        (Val::Object(x), Val::Object(y)) => {
            assert forall|k: Seq<char>| y.contains_key(k) implies same(#[trigger] y[k], x[k]) by {
                assert(x.dom().contains(k));
                assert(same(x[k], y[k]));
                law_same_is_symmetric(a->Object_0[k], y[k]);
            }
        },
        _ => {},
    }
}

/// Whether no later member carries the key of a member.
pub(crate) open spec fn counts(items: Seq<(String, Json)>, i: int) -> bool {
    forall|j: int| i < j < items.len() ==> #[trigger] items[j].0@ != items[i].0@
}

/// Every key of the map is carried by a member that counts.
pub(crate) proof fn lemma_counting_member(items: Seq<(String, Json)>, key: Seq<char>)
    requires
        members(items).contains_key(key),
    ensures
        exists|i: int|
            0 <= i < items.len() && #[trigger] items[i].0@ == key && counts(items, i),
    decreases items.len(),
{
    let last = items.len() - 1;
    if items[last].0@ == key {
        assert(counts(items, last));
    } else {
        let rest = items.drop_last();
        lemma_counting_member(rest, key);
        let i = choose|i: int|
            0 <= i < rest.len() && #[trigger] rest[i].0@ == key && counts(rest, i);
        assert(items[i].0@ == key);
        assert forall|j: int| i < j < items.len() implies #[trigger] items[j].0@ != items[i].0@ by {
            if j < last {
                assert(rest[j].0@ != rest[i].0@);
            }
        }
    }
}

/// The last member under a key, counted from the front.
pub(crate) proof fn lemma_member(items: Seq<(String, Json)>, key: Seq<char>, i: int)
    requires
        0 <= i < items.len(),
        items[i].0@ == key,
        forall|j: int| i < j < items.len() ==> items[j].0@ != key,
    ensures
        members(items).contains_key(key),
        members(items)[key] == items[i].1@,
    decreases items.len(),
{
    if i < items.len() - 1 {
        lemma_member(items.drop_last(), key, i);
    }
}

/// Another value for the member that counts is another value under its key.
proof fn lemma_replaced(items: Seq<(String, Json)>, i: int, member: (String, Json))
    requires
        0 <= i < items.len(),
        member.0@ == items[i].0@,
        forall|j: int| i < j < items.len() ==> items[j].0@ != member.0@,
    ensures
        members(items.update(i, member)) == members(items).insert(member.0@, member.1@),
    decreases items.len(),
{
    let changed = items.update(i, member);
    if i == items.len() - 1 {
        assert(changed.drop_last() =~= items.drop_last());
    } else {
        assert(changed.drop_last() =~= items.drop_last().update(i, member));
        lemma_replaced(items.drop_last(), i, member);
    }
    assert(members(changed) =~= members(items).insert(member.0@, member.1@));
}

/// A key that no member carries is not in the map.
proof fn lemma_no_member(items: Seq<(String, Json)>, key: Seq<char>)
    requires
        forall|j: int| 0 <= j < items.len() ==> items[j].0@ != key,
    ensures
        !members(items).contains_key(key),
    decreases items.len(),
{
    if items.len() > 0 {
        lemma_no_member(items.drop_last(), key);
    }
}

/// Every key of the map is carried by a member.
pub(crate) proof fn lemma_key_of_member(items: Seq<(String, Json)>, key: Seq<char>)
    ensures
        members(items).contains_key(key) <==> exists|j: int|
            0 <= j < items.len() && #[trigger] items[j].0@ == key,
    decreases items.len(),
{
    if items.len() > 0 {
        lemma_key_of_member(items.drop_last(), key);
        if members(items).contains_key(key) {
            if items.last().0@ == key {
                assert(items[items.len() - 1].0@ == key);
            } else {
                let j = choose|j: int|
                    0 <= j < items.drop_last().len() && #[trigger] items.drop_last()[j].0@ == key;
                assert(items[j].0@ == key);
            }
        } else {
            assert forall|j: int| 0 <= j < items.len() implies #[trigger] items[j].0@ != key by {
                if j < items.len() - 1 {
                    assert(items.drop_last()[j].0@ != key);
                }
            }
        }
    }
}

/// The model of an array, element by element.
pub(crate) proof fn lemma_elements(items: Seq<Json>)
    ensures
        elements(items).len() == items.len(),
        forall|i: int| 0 <= i < items.len() ==> #[trigger] elements(items)[i] == items[i]@,
    decreases items.len(),
{
    if items.len() > 0 {
        lemma_elements(items.drop_last());
        assert forall|i: int| 0 <= i < items.len() implies #[trigger] elements(items)[i]
            == items[i]@ by {
            if i < items.len() - 1 {
                assert(elements(items)[i] == elements(items.drop_last())[i]);
                assert(items.drop_last()[i] == items[i]);
            }
        }
    }
}

impl Json {
    /// The member of an object under a key.
    pub fn get(&self, key: &str) -> (found: Option<&Json>)
        ensures
            match found {
                Some(v) => self@.get(key@) == Some(v@) && decreases_to!(*self => *v),
                None => self@.get(key@) is None,
            },
    {
        match self {
            Json::Object(items) => {
                let mut i: usize = items.len();
                while i > 0
                    invariant
                        i <= items@.len(),
                        *self == Json::Object(*items),
                        forall|j: int| i <= j < items@.len() ==> items@[j].0@ != key@,
                    decreases i,
                {
                    i -= 1;
                    if same_text(items[i].0.as_str(), key) {
                        proof {
                            lemma_member(items@, key@, i as int);
                            assert(decreases_to!(*self => items));
                            assert(decreases_to!(items => items@));
                            assert(decreases_to!(items@ => items@[i as int]));
                            assert(decreases_to!(items@[i as int] => items@[i as int].1));
                        }
                        return Some(&items[i].1);
                    }
                }
                proof {
                    lemma_no_member(items@, key@);
                }
                None
            },
            _ => None,
        }
    }

    /// The characters of a text.
    pub fn as_text(&self) -> (text: Option<&str>)
        ensures
            match text {
                Some(s) => self@.as_text() == Some(s@),
                None => self@.as_text() is None,
            },
    {
        match self {
            Json::Text(s) => Some(s.as_str()),
            _ => None,
        }
    }

    /// The value of an unsigned integer.
    pub fn as_uint(&self) -> (value: Option<u64>)
        ensures
            value == self@.as_uint(),
    {
        match self {
            Json::Unsigned(n) => Some(*n),
            Json::Negative(n) => if *n >= 0 {
                Some(*n as u64)
            } else {
                None
            },
            _ => None,
        }
    }

    /// The text under a key of an object.
    pub fn text_at(&self, key: &str) -> (text: Option<&str>)
        ensures
            match text {
                Some(s) => self@.text_at(key@) == Some(s@),
                None => self@.text_at(key@) is None,
            },
    {
        match self.get(key) {
            Some(v) => v.as_text(),
            None => None,
        }
    }

    /// The text under a key of an object, or no text.
    pub fn named(&self, key: &str) -> (text: &str)
        ensures
            text@ == self@.named(key@),
    {
        match self.text_at(key) {
            Some(s) => s,
            None => {
                proof {
                    reveal_strlit("");
                    assert(""@ =~= Seq::<char>::empty());
                }
                ""
            },
        }
    }

    /// The unsigned integer under a key of an object.
    pub fn uint_at(&self, key: &str) -> (value: Option<u64>)
        ensures
            value == self@.uint_at(key@),
    {
        match self.get(key) {
            Some(v) => v.as_uint(),
            None => None,
        }
    }

    /// Whether an object holds this text under this key.
    pub fn says(&self, key: &str, text: &str) -> (says: bool)
        ensures
            says == (self@.text_at(key@) == Some(text@)),
    {
        match self.text_at(key) {
            Some(s) => same_text(s, text),
            None => false,
        }
    }

    pub fn is_text(&self) -> (is: bool)
        ensures
            is == (self@ is Text),
    {
        matches!(self, Json::Text(_))
    }

    pub fn is_object(&self) -> (is: bool)
        ensures
            is == (self@ is Object),
    {
        matches!(self, Json::Object(_))
    }

    /// The object without members.
    pub fn object() -> (value: Json)
        ensures
            value@ == Val::empty_object(),
    {
        Json::Object(Vec::new())
    }

    /// A text value.
    pub fn text(text: &str) -> (value: Json)
        ensures
            value@ == Val::Text(text@),
    {
        Json::Text(text.to_owned())
    }

    /// An object with one more member, which takes the place of an earlier one
    /// under the same key.
    pub fn with(self, key: &str, value: Json) -> (changed: Json)
        ensures
            changed@ == self@.with(key@, value@),
    {
        match self {
            Json::Object(mut items) => {
                let ghost before = items@;
                let mut i: usize = items.len();
                while i > 0
                    invariant
                        i <= items@.len(),
                        items@ == before,
                        self@ == Val::Object(members(before)),
                        forall|j: int| i <= j < items@.len() ==> items@[j].0@ != key@,
                    decreases i,
                {
                    i -= 1;
                    if same_text(items[i].0.as_str(), key) {
                        let member = (key.to_owned(), value);
                        items.set(i, member);
                        proof {
                            lemma_replaced(before, i as int, member);
                        }
                        return Json::Object(items);
                    }
                }
                items.push((key.to_owned(), value));
                assert(items@.drop_last() =~= before);
                Json::Object(items)
            },
            other => other,
        }
    }

    /// Equality of values.
    pub fn same(&self, other: &Json) -> (equal: bool)
        ensures
            equal == same(self@, other@),
        decreases self,
    {
        match (self, other) {
            (Json::Null, Json::Null) => true,
            (Json::Bool(x), Json::Bool(y)) => *x == *y,
            (Json::Unsigned(x), Json::Unsigned(y)) => *x == *y,
            (Json::Negative(x), Json::Negative(y)) => *x == *y,
            (Json::Unsigned(x), Json::Negative(y)) => *y >= 0 && *x == *y as u64,
            (Json::Negative(x), Json::Unsigned(y)) => *x >= 0 && *x as u64 == *y,
            (Json::Real(x), Json::Real(y)) => x.same(y),
            (Json::Text(x), Json::Text(y)) => same_text(x.as_str(), y.as_str()),
            (Json::Array(x), Json::Array(y)) => {
                proof {
                    lemma_elements(x@);
                    lemma_elements(y@);
                }
                if x.len() != y.len() {
                    return false;
                }
                let mut i: usize = 0;
                while i < x.len()
                    invariant
                        i <= x@.len(),
                        x@.len() == y@.len(),
                        *self == Json::Array(*x),
                        elements(x@).len() == x@.len(),
                        elements(y@).len() == y@.len(),
                        forall|j: int| 0 <= j < x@.len() ==> #[trigger] elements(x@)[j] == x@[j]@,
                        forall|j: int| 0 <= j < y@.len() ==> #[trigger] elements(y@)[j] == y@[j]@,
                        forall|j: int|
                            0 <= j < i ==> same(#[trigger] elements(x@)[j], elements(y@)[j]),
                        self@ == Val::Array(elements(x@)),
                        other@ == Val::Array(elements(y@)),
                    decreases x@.len() - i,
                {
                    assert(decreases_to!(*self => x));
                    assert(decreases_to!(x => x@));
                    assert(decreases_to!(x@ => x@[i as int]));
                    if !x[i].same(&y[i]) {
                        assert(!same(elements(x@)[i as int], elements(y@)[i as int]));
                        return false;
                    }
                    i += 1;
                }
                true
            },
            (Json::Object(x), Json::Object(y)) => {
                let mut i: usize = 0;
                while i < y.len()
                    invariant
                        i <= y@.len(),
                        self@ == Val::Object(members(x@)),
                        other@ == Val::Object(members(y@)),
                        forall|j: int|
                            0 <= j < i ==> members(x@).contains_key(#[trigger] y@[j].0@),
                    decreases y@.len() - i,
                {
                    if self.get(y[i].0.as_str()).is_none() {
                        proof {
                            lemma_key_of_member(y@, y@[i as int].0@);
                            assert(members(y@).dom().contains(y@[i as int].0@));
                            assert(!members(x@).dom().contains(y@[i as int].0@));
                        }
                        return false;
                    }
                    i += 1;
                }
                let mut n: usize = 0;
                while n < x.len()
                    invariant
                        n <= x@.len(),
                        *self == Json::Object(*x),
                        self@ == Val::Object(members(x@)),
                        other@ == Val::Object(members(y@)),
                        forall|j: int|
                            0 <= j < n ==> members(y@).contains_key(#[trigger] x@[j].0@) && same(
                                members(x@)[x@[j].0@],
                                members(y@)[x@[j].0@],
                            ),
                    decreases x@.len() - n,
                {
                    let key = x[n].0.as_str();
                    proof {
                        lemma_key_of_member(x@, key@);
                        assert(x@[n as int].0@ == key@);
                    }
                    match (self.get(key), other.get(key)) {
                        (Some(mine), Some(its)) => {
                            if !mine.same(its) {
                                assert(!same(members(x@)[key@], members(y@)[key@]));
                                return false;
                            }
                        },
                        _ => {
                            assert(members(x@).dom().contains(key@));
                            assert(!members(y@).dom().contains(key@));
                            return false;
                        },
                    }
                    n += 1;
                }
                proof {
                    assert forall|k: Seq<char>|
                        members(x@).contains_key(k) <==> members(y@).contains_key(k) by {
                        lemma_key_of_member(x@, k);
                        lemma_key_of_member(y@, k);
                    }
                    assert forall|k: Seq<char>| members(x@).contains_key(k) implies same(
                        #[trigger] members(x@)[k],
                        members(y@)[k],
                    ) by {
                        lemma_key_of_member(x@, k);
                    }
                    assert(members(x@).dom() =~= members(y@).dom());
                }
                true
            },
            _ => false,
        }
    }

    /// An independent value that is equal to this one.
    pub fn copy(&self) -> (copied: Json)
        ensures
            copied@ == self@,
        decreases self,
    {
        match self {
            Json::Null => Json::Null,
            Json::Bool(b) => Json::Bool(*b),
            Json::Unsigned(n) => Json::Unsigned(*n),
            Json::Negative(n) => Json::Negative(*n),
            Json::Real(r) => Json::Real(r.copy()),
            Json::Text(s) => Json::Text(s.clone()),
            Json::Array(items) => {
                let mut out: Vec<Json> = Vec::new();
                let mut i: usize = 0;
                while i < items.len()
                    invariant
                        i <= items@.len(),
                        *self == Json::Array(*items),
                        elements(out@) == elements(items@.take(i as int)),
                    decreases items@.len() - i,
                {
                    assert(decreases_to!(*self => self->Array_0));
                    assert(decreases_to!(items => items@));
                    assert(decreases_to!(items@ => items@[i as int]));
                    let ghost before = out@;
                    out.push(items[i].copy());
                    assert(out@.drop_last() =~= before);
                    assert(items@.take(i + 1).drop_last() =~= items@.take(i as int));
                    i += 1;
                }
                assert(items@.take(i as int) =~= items@);
                Json::Array(out)
            },
            Json::Object(items) => {
                let mut out: Vec<(String, Json)> = Vec::new();
                let mut i: usize = 0;
                while i < items.len()
                    invariant
                        i <= items@.len(),
                        *self == Json::Object(*items),
                        members(out@) == members(items@.take(i as int)),
                    decreases items@.len() - i,
                {
                    assert(decreases_to!(*self => self->Object_0));
                    assert(decreases_to!(items => items@));
                    assert(decreases_to!(items@ => items@[i as int]));
                    assert(decreases_to!(items@[i as int] => items@[i as int].1));
                    let ghost before = out@;
                    out.push((items[i].0.clone(), items[i].1.copy()));
                    assert(out@.drop_last() =~= before);
                    assert(items@.take(i + 1).drop_last() =~= items@.take(i as int));
                    i += 1;
                }
                assert(items@.take(i as int) =~= items@);
                Json::Object(out)
            },
        }
    }
}

/// The parts of a value are reached as they are: the member under a key, a text, an
/// unsigned number. What is not there is not reached.
pub proof fn law_members_are_reached(m: Map<Seq<char>, Val>, key: Seq<char>, v: Val, other: Val)
    requires
        other !is Object,
    ensures
        m.contains_key(key) ==> Val::Object(m).get(key) == Some(m[key]),
        !m.contains_key(key) ==> Val::Object(m).get(key) is None,
        other.get(key) is None,
        v.get(key) matches Some(x) ==> v.at(key) == x,
        v.get(key) is None ==> v.at(key) == Val::Null,
        v.at(key) matches Val::Text(s) ==> v.text_at(key) == Some(s) && v.named(key) == s,
        v.at(key) !is Text ==> v.text_at(key) is None && v.named(key).len() == 0,
        v.at(key) matches Val::Unsigned(n) ==> v.uint_at(key) == Some(n),
        v.at(key) !is Unsigned ==> v.uint_at(key) is None,
        Val::Object(m).with(key, v) == Val::Object(m.insert(key, v)),
        other.with(key, v) == other,
{
}

/// A value is seen as what it is: its texts and numbers, the items of a list at
/// their places, and of the members of an object under one key the last.
pub proof fn law_values_are_seen_as_they_are(json: Json, key: Seq<char>, i: int)
    ensures
        match json {
            Json::Null => json@ == Val::Null,
            Json::Bool(b) => json@ == Val::Bool(b),
            Json::Unsigned(n) => json@ == Val::Unsigned(n),
            Json::Negative(n) => json@ == if n < 0 {
                Val::Negative(n)
            } else {
                Val::Unsigned(n as u64)
            },
            Json::Real(r) => json@ == Val::Real(r@),
            Json::Text(s) => json@ == Val::Text(s@),
            Json::Array(items) => {
                &&& json@ matches Val::Array(seen)
                &&& seen.len() == items@.len()
                &&& 0 <= i < items@.len() ==> seen[i] == items@[i]@
            },
            Json::Object(items) => {
                &&& json@ is Object
                &&& 0 <= i < items@.len() && items@[i].0@ == key && (forall|j: int|
                    i < j < items@.len() ==> (#[trigger] items@[j]).0@ != key) ==> json@.get(key)
                    == Some(items@[i].1@)
                &&& (forall|j: int| 0 <= j < items@.len() ==> (#[trigger] items@[j]).0@ != key)
                    ==> json@.get(key) is None
            },
        },
{
    match json {
        Json::Array(items) => {
            lemma_elements(items@);
        },
        Json::Object(items) => {
            if 0 <= i < items@.len() && items@[i].0@ == key && (forall|j: int|
                i < j < items@.len() ==> (#[trigger] items@[j]).0@ != key) {
                lemma_member(items@, key, i);
            }
            if forall|j: int| 0 <= j < items@.len() ==> (#[trigger] items@[j]).0@ != key {
                lemma_no_member(items@, key);
            }
        },
        _ => {},
    }
}

/// Equal values have equal parts: the same texts, numbers of the same kind, lists of
/// the same length that are equal at every place, and objects with the same keys
/// that are equal under every key.
pub proof fn law_same_values_have_the_same_parts(a: Val, b: Val)
    ensures
        a is Text || b is Text ==> (same(a, b) <==> a == b),
        a is Unsigned || b is Unsigned ==> (same(a, b) <==> a == b),
        a is Negative || b is Negative ==> (same(a, b) <==> a == b),
        a is Bool || b is Bool ==> (same(a, b) <==> a == b),
        a is Null || b is Null ==> (same(a, b) <==> a == b),
        a is Array || b is Array ==> (same(a, b) <==> a is Array && b is Array && a->Array_0.len()
            == b->Array_0.len() && forall|i: int|
            0 <= i < a->Array_0.len() ==> same(#[trigger] a->Array_0[i], b->Array_0[i])),
        a is Object || b is Object ==> (same(a, b) <==> a is Object && b is Object && (forall|
            k: Seq<char>,
        |
            (a.get(k) is Some) == (#[trigger] b.get(k) is Some) && (a.get(k) is Some ==> same(
                a.get(k)->0,
                b.get(k)->0,
            )))),
        a is Real && b is Real ==> (same(a, b) <==> a == b || ((a->Real_0 == "0.0"@ || a->Real_0
            == "-0.0"@) && (b->Real_0 == "0.0"@ || b->Real_0 == "-0.0"@))),
{
    if a is Object && b is Object {
        let (x, y) = (a->Object_0, b->Object_0);
        if same(a, b) {
            assert forall|k: Seq<char>| (a.get(k) is Some) == (#[trigger] b.get(k) is Some) && (a.get(
                k,
            ) is Some ==> same(a.get(k)->0, b.get(k)->0)) by {
                assert(x.dom().contains(k) == y.dom().contains(k));
                if x.contains_key(k) {
                    assert(same(x[k], y[k]));
                }
            }
        }
        if forall|k: Seq<char>|
            (a.get(k) is Some) == (#[trigger] b.get(k) is Some) && (a.get(k) is Some ==> same(
                a.get(k)->0,
                b.get(k)->0,
            )) {
            assert forall|k: Seq<char>| x.dom().contains(k) == y.dom().contains(k) by {
                assert((a.get(k) is Some) == (b.get(k) is Some));
            }
            assert(x.dom() =~= y.dom());
            assert forall|k: Seq<char>| x.contains_key(k) implies same(#[trigger] x[k], y[k]) by {
                assert((a.get(k) is Some) == (b.get(k) is Some));
            }
        }
    }
}

} // verus!
