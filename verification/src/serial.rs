//! JSON text, as the `serde_json` crate reads and writes it. The crate is built
//! without the features that change what its values are: `preserve_order`,
//! `arbitrary_precision` and `raw_value`.

use crate::json::{
    counts, elements, lemma_counting_member, lemma_member, members, same, signed, zero_text, Json,
    Val,
};
use crate::text::{one_line, same_text};
use vstd::prelude::*;

verus! {

/// The value type of `serde_json`, a tree of JSON values.
#[verifier::external_type_specification]
#[verifier::external_body]
pub struct ExValue(serde_json::Value);

/// The JSON value that a `serde_json::Value` holds. A number that is no 64-bit
/// integer is held as the decimal text that `serde_json` displays for it.
pub uninterp spec fn holds(value: serde_json::Value) -> Val;

/// What a list of values holds.
pub open spec fn all_hold(items: Seq<serde_json::Value>) -> Seq<Val> {
    items.map_values(|v: serde_json::Value| holds(v))
}

/// What a list of members holds.
pub open spec fn members_hold(items: Seq<(String, serde_json::Value)>) -> Map<Seq<char>, Val>
    decreases items.len(),
{
    if items.len() == 0 {
        Map::empty()
    } else {
        members_hold(items.drop_last()).insert(items.last().0@, holds(items.last().1))
    }
}

/// No key comes twice.
pub open spec fn unique_keys(items: Seq<(String, serde_json::Value)>) -> bool {
    forall|i: int, j: int| 0 <= i < j < items.len() ==> #[trigger] items[i].0@ != #[trigger] items[j].0@
}

proof fn lemma_members_are_finite(items: Seq<(String, serde_json::Value)>)
    ensures
        members_hold(items).dom().finite(),
    decreases items.len(),
{
    if items.len() > 0 {
        lemma_members_are_finite(items.drop_last());
    }
}

/// Where no key comes twice, every member is in the object.
proof fn lemma_members_hold(items: Seq<(String, serde_json::Value)>, k: int)
    requires
        unique_keys(items),
        0 <= k < items.len(),
    ensures
        members_hold(items).contains_key(items[k].0@),
        members_hold(items)[items[k].0@] == holds(items[k].1),
        members_hold(items).dom().finite(),
    decreases items.len(),
{
    lemma_members_are_finite(items);
    if k < items.len() - 1 {
        assert(items.drop_last()[k] == items[k]);
        assert(items[k].0@ != items[items.len() - 1].0@);
        lemma_members_hold(items.drop_last(), k);
    }
}

/// Whether a member carries a key.
spec fn carried(items: Seq<(String, serde_json::Value)>, key: Seq<char>) -> bool {
    exists|m: int| 0 <= m < items.len() && #[trigger] items[m].0@ == key
}

/// A key that no member carries is not in the object.
proof fn lemma_held_key(items: Seq<(String, serde_json::Value)>, key: Seq<char>)
    ensures
        members_hold(items).contains_key(key) ==> carried(items, key),
    decreases items.len(),
{
    if items.len() > 0 && members_hold(items).contains_key(key) {
        if items.last().0@ == key {
            assert(items[items.len() - 1].0@ == key);
        } else {
            let rest = items.drop_last();
            lemma_held_key(rest, key);
            let m = choose|m: int| 0 <= m < rest.len() && #[trigger] rest[m].0@ == key;
            assert(items[m].0@ == key);
        }
    }
}

/// A `serde_json::Value` taken apart by one level.
enum Opened {
    Null,
    Bool(bool),
    Unsigned(u64),
    Negative(i64),
    Real(serde_json::Value),
    Text(String),
    Array(Vec<serde_json::Value>),
    Object(Vec<(String, serde_json::Value)>),
}

/// Tells the variants of `serde_json::Value` apart and hands out what they
/// carry, with the kind of a number from `Number::as_u64` and `Number::as_i64`.
/// The parts hold what the value holds, and no key of an object comes twice.
#[verifier::external_body]
fn open(value: serde_json::Value) -> (opened: Opened)
    ensures
        holds(value) == match opened {
            Opened::Null => Val::Null,
            Opened::Bool(b) => Val::Bool(b),
            Opened::Unsigned(n) => Val::Unsigned(n),
            Opened::Negative(n) => signed(n),
            Opened::Real(v) => holds(v),
            Opened::Text(s) => Val::Text(s@),
            Opened::Array(items) => Val::Array(all_hold(items@)),
            Opened::Object(items) => Val::Object(members_hold(items@)),
        },
        opened matches Opened::Real(v) ==> holds(v) is Real,
        opened matches Opened::Object(items) ==> unique_keys(items@),
{
    match value {
        serde_json::Value::Null => Opened::Null,
        serde_json::Value::Bool(b) => Opened::Bool(b),
        serde_json::Value::Number(n) => match (n.as_u64(), n.as_i64()) {
            (Some(u), _) => Opened::Unsigned(u),
            (None, Some(i)) => Opened::Negative(i),
            (None, None) => Opened::Real(serde_json::Value::Number(n)),
        },
        serde_json::Value::String(s) => Opened::Text(s),
        serde_json::Value::Array(items) => Opened::Array(items),
        serde_json::Value::Object(m) => Opened::Object(m.into_iter().collect()),
    }
}

/// `serde_json::Value::Null`, which holds null.
#[verifier::external_body]
fn null_value() -> (value: serde_json::Value)
    ensures
        holds(value) == Val::Null,
{
    serde_json::Value::Null
}

/// `serde_json::Value::Bool`, which holds the truth value.
#[verifier::external_body]
fn bool_value(b: bool) -> (value: serde_json::Value)
    ensures
        holds(value) == Val::Bool(b),
{
    serde_json::Value::Bool(b)
}

/// `serde_json::Value::from` of a `u64`, which holds the number.
#[verifier::external_body]
fn unsigned_value(n: u64) -> (value: serde_json::Value)
    ensures
        holds(value) == Val::Unsigned(n),
{
    serde_json::Value::from(n)
}

/// `serde_json::Value::from` of an `i64`, which holds the number; a nonnegative
/// one is held as an unsigned integer.
#[verifier::external_body]
fn signed_value(n: i64) -> (value: serde_json::Value)
    ensures
        holds(value) == signed(n),
{
    serde_json::Value::from(n)
}

/// `serde_json::Value::String`, which holds the text.
#[verifier::external_body]
fn text_value(text: String) -> (value: serde_json::Value)
    ensures
        holds(value) == Val::Text(text@),
{
    serde_json::Value::String(text)
}

/// `serde_json::Value::Array`, which holds what its elements hold.
#[verifier::external_body]
fn array_value(items: Vec<serde_json::Value>) -> (value: serde_json::Value)
    ensures
        holds(value) == Val::Array(all_hold(items@)),
{
    serde_json::Value::Array(items)
}

/// `serde_json::Value::Object` of a map that is collected from its members, no two
/// of them under one key, which holds what they hold.
#[verifier::external_body]
fn object_value(items: Vec<(String, serde_json::Value)>) -> (value: serde_json::Value)
    requires
        unique_keys(items@),
    ensures
        holds(value) == Val::Object(members_hold(items@)),
{
    serde_json::Value::Object(items.into_iter().collect())
}

/// `serde_json::Value::clone`, which holds the same.
#[verifier::external_body]
fn duplicate(value: &serde_json::Value) -> (copied: serde_json::Value)
    ensures
        holds(copied) == holds(*value),
{
    value.clone()
}

/// `==` on two `serde_json::Value`s. Stated of two real numbers: they are equal
/// where their texts are, and the two zeros are equal.
#[verifier::external_body]
fn equal_values(a: &serde_json::Value, b: &serde_json::Value) -> (equal: bool)
    ensures
        holds(*a) is Real && holds(*b) is Real ==> equal == same(holds(*a), holds(*b)),
{
    a == b
}

/// A number that is no 64-bit integer.
#[derive(Debug)]
pub struct Real {
    value: serde_json::Value,
}

impl Real {
    /// The decimal text of the number.
    pub closed spec fn view(&self) -> Seq<char> {
        holds(self.value)->Real_0
    }

    #[verifier::type_invariant]
    spec fn is_real(self) -> bool {
        holds(self.value) is Real
    }

    /// Equality of numbers.
    pub fn same(&self, other: &Real) -> (equal: bool)
        ensures
            equal == (self@ == other@ || (zero_text(self@) && zero_text(other@))),
    {
        proof {
            use_type_invariant(self);
            use_type_invariant(other);
        }
        equal_values(&self.value, &other.value)
    }

    /// The same number again.
    pub fn copy(&self) -> (copied: Real)
        ensures
            copied@ == self@,
    {
        proof {
            use_type_invariant(self);
        }
        Real { value: duplicate(&self.value) }
    }
}

/// The value that a `serde_json::Value` holds.
pub fn json_of(value: serde_json::Value) -> (json: Json)
    ensures
        json@ == holds(value),
    decreases holds(value),
{
    match open(value) {
        Opened::Null => Json::Null,
        Opened::Bool(b) => Json::Bool(b),
        Opened::Unsigned(n) => Json::Unsigned(n),
        Opened::Negative(n) => Json::Negative(n),
        Opened::Real(v) => Json::Real(Real { value: v }),
        Opened::Text(s) => Json::Text(s),
        Opened::Array(items) => {
            let ghost all = items@;
            let mut out: Vec<Json> = Vec::new();
            assert(all_hold(all.take(0)) =~= Seq::<Val>::empty());
            for item in it: items
                invariant
                    it.seq() == all,
                    holds(value) == Val::Array(all_hold(all)),
                    elements(out@) == all_hold(all.take(it.index() as int)),
            {
                let ghost k = it.index() as int;
                proof {
                    assert(all_hold(all)[k] == holds(item));
                    assert(decreases_to!(holds(value) => holds(value)->Array_0));
                    assert(decreases_to!(holds(value)->Array_0 => holds(value)->Array_0[k]));
                }
                let ghost before = out@;
                out.push(json_of(item));
                proof {
                    assert(out@.drop_last() =~= before);
                    assert(all_hold(all.take(k + 1)) =~= all_hold(all.take(k)).push(holds(item)));
                }
            }
            assert(all.take(all.len() as int) =~= all);
            Json::Array(out)
        },
        Opened::Object(items) => {
            let ghost all = items@;
            let mut out: Vec<(String, Json)> = Vec::new();
            for item in it: items
                invariant
                    it.seq() == all,
                    holds(value) == Val::Object(members_hold(all)),
                    unique_keys(all),
                    members(out@) == members_hold(all.take(it.index() as int)),
            {
                let ghost k = it.index() as int;
                proof {
                    lemma_members_hold(all, k);
                    assert(decreases_to!(holds(value) => holds(value)->Object_0));
                    assert(decreases_to!(holds(value)->Object_0 => holds(value)->Object_0[all[k].0@]));
                }
                let (key, inner) = item;
                let ghost before = out@;
                out.push((key, json_of(inner)));
                proof {
                    assert(out@.drop_last() =~= before);
                    assert(all.take(k + 1).drop_last() =~= all.take(k));
                }
            }
            assert(all.take(all.len() as int) =~= all);
            Json::Object(out)
        },
    }
}

/// Whether a later member carries the key of a member.
fn comes_again(items: &Vec<(String, Json)>, i: usize) -> (again: bool)
    requires
        i < items@.len(),
    ensures
        again == !counts(items@, i as int),
{
    let n: usize = items.len();
    let mut j: usize = i + 1;
    while j < n
        invariant
            n == items@.len(),
            i < j <= n,
            forall|k: int| i < k < j ==> #[trigger] items@[k].0@ != items@[i as int].0@,
        decreases n - j,
    {
        if same_text(items[j].0.as_str(), items[i].0.as_str()) {
            return true;
        }
        j += 1;
    }
    false
}

/// Whether a member stands for one that counts among the first members.
spec fn taken(items: Seq<(String, Json)>, n: int, member: (String, serde_json::Value)) -> bool {
    exists|j: int|
        0 <= j < n && counts(items, j) && (#[trigger] items[j]).0@ == member.0@ && items[j].1@ == holds(
            member.1,
        )
}

/// One more member that counts is taken.
proof fn lemma_taken(
    items: Seq<(String, Json)>,
    i: int,
    before: Seq<(String, serde_json::Value)>,
    after: Seq<(String, serde_json::Value)>,
)
    requires
        0 <= i < items.len(),
        counts(items, i),
        unique_keys(before),
        forall|m: int| 0 <= m < before.len() ==> taken(items, i, #[trigger] before[m]),
        after.len() == before.len() + 1,
        after.drop_last() == before,
        after.last().0@ == items[i].0@,
        holds(after.last().1) == items[i].1@,
    ensures
        unique_keys(after),
        forall|m: int| 0 <= m < after.len() ==> taken(items, i + 1, #[trigger] after[m]),
        forall|key: Seq<char>| #[trigger] carried(before, key) ==> carried(after, key),
        carried(after, items[i].0@),
{
    assert forall|m: int| 0 <= m < before.len() implies #[trigger] after[m] == before[m] by {
        assert(after.drop_last()[m] == after[m]);
    }
    assert forall|m: int| 0 <= m < after.len() implies taken(items, i + 1, #[trigger] after[m]) by {
        if m < before.len() {
            assert(taken(items, i, before[m]));
        } else {
            assert(items[i].0@ == after[m].0@);
        }
    }
    assert forall|key: Seq<char>| #[trigger] carried(before, key) implies carried(after, key) by {
        let m = choose|m: int| 0 <= m < before.len() && #[trigger] before[m].0@ == key;
        assert(after[m].0@ == key);
    }
    assert(after[before.len() as int].0@ == items[i].0@);
    assert forall|a: int, b: int| 0 <= a < b < after.len() implies #[trigger] after[a].0@
        != #[trigger] after[b].0@ by {
        assert(after[a] == before[a]);
        if b < before.len() {
            assert(after[b] == before[b]);
        } else {
            assert(taken(items, i, before[a]));
            let j = choose|j: int|
                0 <= j < i && counts(items, j) && (#[trigger] items[j]).0@ == before[a].0@
                    && items[j].1@ == holds(before[a].1);
            assert(items[i].0@ != items[j].0@);
        }
    }
}

/// The members that count make up the object.
proof fn lemma_all_taken(items: Seq<(String, Json)>, out: Seq<(String, serde_json::Value)>)
    requires
        unique_keys(out),
        forall|m: int| 0 <= m < out.len() ==> taken(items, items.len() as int, #[trigger] out[m]),
        forall|j: int|
            0 <= j < items.len() && counts(items, j) ==> carried(out, #[trigger] items[j].0@),
    ensures
        members_hold(out) == members(items),
{
    let (a, b) = (members_hold(out), members(items));
    assert forall|k: Seq<char>| #[trigger] a.dom().contains(k) implies b.dom().contains(k) && a[k]
        == b[k] by {
        lemma_held_key(out, k);
        let m = choose|m: int| 0 <= m < out.len() && #[trigger] out[m].0@ == k;
        assert(taken(items, items.len() as int, out[m]));
        let j = choose|j: int|
            0 <= j < items.len() && counts(items, j) && (#[trigger] items[j]).0@ == out[m].0@
                && items[j].1@ == holds(out[m].1);
        lemma_member(items, k, j);
        lemma_members_hold(out, m);
    }
    assert forall|k: Seq<char>| #[trigger] b.dom().contains(k) implies a.dom().contains(k) by {
        lemma_counting_member(items, k);
        let j = choose|j: int|
            0 <= j < items.len() && #[trigger] items[j].0@ == k && counts(items, j);
        assert(carried(out, items[j].0@));
        let m = choose|m: int| 0 <= m < out.len() && #[trigger] out[m].0@ == k;
        lemma_members_hold(out, m);
    }
    assert(a.dom() =~= b.dom());
    assert(a =~= b);
}

/// The `serde_json::Value` that holds a value. Of the members of an object those
/// that count are in it.
pub fn value_of(json: &Json) -> (value: serde_json::Value)
    ensures
        holds(value) == json@,
    decreases json,
{
    match json {
        Json::Null => null_value(),
        Json::Bool(b) => bool_value(*b),
        Json::Unsigned(n) => unsigned_value(*n),
        Json::Negative(n) => signed_value(*n),
        Json::Real(r) => {
            proof {
                use_type_invariant(r);
            }
            duplicate(&r.value)
        },
        Json::Text(s) => text_value(s.clone()),
        Json::Array(items) => {
            let mut out: Vec<serde_json::Value> = Vec::new();
            let mut i: usize = 0;
            assert(all_hold(out@) =~= elements(items@.take(0)));
            while i < items.len()
                invariant
                    i <= items@.len(),
                    *json == Json::Array(*items),
                    all_hold(out@) == elements(items@.take(i as int)),
                decreases items@.len() - i,
            {
                assert(decreases_to!(*json => json->Array_0));
                assert(decreases_to!(items => items@));
                assert(decreases_to!(items@ => items@[i as int]));
                let ghost before = out@;
                let item = value_of(&items[i]);
                out.push(item);
                assert(all_hold(out@) =~= all_hold(before).push(holds(item)));
                assert(items@.take(i + 1).drop_last() =~= items@.take(i as int));
                i += 1;
            }
            assert(items@.take(i as int) =~= items@);
            array_value(out)
        },
        Json::Object(items) => {
            let mut out: Vec<(String, serde_json::Value)> = Vec::new();
            let mut i: usize = 0;
            while i < items.len()
                invariant
                    i <= items@.len(),
                    *json == Json::Object(*items),
                    unique_keys(out@),
                    forall|m: int|
                        0 <= m < out@.len() ==> taken(items@, i as int, #[trigger] out@[m]),
                    forall|j: int|
                        0 <= j < i && counts(items@, j) ==> carried(out@, #[trigger] items@[j].0@),
                decreases items@.len() - i,
            {
                assert(decreases_to!(*json => json->Object_0));
                assert(decreases_to!(items => items@));
                assert(decreases_to!(items@ => items@[i as int]));
                assert(decreases_to!(items@[i as int] => items@[i as int].1));
                let ghost before = out@;
                if comes_again(items, i) {
                    proof {
                        assert forall|m: int| 0 <= m < out@.len() implies taken(
                            items@,
                            i + 1,
                            #[trigger] out@[m],
                        ) by {
                            assert(taken(items@, i as int, out@[m]));
                        }
                    }
                } else {
                    out.push((items[i].0.clone(), value_of(&items[i].1)));
                    proof {
                        assert(out@.drop_last() =~= before);
                        lemma_taken(items@, i as int, before, out@);
                    }
                }
                i += 1;
            }
            proof {
                lemma_all_taken(items@, out@);
            }
            object_value(out)
        },
    }
}

/// The value that `serde_json::from_str` reads from a text, if it reads one.
pub uninterp spec fn parsed(text: Seq<char>) -> Option<Val>;

/// `serde_json::from_str` into a `serde_json::Value`. What a text holds is named
/// [`parsed`]: it is a function of the text alone.
#[verifier::external_body]
fn value_in(text: &str) -> (value: Option<serde_json::Value>)
    ensures
        match value {
            Some(v) => parsed(text@) == Some(holds(v)),
            None => parsed(text@) is None,
        },
{
    serde_json::from_str(text).ok()
}

/// A value without real numbers, in which arrays and objects are nested at most
/// so deep. `serde_json` reads back the text of such a value up to its limit of
/// 127 levels; of a real number it may read a neighbour.
pub open spec fn plain(value: Val, levels: nat) -> bool
    decreases value,
{
    match value {
        Val::Real(_) => false,
        Val::Array(items) => levels > 0 && forall|i: int|
            0 <= i < items.len() ==> plain(#[trigger] items[i], (levels - 1) as nat),
        Val::Object(m) => levels > 0 && forall|k: Seq<char>|
            m.contains_key(k) ==> plain(#[trigger] m[k], (levels - 1) as nat),
        _ => true,
    }
}

/// The compact text that `serde_json::to_string` writes for a value, if it
/// writes one.
pub uninterp spec fn compact(value: Val) -> Option<Seq<char>>;

/// `serde_json::to_string` of a `serde_json::Value`. The text is named
/// [`compact`]: objects are written in the order of their keys, so values that
/// hold the same have the same text. It is one line, since no space is written
/// between the parts of a value and control characters are written as escapes.
/// There always is one: the keys of an object are texts, and writing into memory
/// does not fail. `serde_json::from_str` reads a plain value back from it.
#[verifier::external_body]
fn text_of(value: &serde_json::Value) -> (text: Option<String>)
    ensures
        text is Some,
        compact(holds(*value)) == Some(text->0@),
        one_line(text->0@),
        plain(holds(*value), 127) ==> parsed(text->0@) == Some(holds(*value)),
{
    serde_json::to_string(value).ok()
}

/// The indented text that `serde_json::to_string_pretty` writes for a value, if
/// it writes one.
pub uninterp spec fn indented(value: Val) -> Option<Seq<char>>;

/// `serde_json::to_string_pretty` of a `serde_json::Value`. The text is named
/// [`indented`]. There always is one, as for the compact text.
#[verifier::external_body]
fn pretty_text_of(value: &serde_json::Value) -> (text: Option<String>)
    ensures
        text is Some,
        indented(holds(*value)) == Some(text->0@),
{
    serde_json::to_string_pretty(value).ok()
}

/// Reads a value from a text.
pub fn read(text: &str) -> (value: Option<Json>)
    ensures
        match value {
            Some(v) => parsed(text@) == Some(v@),
            None => parsed(text@) is None,
        },
{
    match value_in(text) {
        Some(v) => Some(json_of(v)),
        None => None,
    }
}

/// Writes a value as compact text.
pub fn render(json: &Json) -> (text: Option<String>)
    ensures
        text is Some,
        compact(json@) == Some(text->0@),
        one_line(text->0@),
        plain(json@, 127) ==> parsed(text->0@) == Some(json@),
{
    text_of(&value_of(json))
}

/// Writes a value as indented text.
pub fn render_pretty(json: &Json) -> (text: Option<String>)
    ensures
        text is Some,
        indented(json@) == Some(text->0@),
{
    pretty_text_of(&value_of(json))
}

} // verus!
