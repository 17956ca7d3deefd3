//! The functions that the clients offer.

use crate::json::{elements, Json, Val};
use crate::serial::{indented, render_pretty};
use crate::text::same_text;
use vstd::prelude::*;

verus! {

/// A function of a client.
#[derive(Debug)]
pub struct Tool {
    pub f: String,
    pub description: String,
}

/// The functions of a client.
#[derive(Debug)]
pub struct ToolSet {
    pub who: String,
    pub tools: Vec<Tool>,
}

/// The model of a function of a client.
pub struct ListedV {
    pub who: Seq<char>,
    pub f: Seq<char>,
    pub description: Seq<char>,
}

/// The model of the functions of a client.
pub open spec fn offered(set: ToolSet) -> Seq<ListedV> {
    set.tools@.map_values(
        |t: Tool| ListedV { who: set.who@, f: t.f@, description: t.description@ },
    )
}

/// All functions of some clients, one after the other.
pub open spec fn all_offered(sets: Seq<Seq<ListedV>>) -> Seq<ListedV>
    decreases sets.len(),
{
    if sets.len() == 0 {
        Seq::empty()
    } else {
        all_offered(sets.drop_last()) + sets.last()
    }
}

/// Whether a function is in a list, under its client and its name.
pub open spec fn listed(list: Seq<ListedV>, tool: ListedV) -> bool {
    exists|i: int|
        0 <= i < list.len() && (#[trigger] list[i]).who == tool.who && list[i].f == tool.f
}

/// The first of the functions under each client and name.
pub open spec fn firsts(all: Seq<ListedV>) -> Seq<ListedV>
    decreases all.len(),
{
    if all.len() == 0 {
        Seq::empty()
    } else {
        let earlier = firsts(all.drop_last());
        if listed(earlier, all.last()) {
            earlier
        } else {
            earlier.push(all.last())
        }
    }
}

/// No function is listed twice, and every function is listed: clients that share
/// a name are shown as the union of what they offer.
pub proof fn law_every_function_is_listed_once(all: Seq<ListedV>)
    ensures
        forall|i: int, j: int|
            0 <= i < j < firsts(all).len() ==> !((#[trigger] firsts(all)[i]).who == (
            #[trigger] firsts(all)[j]).who && firsts(all)[i].f == firsts(all)[j].f),
        forall|k: int| 0 <= k < all.len() ==> listed(firsts(all), #[trigger] all[k]),
        forall|i: int| 0 <= i < firsts(all).len() ==> all.contains(#[trigger] firsts(all)[i]),
    decreases all.len(),
{
    if all.len() > 0 {
        let rest = all.drop_last();
        let (earlier, now) = (firsts(rest), firsts(all));
        law_every_function_is_listed_once(rest);
        assert forall|k: int| 0 <= k < all.len() implies listed(now, #[trigger] all[k]) by {
            if k < rest.len() {
                assert(listed(earlier, rest[k]));
                let i = choose|i: int|
                    0 <= i < earlier.len() && (#[trigger] earlier[i]).who == rest[k].who
                        && earlier[i].f == rest[k].f;
                assert(now[i] == earlier[i]);
            } else if !listed(earlier, all.last()) {
                assert(now[earlier.len() as int] == all.last());
            }
        }
        assert forall|i: int| 0 <= i < now.len() implies all.contains(#[trigger] now[i]) by {
            if i < earlier.len() {
                assert(rest.contains(earlier[i]));
                let k = rest.index_of(earlier[i]);
                assert(all[k] == now[i]);
            } else {
                assert(all[all.len() - 1] == now[i]);
            }
        }
    }
}

/// A function as it is listed.
pub open spec fn listing(tool: ListedV) -> Val {
    Val::empty_object().with("who"@, Val::Text(tool.who)).with("f"@, Val::Text(tool.f)).with(
        "description"@,
        Val::Text(tool.description),
    )
}

/// Functions as they are listed.
pub open spec fn listings(tools: Seq<ListedV>) -> Seq<Val> {
    tools.map_values(|t: ListedV| listing(t))
}

/// The models of the functions of some clients.
pub open spec fn sets_of(sets: Seq<&ToolSet>) -> Seq<Seq<ListedV>> {
    sets.map_values(|s: &ToolSet| offered(*s))
}

/// What is known of a function that was listed.
struct Seen<'a> {
    who: &'a str,
    f: &'a str,
}

spec fn seen_in(seen: Seq<Seen>, list: Seq<ListedV>) -> bool {
    &&& seen.len() == list.len()
    &&& forall|i: int|
        0 <= i < seen.len() ==> (#[trigger] seen[i]).who@ == list[i].who && seen[i].f@ == list[i].f
}

fn is_listed(seen: &Vec<Seen>, who: &str, f: &str, list: Ghost<Seq<ListedV>>, tool: Ghost<
    ListedV,
>) -> (is: bool)
    requires
        seen_in(seen@, list@),
        tool@.who == who@,
        tool@.f == f@,
    ensures
        is == listed(list@, tool@),
{
    let mut i: usize = 0;
    while i < seen.len()
        invariant
            i <= seen@.len(),
            seen_in(seen@, list@),
            tool@.who == who@,
            tool@.f == f@,
            forall|j: int|
                0 <= j < i ==> !((#[trigger] list@[j]).who == tool@.who && list@[j].f == tool@.f),
        decreases seen@.len() - i,
    {
        assert(seen@[i as int].who@ == list@[i as int].who);
        if same_text(seen[i].who, who) && same_text(seen[i].f, f) {
            return true;
        }
        i += 1;
    }
    false
}

/// The functions of all clients, each listed once under the name of its client.
/// Several clients of the same name on different hosts offer the same functions,
/// and the caller picks the host.
pub fn collect_tools(sets: &Vec<&ToolSet>) -> (list: Vec<Json>)
    ensures
        elements(list@) == listings(firsts(all_offered(sets_of(sets@)))),
{
    let ghost models = sets_of(sets@);
    let mut seen: Vec<Seen> = Vec::new();
    let mut list: Vec<Json> = Vec::new();
    let mut i: usize = 0;
    proof {
        assert(models.take(0) =~= Seq::<Seq<ListedV>>::empty());
        assert(listings(firsts(all_offered(models.take(0)))) =~= elements(list@));
    }
    while i < sets.len()
        invariant
            i <= sets@.len(),
            models == sets_of(sets@),
            elements(list@) == listings(firsts(all_offered(models.take(i as int)))),
            seen_in(seen@, firsts(all_offered(models.take(i as int)))),
        decreases sets@.len() - i,
    {
        let set: &ToolSet = sets[i];
        let ghost front = all_offered(models.take(i as int));
        let ghost own = offered(*set);
        let mut k: usize = 0;
        proof {
            assert(own == models[i as int]);
            assert(front + own.take(0) =~= front);
        }
        while k < set.tools.len()
            invariant
                k <= set.tools@.len(),
                own == offered(*set),
                elements(list@) == listings(firsts(front + own.take(k as int))),
                seen_in(seen@, firsts(front + own.take(k as int))),
            decreases set.tools@.len() - k,
        {
            let tool: &Tool = &set.tools[k];
            let ghost model = own[k as int];
            let ghost sofar = front + own.take(k as int);
            proof {
                assert((front + own.take(k + 1)).drop_last() =~= sofar);
                assert((front + own.take(k + 1)).last() == model);
            }
            if !is_listed(
                &seen,
                set.who.as_str(),
                tool.f.as_str(),
                Ghost(firsts(sofar)),
                Ghost(model),
            ) {
                seen.push(Seen { who: set.who.as_str(), f: tool.f.as_str() });
                let ghost prior = list@;
                list.push(
                    Json::object().with("who", Json::text(set.who.as_str())).with(
                        "f",
                        Json::text(tool.f.as_str()),
                    ).with("description", Json::text(tool.description.as_str())),
                );
                proof {
                    assert(list@.drop_last() =~= prior);
                    assert(listings(firsts(sofar).push(model)) =~= listings(firsts(sofar)).push(
                        listing(model),
                    ));
                }
            }
            k += 1;
        }
        proof {
            assert(own.take(k as int) =~= own);
            assert(models.take(i + 1).drop_last() =~= models.take(i as int));
            assert(models.take(i + 1).last() == own);
        }
        i += 1;
    }
    assert(models.take(i as int) =~= models);
    list
}

/// The text of a listing.
pub open spec fn listing_text(all: Seq<ListedV>) -> Seq<char> {
    match indented(Val::Array(listings(firsts(all)))) {
        Some(text) => text,
        None => "[]"@,
    }
}

/// The text of the functions of all clients.
pub fn describe_tools(sets: &Vec<&ToolSet>) -> (text: String)
    ensures
        text@ == listing_text(all_offered(sets_of(sets@))),
{
    match render_pretty(&Json::Array(collect_tools(sets))) {
        Some(text) => text,
        None => "[]".to_owned(),
    }
}

/// The functions of several clients are seen as they are, each set at its place.
pub proof fn law_sets_are_seen_as_they_are(sets: Seq<&ToolSet>)
    ensures
        sets_of(sets).len() == sets.len(),
        forall|i: int| 0 <= i < sets.len() ==> #[trigger] sets_of(sets)[i] == offered(*sets[i]),
{
}

/// Every function of every client is listed under the name of its client, whatever
/// the other clients offer, and what is listed is some client's.
pub proof fn law_every_client_is_listed(sets: Seq<Seq<ListedV>>)
    ensures
        forall|i: int, k: int|
            0 <= i < sets.len() && 0 <= k < sets[i].len() ==> listed(
                firsts(all_offered(sets)),
                #[trigger] sets[i][k],
            ),
        forall|n: int|
            0 <= n < all_offered(sets).len() ==> is_in_some(
                sets,
                #[trigger] all_offered(sets)[n],
            ),
    decreases sets.len(),
{
    let all = all_offered(sets);
    law_every_function_is_listed_once(all);
    if sets.len() > 0 {
        let rest = sets.drop_last();
        let fewer = all_offered(rest);
        law_every_client_is_listed(rest);
        assert forall|i: int, k: int| 0 <= i < sets.len() && 0 <= k < sets[i].len() implies listed(
            firsts(all),
            #[trigger] sets[i][k],
        ) by {
            lemma_offered(sets, i, k);
            let n = all.index_of(sets[i][k]);
            assert(listed(firsts(all), all[n]));
        }
        assert forall|n: int| 0 <= n < all.len() implies is_in_some(sets, #[trigger] all[n]) by {
            if n < fewer.len() {
                assert(is_in_some(rest, fewer[n]));
                let i = choose|i: int| 0 <= i < rest.len() && (#[trigger] rest[i]).contains(fewer[n]);
                assert(sets[i].contains(all[n]));
            } else {
                assert(sets[sets.len() - 1][n - fewer.len()] == all[n]);
                assert(sets[sets.len() - 1].contains(all[n]));
            }
        }
    }
}

/// Whether a function is in one of some sets.
pub open spec fn is_in_some(sets: Seq<Seq<ListedV>>, tool: ListedV) -> bool {
    exists|i: int| 0 <= i < sets.len() && (#[trigger] sets[i]).contains(tool)
}

proof fn lemma_offered(sets: Seq<Seq<ListedV>>, i: int, k: int)
    requires
        0 <= i < sets.len(),
        0 <= k < sets[i].len(),
    ensures
        all_offered(sets).contains(sets[i][k]),
    decreases sets.len(),
{
    let rest = sets.drop_last();
    let all = all_offered(sets);
    let fewer = all_offered(rest);
    if i < rest.len() {
        lemma_offered(rest, i, k);
        let n = fewer.index_of(rest[i][k]);
        assert(all[n] == sets[i][k]);
    } else {
        assert(all[fewer.len() + k] == sets[i][k]);
    }
}

} // verus!
