//! From the entries of a conversation to what clients see of them.
//!
//! Side chains, notes and entries without content are left out.

use crate::entry::{
    AssistantContentBlock, AssistantEntry, Entry, ToolResultBlock, ToolResultContent, UserContent,
    UserContentBlock, UserEntry,
};
use crate::json::{lemma_key_of_member, members, Json, Val};
use crate::protocol::{block_views, text_view, BlockV, ContentBlock, EntryV, NormalizedEntry};
use crate::text::{
    before, byte_len, cuts, join, join_texts, law_a_text_is_cut_as_late_as_can_be,
    law_texts_are_ordered, law_the_order_carries_over, precedes, same_text, texts, truncate,
    truncated,
};
use vstd::prelude::*;

verus! {

// ---------------------------------------------------------------------------
// The summary of the input of a tool
// ---------------------------------------------------------------------------

/// Texts in ascending order, none of them twice.
pub open spec fn ascending(keys: Seq<Seq<char>>) -> bool {
    forall|i: int, j: int| 0 <= i < j < keys.len() ==> before(#[trigger] keys[i], #[trigger] keys[j])
}

/// The keys of an object, in ascending order.
pub open spec fn lists(keys: Seq<Seq<char>>, m: Map<Seq<char>, Val>) -> bool {
    &&& ascending(keys)
    &&& forall|k: Seq<char>| m.contains_key(k) <==> #[trigger] keys.contains(k)
}

/// The keys of an object are listed in one way only.
pub proof fn law_keys_are_listed_in_one_way(
    a: Seq<Seq<char>>,
    b: Seq<Seq<char>>,
    m: Map<Seq<char>, Val>,
)
    requires
        lists(a, m),
        lists(b, m),
    ensures
        a == b,
{
    lemma_one_order(a, b);
}

proof fn lemma_one_order(a: Seq<Seq<char>>, b: Seq<Seq<char>>)
    requires
        ascending(a),
        ascending(b),
        forall|k: Seq<char>| #[trigger] a.contains(k) <==> b.contains(k),
    ensures
        a == b,
    decreases a.len(),
{
    if a.len() == 0 {
        if b.len() > 0 {
            assert(b.contains(b[0]));
            assert(a.contains(b[0]));
        }
        assert(a =~= b);
    } else {
        assert(a.contains(a[a.len() - 1]));
        let (x, y) = (a.last(), b.last());
        assert(b.contains(x));
        let i = b.index_of(x);
        assert(b.contains(y)) by {
            assert(b[b.len() - 1] == y);
        }
        assert(a.contains(y));
        let j = a.index_of(y);
        law_texts_are_ordered(x, y);
        assert(x == y) by {
            if x != y {
                assert(i < b.len() - 1);
                assert(before(b[i], b[b.len() - 1]));
                assert(j < a.len() - 1);
                assert(before(a[j], a[a.len() - 1]));
            }
        }
        let (p, q) = (a.drop_last(), b.drop_last());
        assert forall|k: Seq<char>| #[trigger] p.contains(k) <==> q.contains(k) by {
            lemma_all_but_the_last(a, k);
            lemma_all_but_the_last(b, k);
            assert(a.contains(k) <==> b.contains(k));
        }
        lemma_one_order(p, q);
        assert(a =~= p.push(x));
        assert(b =~= q.push(y));
    }
}

proof fn lemma_all_but_the_last(a: Seq<Seq<char>>, k: Seq<char>)
    requires
        ascending(a),
        a.len() > 0,
    ensures
        a.drop_last().contains(k) <==> a.contains(k) && k != a.last(),
{
    let p = a.drop_last();
    if p.contains(k) {
        let i = p.index_of(k);
        assert(a[i] == k);
        assert(before(a[i], a[a.len() - 1]));
        law_texts_are_ordered(k, k);
    }
    if a.contains(k) && k != a.last() {
        let i = a.index_of(k);
        assert(p[i] == k);
    }
}

/// The keys of an object, in ascending order.
pub open spec fn sorted_keys(m: Map<Seq<char>, Val>) -> Seq<Seq<char>> {
    choose|keys: Seq<Seq<char>>| lists(keys, m)
}

/// What is shown of the input of a tool: its main argument, or else the names of
/// its arguments.
pub open spec fn summary(tool: Seq<char>, input: Val) -> Seq<char> {
    if tool == "Bash"@ {
        input.named("command"@)
    } else if tool == "Read"@ || tool == "Write"@ || tool == "Edit"@ {
        input.named("file_path"@)
    } else if tool == "Glob"@ || tool == "Grep"@ {
        input.named("pattern"@)
    } else if tool == "Task"@ {
        match input.text_at("prompt"@) {
            Some(s) => truncated(s, 80),
            None => Seq::empty(),
        }
    } else {
        match input {
            Val::Object(m) => join(sorted_keys(m), ", "@),
            _ => Seq::empty(),
        }
    }
}

/// Puts a key at its place among the others, unless it is there.
fn place_key(keys: &mut Vec<String>, key: &str)
    requires
        ascending(texts(old(keys)@)),
    ensures
        ascending(texts(final(keys)@)),
        forall|k: Seq<char>| #[trigger]
            texts(final(keys)@).contains(k) <==> texts(old(keys)@).contains(k) || k == key@,
{
    let ghost start = texts(keys@);
    let mut i: usize = 0;
    while i < keys.len() && precedes(keys[i].as_str(), key)
        invariant
            i <= keys@.len(),
            start == texts(keys@),
            keys@ == old(keys)@,
            forall|j: int| 0 <= j < i ==> before(#[trigger] start[j], key@),
        decreases keys@.len() - i,
    {
        assert(start[i as int] == keys@[i as int]@);
        i += 1;
    }
    if i < keys.len() && same_text(keys[i].as_str(), key) {
        assert(start[i as int] == key@);
        assert(start.contains(key@));
    } else {
        let ghost prior = keys@;
        keys.insert(i, key.to_owned());
        proof {
            let after = texts(keys@);
            assert(after =~= start.insert(i as int, key@));
            assert forall|a: int, b: int| 0 <= a < b < after.len() implies before(
                #[trigger] after[a],
                #[trigger] after[b],
            ) by {
                if i < start.len() {
                    law_texts_are_ordered(start[i as int], key@);
                    assert(start[i as int] == prior[i as int]@);
                    assert(before(key@, start[i as int]));
                }
                if a < i && b == i {
                } else if a == i {
                    if b > i + 1 {
                        assert(before(start[i as int], start[b - 1]));
                        law_the_order_carries_over(key@, start[i as int], start[b - 1]);
                    }
                } else {
                    let x = if a < i {
                        a
                    } else {
                        a - 1
                    };
                    let y = if b < i {
                        b
                    } else {
                        b - 1
                    };
                    assert(before(start[x], start[y]));
                }
            }
            assert forall|k: Seq<char>| #[trigger] after.contains(k) <==> start.contains(k) || k
                == key@ by {
                if after.contains(k) {
                    let n = after.index_of(k);
                    if n < i {
                        assert(start[n] == k);
                    } else if n > i {
                        assert(start[n - 1] == k);
                    }
                }
                if start.contains(k) {
                    let n = start.index_of(k);
                    if n < i {
                        assert(after[n] == k);
                    } else {
                        assert(after[n + 1] == k);
                    }
                }
                if k == key@ {
                    assert(after[i as int] == k);
                }
            }
        }
    }
}

/// The names of the arguments, in ascending order.
fn argument_names(input: &Json) -> (text: String)
    ensures
        text@ == match input@ {
            Val::Object(m) => join(sorted_keys(m), ", "@),
            _ => Seq::empty(),
        },
{
    match input {
        Json::Object(items) => {
            let mut keys: Vec<String> = Vec::new();
            let mut i: usize = 0;
            assert(texts(keys@) =~= Seq::<Seq<char>>::empty());
            while i < items.len()
                invariant
                    i <= items@.len(),
                    ascending(texts(keys@)),
                    forall|k: Seq<char>| #[trigger]
                        texts(keys@).contains(k) <==> exists|j: int|
                            0 <= j < i && #[trigger] items@[j].0@ == k,
                decreases items@.len() - i,
            {
                let ghost prior = texts(keys@);
                place_key(&mut keys, items[i].0.as_str());
                proof {
                    assert forall|k: Seq<char>| #[trigger] texts(keys@).contains(k) <==> exists|
                        j: int,
                    | 0 <= j < i + 1 && #[trigger] items@[j].0@ == k by {
                        assert(texts(keys@).contains(k) <==> prior.contains(k) || k
                            == items@[i as int].0@);
                        if prior.contains(k) {
                            let j = choose|j: int| 0 <= j < i && #[trigger] items@[j].0@ == k;
                            assert(items@[j].0@ == k);
                        }
                    }
                }
                i += 1;
            }
            proof {
                let m = members(items@);
                assert forall|k: Seq<char>| m.contains_key(k) <==> #[trigger] texts(
                    keys@,
                ).contains(k) by {
                    lemma_key_of_member(items@, k);
                }
                assert(lists(texts(keys@), m));
                law_keys_are_listed_in_one_way(texts(keys@), sorted_keys(m), m);
            }
            join_texts(&keys, ", ")
        },
        _ => String::new(),
    }
}

/// What is shown of the input of a tool.
pub fn summarize_tool_input(tool_name: &str, input: &Json) -> (text: String)
    ensures
        text@ == summary(tool_name@, input@),
{
    if same_text(tool_name, "Bash") {
        input.named("command").to_owned()
    } else if same_text(tool_name, "Read") || same_text(tool_name, "Write") || same_text(
        tool_name,
        "Edit",
    ) {
        input.named("file_path").to_owned()
    } else if same_text(tool_name, "Glob") || same_text(tool_name, "Grep") {
        input.named("pattern").to_owned()
    } else if same_text(tool_name, "Task") {
        match input.text_at("prompt") {
            Some(s) => truncate(s, 80),
            None => String::new(),
        }
    } else {
        argument_names(input)
    }
}

// ---------------------------------------------------------------------------
// The pieces of an entry
// ---------------------------------------------------------------------------

/// The texts of the blocks that have one.
pub open spec fn block_texts(blocks: Seq<Json>) -> Seq<Seq<char>>
    decreases blocks.len(),
{
    if blocks.len() == 0 {
        Seq::empty()
    } else {
        let earlier = block_texts(blocks.drop_last());
        match blocks.last()@.text_at("text"@) {
            Some(s) => earlier.push(s),
            None => earlier,
        }
    }
}

/// The text of the answer of a tool.
pub open spec fn answer_text(content: Option<ToolResultContent>) -> Seq<char> {
    match content {
        Some(ToolResultContent::Text(s)) => s@,
        Some(ToolResultContent::Blocks(blocks)) => join(block_texts(blocks@), "\n"@),
        None => Seq::empty(),
    }
}

/// The pieces of what the user said.
pub open spec fn user_pieces(blocks: Seq<UserContentBlock>) -> Seq<BlockV>
    decreases blocks.len(),
{
    if blocks.len() == 0 {
        Seq::empty()
    } else {
        let earlier = user_pieces(blocks.drop_last());
        match blocks.last() {
            UserContentBlock::ToolResult(b) => earlier.push(
                BlockV::ToolResult(answer_text(b.content), b.is_error),
            ),
            UserContentBlock::Text(b) => earlier.push(BlockV::Text(b.text@)),
            UserContentBlock::Unknown => earlier,
        }
    }
}

/// The pieces of what the assistant said.
pub open spec fn assistant_pieces(blocks: Seq<AssistantContentBlock>) -> Seq<BlockV>
    decreases blocks.len(),
{
    if blocks.len() == 0 {
        Seq::empty()
    } else {
        let earlier = assistant_pieces(blocks.drop_last());
        match blocks.last() {
            AssistantContentBlock::Thinking(b) => earlier.push(BlockV::Thinking(b.thinking@)),
            AssistantContentBlock::Text(b) => earlier.push(BlockV::Text(b.text@)),
            AssistantContentBlock::ToolUse(b) => earlier.push(
                BlockV::ToolUse(b.name@, summary(b.name@, b.input@), b.input@),
            ),
            AssistantContentBlock::Unknown => earlier,
        }
    }
}

/// What clients see of what the user said.
pub open spec fn normalized_user(entry: UserEntry, seq: u64) -> Option<EntryV> {
    let blocks = match entry.message.content {
        UserContent::Text(text) => seq![BlockV::Text(text@)],
        UserContent::Blocks(blocks) => user_pieces(blocks@),
    };
    if blocks.len() == 0 {
        None
    } else {
        Some(
            EntryV {
                kind: "user"@,
                blocks,
                uuid: text_view(entry.uuid),
                seq,
                timestamp: text_view(entry.timestamp),
                input_tokens: None,
                output_tokens: None,
            },
        )
    }
}

/// What clients see of what the assistant said.
pub open spec fn normalized_assistant(entry: AssistantEntry, seq: u64) -> Option<EntryV> {
    let blocks = assistant_pieces(entry.message.content@);
    if blocks.len() == 0 {
        None
    } else {
        Some(
            EntryV {
                kind: "assistant"@,
                blocks,
                uuid: text_view(entry.uuid),
                seq,
                timestamp: text_view(entry.timestamp),
                input_tokens: match entry.message.usage {
                    Some(u) => u.input_tokens,
                    None => None,
                },
                output_tokens: match entry.message.usage {
                    Some(u) => u.output_tokens,
                    None => None,
                },
            },
        )
    }
}

/// What clients see of an entry, if they see it.
pub open spec fn normalized(entry: Entry, seq: u64) -> Option<EntryV> {
    match entry {
        Entry::User(user) => if user.is_sidechain {
            None
        } else {
            normalized_user(user, seq)
        },
        Entry::Assistant(assistant) => if assistant.is_sidechain {
            None
        } else {
            normalized_assistant(assistant, seq)
        },
        Entry::Other => None,
    }
}

/// The model of an optional entry.
pub open spec fn entry_view(entry: Option<NormalizedEntry>) -> Option<EntryV> {
    match entry {
        Some(e) => Some(e@),
        None => None,
    }
}

fn answer(content: Option<ToolResultContent>) -> (text: String)
    ensures
        text@ == answer_text(content),
{
    match content {
        Some(ToolResultContent::Text(s)) => s,
        Some(ToolResultContent::Blocks(blocks)) => {
            let mut parts: Vec<String> = Vec::new();
            let mut i: usize = 0;
            assert(texts(parts@) =~= block_texts(blocks@.take(0)));
            while i < blocks.len()
                invariant
                    i <= blocks@.len(),
                    texts(parts@) == block_texts(blocks@.take(i as int)),
                decreases blocks@.len() - i,
            {
                assert(blocks@.take(i + 1).drop_last() =~= blocks@.take(i as int));
                assert(blocks@.take(i + 1).last() == blocks@[i as int]);
                match blocks[i].text_at("text") {
                    Some(s) => {
                        let ghost prior = parts@;
                        parts.push(s.to_owned());
                        assert(texts(parts@) =~= texts(prior).push(s@));
                    },
                    None => {},
                }
                i += 1;
            }
            assert(blocks@.take(i as int) =~= blocks@);
            join_texts(&parts, "\n")
        },
        None => String::new(),
    }
}

fn add(blocks: &mut Vec<ContentBlock>, block: ContentBlock)
    ensures
        block_views(final(blocks)@) == block_views(old(blocks)@).push(block@),
{
    let ghost prior = blocks@;
    blocks.push(block);
    assert(block_views(blocks@) =~= block_views(prior).push(block@));
}

fn normalize_user(entry: UserEntry, seq: u64) -> (normal: Option<NormalizedEntry>)
    ensures
        entry_view(normal) == normalized_user(entry, seq),
{
    let mut blocks: Vec<ContentBlock> = Vec::new();
    assert(block_views(blocks@) =~= Seq::<BlockV>::empty());
    match entry.message.content {
        UserContent::Text(text) => {
            self::add(&mut blocks, ContentBlock::Text { text });
            assert(block_views(blocks@) =~= seq![BlockV::Text(text@)]);
        },
        UserContent::Blocks(content) => {
            let ghost all = content@;
            assert(all.take(0) =~= Seq::<UserContentBlock>::empty());
            for block in it: content
                invariant
                    it.seq() == all,
                    block_views(blocks@) == user_pieces(all.take(it.index() as int)),
            {
                proof {
                    let k = it.index() as int;
                    assert(all.take(k + 1).drop_last() =~= all.take(k));
                    assert(all.take(k + 1).last() == block);
                }
                match block {
                    UserContentBlock::ToolResult(ToolResultBlock { content, is_error }) => {
                        let text = answer(content);
                        self::add(
                            &mut blocks,
                            ContentBlock::ToolResult { content: text, is_error },
                        );
                    },
                    UserContentBlock::Text(inner) => {
                        self::add(&mut blocks, ContentBlock::Text { text: inner.text });
                    },
                    UserContentBlock::Unknown => {},
                }
            }
            assert(all.take(all.len() as int) =~= all);
        },
    }
    if blocks.len() == 0 {
        return None;
    }
    Some(
        NormalizedEntry {
            kind: "user",
            blocks,
            uuid: entry.uuid,
            seq,
            timestamp: entry.timestamp,
            input_tokens: None,
            output_tokens: None,
        },
    )
}

fn normalize_assistant(entry: AssistantEntry, seq: u64) -> (normal: Option<NormalizedEntry>)
    ensures
        entry_view(normal) == normalized_assistant(entry, seq),
{
    let mut blocks: Vec<ContentBlock> = Vec::new();
    let ghost all = entry.message.content@;
    proof {
        assert(all.take(0) =~= Seq::<AssistantContentBlock>::empty());
        assert(block_views(blocks@) =~= Seq::<BlockV>::empty());
    }
    for block in it: entry.message.content
        invariant
            it.seq() == all,
            block_views(blocks@) == assistant_pieces(all.take(it.index() as int)),
    {
        proof {
            let k = it.index() as int;
            assert(all.take(k + 1).drop_last() =~= all.take(k));
            assert(all.take(k + 1).last() == block);
        }
        match block {
            AssistantContentBlock::Thinking(inner) => {
                self::add(&mut blocks, ContentBlock::Thinking { text: inner.thinking });
            },
            AssistantContentBlock::Text(inner) => {
                self::add(&mut blocks, ContentBlock::Text { text: inner.text });
            },
            AssistantContentBlock::ToolUse(inner) => {
                let input_summary = summarize_tool_input(inner.name.as_str(), &inner.input);
                self::add(
                    &mut blocks,
                    ContentBlock::ToolUse { name: inner.name, input_summary, input: inner.input },
                );
            },
            AssistantContentBlock::Unknown => {},
        }
    }
    assert(all.take(all.len() as int) =~= all);
    if blocks.len() == 0 {
        return None;
    }
    let (input_tokens, output_tokens) = match entry.message.usage {
        Some(u) => (u.input_tokens, u.output_tokens),
        None => (None, None),
    };
    Some(
        NormalizedEntry {
            kind: "assistant",
            blocks,
            uuid: entry.uuid,
            seq,
            timestamp: entry.timestamp,
            input_tokens,
            output_tokens,
        },
    )
}

/// Converts an entry for the clients, or leaves it out. The number is that of the
/// entry in its transcript.
pub fn try_normalize(entry: Entry, seq: u64) -> (normal: Option<NormalizedEntry>)
    ensures
        entry_view(normal) == normalized(entry, seq),
{
    match entry {
        Entry::User(user) => {
            if user.is_sidechain {
                None
            } else {
                normalize_user(user, seq)
            }
        },
        Entry::Assistant(assistant) => {
            if assistant.is_sidechain {
                None
            } else {
                normalize_assistant(assistant, seq)
            }
        },
        Entry::Other => None,
    }
}

/// What clients see of an entry has content, and the number that it was given.
pub proof fn law_entries_have_content(entry: Entry, seq: u64)
    ensures
        normalized(entry, seq) matches Some(e) ==> e.blocks.len() > 0 && e.seq == seq && (e.kind
            == "user"@ || e.kind == "assistant"@),
{
}

/// Side chains are left out.
pub proof fn law_side_chains_are_left_out(entry: Entry, seq: u64)
    requires
        match entry {
            Entry::User(user) => user.is_sidechain,
            Entry::Assistant(assistant) => assistant.is_sidechain,
            Entry::Other => true,
        },
    ensures
        normalized(entry, seq) is None,
{
}

// ---------------------------------------------------------------------------
// Block by block
// ---------------------------------------------------------------------------

/// Whether a piece shows a block of the assistant: a text as a text, thinking as
/// thinking, the use of a tool as that use, with its input.
pub open spec fn shows(piece: BlockV, block: AssistantContentBlock) -> bool {
    match block {
        AssistantContentBlock::Thinking(b) => piece == BlockV::Thinking(b.thinking@),
        AssistantContentBlock::Text(b) => piece == BlockV::Text(b.text@),
        AssistantContentBlock::ToolUse(b) => piece matches BlockV::ToolUse(name, shown, input)
            && name == b.name@ && input == b.input@ && shown == summary(name, input),
        AssistantContentBlock::Unknown => false,
    }
}

/// Whether a piece shows a block of the user: a text as a text, and the answer of
/// a tool as that answer, with its failure.
pub open spec fn shows_user(piece: BlockV, block: UserContentBlock) -> bool {
    match block {
        UserContentBlock::Text(b) => piece == BlockV::Text(b.text@),
        UserContentBlock::ToolResult(b) => piece matches BlockV::ToolResult(text, failed) && failed
            == b.is_error && match b.content {
            None => text.len() == 0,
            Some(ToolResultContent::Text(s)) => text == s@,
            Some(ToolResultContent::Blocks(parts)) => text == join(block_texts(parts@), "\n"@),
        },
        UserContentBlock::Unknown => false,
    }
}

proof fn lemma_assistant_pieces(blocks: Seq<AssistantContentBlock>)
    ensures
        ({
            let known = blocks.filter(|b: AssistantContentBlock| b !is Unknown);
            &&& assistant_pieces(blocks).len() == known.len()
            &&& forall|i: int|
                0 <= i < known.len() ==> shows(assistant_pieces(blocks)[i], #[trigger] known[i])
        }),
    decreases blocks.len(),
{
    reveal(Seq::filter);
    if blocks.len() > 0 {
        lemma_assistant_pieces(blocks.drop_last());
    }
}

/// Every known block of the assistant is shown at its place among the known ones,
/// as a piece of its own kind; an entry without known blocks is left out.
pub proof fn law_the_assistant_is_shown_block_by_block(entry: AssistantEntry, seq: u64)
    requires
        !entry.is_sidechain,
    ensures
        ({
            let known = entry.message.content@.filter(|b: AssistantContentBlock| b !is Unknown);
            match normalized(Entry::Assistant(entry), seq) {
                None => known.len() == 0,
                Some(e) => {
                    &&& known.len() > 0
                    &&& e.kind == "assistant"@
                    &&& e.seq == seq
                    &&& e.blocks.len() == known.len()
                    &&& forall|i: int|
                        0 <= i < known.len() ==> shows(e.blocks[i], #[trigger] known[i])
                    &&& match entry.uuid {
                        Some(u) => e.uuid == Some(u@),
                        None => e.uuid is None,
                    }
                    &&& match entry.timestamp {
                        Some(t) => e.timestamp == Some(t@),
                        None => e.timestamp is None,
                    }
                    &&& match entry.message.usage {
                        Some(u) => e.input_tokens == u.input_tokens && e.output_tokens
                            == u.output_tokens,
                        None => e.input_tokens is None && e.output_tokens is None,
                    }
                },
            }
        }),
{
    lemma_assistant_pieces(entry.message.content@);
}

proof fn lemma_user_pieces(blocks: Seq<UserContentBlock>)
    ensures
        ({
            let known = blocks.filter(|b: UserContentBlock| b !is Unknown);
            &&& user_pieces(blocks).len() == known.len()
            &&& forall|i: int|
                0 <= i < known.len() ==> shows_user(user_pieces(blocks)[i], #[trigger] known[i])
        }),
    decreases blocks.len(),
{
    reveal(Seq::filter);
    if blocks.len() > 0 {
        lemma_user_pieces(blocks.drop_last());
    }
}

/// What the user said is shown as one text, or else every known block at its place
/// among the known ones, as a piece of its own kind.
pub proof fn law_the_user_is_shown_block_by_block(entry: UserEntry, seq: u64)
    requires
        !entry.is_sidechain,
    ensures
        normalized(Entry::User(entry), seq) matches Some(e) ==> {
            &&& e.kind == "user"@
            &&& e.seq == seq
            &&& match entry.uuid {
                Some(u) => e.uuid == Some(u@),
                None => e.uuid is None,
            }
            &&& match entry.timestamp {
                Some(t) => e.timestamp == Some(t@),
                None => e.timestamp is None,
            }
            &&& e.input_tokens is None && e.output_tokens is None
        },
        match entry.message.content {
            UserContent::Text(text) => normalized(Entry::User(entry), seq) matches Some(e)
                && e.blocks.len() == 1 && e.blocks[0] == BlockV::Text(text@),
            UserContent::Blocks(content) => {
                let known = content@.filter(|b: UserContentBlock| b !is Unknown);
                match normalized(Entry::User(entry), seq) {
                    None => known.len() == 0,
                    Some(e) => {
                        &&& known.len() > 0
                        &&& e.blocks.len() == known.len()
                        &&& forall|i: int|
                            0 <= i < known.len() ==> shows_user(e.blocks[i], #[trigger] known[i])
                    },
                }
            },
        },
{
    if let UserContent::Blocks(content) = entry.message.content {
        lemma_user_pieces(content@);
    }
}

/// The text of the answer of a tool is made of the texts of its blocks that have
/// one, each once and in their order.
pub proof fn law_answers_hold_the_texts_of_their_blocks(blocks: Seq<Json>)
    ensures
        ({
            let written = blocks.filter(|b: Json| b@.text_at("text"@) is Some);
            &&& block_texts(blocks).len() == written.len()
            &&& forall|i: int|
                0 <= i < written.len() ==> (#[trigger] written[i])@.text_at("text"@) == Some(
                    block_texts(blocks)[i],
                )
        }),
    decreases blocks.len(),
{
    reveal(Seq::filter);
    if blocks.len() > 0 {
        law_answers_hold_the_texts_of_their_blocks(blocks.drop_last());
    }
}

/// What is shown of the input of a tool: for a shell its command, for files their
/// path, for searches their pattern, and for a task the beginning of its prompt.
/// Where that argument is no text, nothing is shown.
pub proof fn law_the_main_argument_is_shown(input: Val, tool: Seq<char>)
    ensures
        ({
            let key = if tool == "Bash"@ {
                "command"@
            } else if tool == "Glob"@ || tool == "Grep"@ {
                "pattern"@
            } else {
                "file_path"@
            };
            tool == "Bash"@ || tool == "Glob"@ || tool == "Grep"@ || tool == "Read"@ || tool
                == "Write"@ || tool == "Edit"@ ==> match input.text_at(key) {
                Some(text) => summary(tool, input) == text,
                None => summary(tool, input).len() == 0,
            }
        }),
        tool == "Task"@ ==> match input.text_at("prompt"@) {
            Some(text) => {
                &&& byte_len(text) <= 80 ==> summary(tool, input) == text
                &&& byte_len(text) > 80 ==> exists|n: int| #[trigger]
                    cuts(text, n, 80) && summary(tool, input) == text.take(n) + "..."@
            },
            None => summary(tool, input).len() == 0,
        },
{
    reveal_strlit("Bash");
    reveal_strlit("Read");
    reveal_strlit("Write");
    reveal_strlit("Edit");
    reveal_strlit("Glob");
    reveal_strlit("Grep");
    reveal_strlit("Task");
    assert("Bash"@.len() == 4 && "Read"@.len() == 4 && "Write"@.len() == 5 && "Edit"@.len() == 4
        && "Glob"@.len() == 4 && "Grep"@.len() == 4 && "Task"@.len() == 4);
    assert("Bash"@[0] != "Read"@[0]);
    assert("Bash"@[0] != "Edit"@[0]);
    assert("Bash"@[0] != "Glob"@[0]);
    assert("Bash"@[0] != "Grep"@[0]);
    assert("Bash"@[0] != "Task"@[0]);
    assert("Read"@[0] != "Edit"@[0]);
    assert("Read"@[0] != "Glob"@[0]);
    assert("Read"@[0] != "Grep"@[0]);
    assert("Read"@[0] != "Task"@[0]);
    assert("Edit"@[0] != "Glob"@[0]);
    assert("Edit"@[0] != "Grep"@[0]);
    assert("Edit"@[0] != "Task"@[0]);
    assert("Glob"@[1] != "Grep"@[1]);
    assert("Glob"@[0] != "Task"@[0]);
    assert("Grep"@[0] != "Task"@[0]);
    if let Some(text) = input.text_at("prompt"@) {
        if byte_len(text) > 80 {
            law_a_text_is_cut_as_late_as_can_be(text, 80);
        }
    }
}

/// Of the input of every other tool the names of the arguments are shown, each
/// once, in ascending order, with commas between them.
pub proof fn law_the_names_of_the_arguments_are_shown(
    tool: Seq<char>,
    input: Val,
    keys: Seq<Seq<char>>,
)
    requires
        tool != "Bash"@ && tool != "Read"@ && tool != "Write"@ && tool != "Edit"@ && tool != "Glob"@
            && tool != "Grep"@ && tool != "Task"@,
    ensures
        input matches Val::Object(m) && lists(keys, m) ==> summary(tool, input) == join(keys, ", "@),
        input !is Object ==> summary(tool, input).len() == 0,
{
    if let Val::Object(m) = input {
        if lists(keys, m) {
            law_keys_are_listed_in_one_way(keys, sorted_keys(m), m);
        }
    }
}

/// An entry that is shown, or left out, is seen as it is.
pub proof fn law_shown_entries_are_seen_as_they_are(entry: Option<NormalizedEntry>)
    ensures
        entry matches Some(e) ==> entry_view(entry) == Some(e@),
        entry is None ==> entry_view(entry) is None,
{
}

} // verus!
