//! The authority over the transcript of a conversation.
//!
//! The entries are kept in their order, with an index by their identities. Every
//! entry names its parent, so the entries form a chain. A file of one's own whose
//! chain is broken is corrupt. The file of the command line is reconciled after
//! each round: it may have cut entries off the end, once, and from then on the
//! chain has to hold.

use crate::entry::Entry;
use crate::json::{Json, Val};
use crate::normalize::{normalized, try_normalize};
use crate::protocol::{text_view, EntryV, NormalizedEntry};
use crate::serial::{compact, parsed, plain, read, render};
use crate::text::{
    joined, law_a_line_is_read_back, law_lines_are_read_one_after_the_other, lines, one_line,
    same_text, split_lines, texts, trimmed, written_lines,
};
use vstd::hash_map::StringHashMap;
use vstd::prelude::*;
use vstd::string::*;

verus! {

/// The model of a transcript.
#[verifier::ext_equal]
pub struct TranscriptV {
    pub entries: Seq<Val>,
    pub index: Map<Seq<char>, usize>,
    pub seq: u64,
}

/// A line of a transcript: its value, and the entry that it stands for, if it
/// stands for one.
#[derive(Debug)]
pub struct Record {
    pub data: Json,
    pub entry: Option<Entry>,
}

/// Why a transcript cannot be used.
#[derive(Debug)]
pub enum Fault {
    /// The entry of a file does not follow the one before it.
    Corrupt { entry: String, parent: String, previous: String },
    /// New entries chain from an entry that is not known.
    UnknownProvenance { parent: String },
    /// A new entry does not follow the head of the chain.
    ChainBreak { entry: String, parent: String, head: Option<String> },
}

/// The model of a fault.
pub enum FaultV {
    Corrupt(Seq<char>, Seq<char>, Seq<char>),
    UnknownProvenance(Seq<char>),
    ChainBreak(Seq<char>, Seq<char>, Option<Seq<char>>),
}

impl Fault {
    pub open spec fn view(&self) -> FaultV {
        match self {
            Fault::Corrupt { entry, parent, previous } => FaultV::Corrupt(
                entry@,
                parent@,
                previous@,
            ),
            Fault::UnknownProvenance { parent } => FaultV::UnknownProvenance(parent@),
            Fault::ChainBreak { entry, parent, head } => FaultV::ChainBreak(
                entry@,
                parent@,
                text_view(*head),
            ),
        }
    }
}

/// What was done with the entries of the command line.
#[derive(Debug)]
pub struct Reconciled {
    /// The entries that were cut off the end.
    pub cut: Vec<Json>,
    /// How many entries were kept.
    pub kept: usize,
    /// What clients see of the new entries.
    pub entries: Vec<NormalizedEntry>,
}

/// What was done with an entry.
#[derive(Debug)]
pub struct Handled {
    /// Whether the entry was added.
    pub added: bool,
    /// What clients see of it.
    pub entries: Vec<NormalizedEntry>,
}

/// The models of some values.
pub open spec fn vals(items: Seq<Json>) -> Seq<Val> {
    items.map_values(|j: Json| j@)
}

/// The models of some entries.
pub open spec fn entry_views(items: Seq<NormalizedEntry>) -> Seq<EntryV> {
    items.map_values(|e: NormalizedEntry| e@)
}

/// The values of some lines.
pub open spec fn datas(records: Seq<Record>) -> Seq<Val> {
    records.map_values(|r: Record| r.data@)
}

/// The identity of an entry.
pub open spec fn uuid(data: Val) -> Option<Seq<char>> {
    data.text_at("uuid"@)
}

/// The identity of the parent of an entry.
pub open spec fn parent(data: Val) -> Option<Seq<char>> {
    data.text_at("parentUuid"@)
}

/// The head of the chain: the identity of the last entry that has one.
pub open spec fn head(entries: Seq<Val>) -> Option<Seq<char>>
    decreases entries.len(),
{
    if entries.len() == 0 {
        None
    } else {
        match uuid(entries.last()) {
            Some(u) => Some(u),
            None => head(entries.drop_last()),
        }
    }
}

/// The first broken link of a file: an entry whose parent is not the entry with an
/// identity before it.
pub open spec fn corruption(entries: Seq<Val>) -> Option<FaultV>
    decreases entries.len(),
{
    if entries.len() == 0 {
        None
    } else {
        match corruption(entries.drop_last()) {
            Some(fault) => Some(fault),
            None => match (
                uuid(entries.last()),
                parent(entries.last()),
                head(entries.drop_last()),
            ) {
                (Some(u), Some(p), Some(previous)) => if p != previous {
                    Some(FaultV::Corrupt(u, p, previous))
                } else {
                    None
                },
                _ => None,
            },
        }
    }
}

/// A transcript without entries.
pub open spec fn fresh() -> TranscriptV {
    TranscriptV { entries: Seq::empty(), index: Map::empty(), seq: 0 }
}

/// The transcript with one more entry.
pub open spec fn with_entry(t: TranscriptV, record: Record) -> TranscriptV {
    TranscriptV {
        entries: t.entries.push(record.data@),
        index: match uuid(record.data@) {
            Some(u) => t.index.insert(u, t.entries.len() as usize),
            None => t.index,
        },
        seq: if record.entry is Some {
            (t.seq + 1) as u64
        } else {
            t.seq
        },
    }
}

/// What clients see of one more entry.
pub open spec fn shown(t: TranscriptV, record: Record) -> Seq<EntryV> {
    match record.entry {
        Some(entry) => match normalized(entry, (t.seq + 1) as u64) {
            Some(e) => seq![e],
            None => Seq::empty(),
        },
        None => Seq::empty(),
    }
}

/// The transcript with more entries.
pub open spec fn with_entries(t: TranscriptV, records: Seq<Record>) -> TranscriptV
    decreases records.len(),
{
    if records.len() == 0 {
        t
    } else {
        with_entry(with_entries(t, records.drop_last()), records.last())
    }
}

/// What clients see of more entries.
pub open spec fn all_shown(t: TranscriptV, records: Seq<Record>) -> Seq<EntryV>
    decreases records.len(),
{
    if records.len() == 0 {
        Seq::empty()
    } else {
        all_shown(t, records.drop_last()) + shown(
            with_entries(t, records.drop_last()),
            records.last(),
        )
    }
}

/// The entries of the command line that are not known yet.
pub open spec fn unknown(t: TranscriptV, records: Seq<Record>) -> Seq<Record> {
    records.filter(
        |r: Record|
            match uuid(r.data@) {
                Some(u) => !t.index.contains_key(u),
                None => false,
            },
    )
}

/// The identity that new entries chain from; no text where they name none.
pub open spec fn first_parent(new: Seq<Record>) -> Seq<char> {
    match parent(new[0].data@) {
        Some(p) => p,
        None => Seq::empty(),
    }
}

/// The index without the identities of some entries.
pub open spec fn unindexed(index: Map<Seq<char>, usize>, cut: Seq<Val>) -> Map<Seq<char>, usize>
    decreases cut.len(),
{
    if cut.len() == 0 {
        index
    } else {
        let rest = unindexed(index, cut.drop_last());
        match uuid(cut.last()) {
            Some(u) => rest.remove(u),
            None => rest,
        }
    }
}

/// The transcript up to an entry.
pub open spec fn rewound(t: TranscriptV, last: int) -> TranscriptV {
    TranscriptV {
        entries: t.entries.take(last + 1),
        index: unindexed(t.index, t.entries.skip(last + 1)),
        seq: t.seq,
    }
}

/// Where new entries go on: at the end, or behind an earlier entry from which
/// they chain.
pub open spec fn base(t: TranscriptV, new: Seq<Record>) -> Option<TranscriptV> {
    let from = first_parent(new);
    let end = match head(t.entries) {
        Some(u) => u,
        None => Seq::empty(),
    };
    if from == end {
        Some(t)
    } else if t.index.contains_key(from) {
        Some(rewound(t, t.index[from] as int))
    } else {
        None
    }
}

/// Whether the index leads to entries with the identities that it holds.
pub open spec fn indexed(t: TranscriptV) -> bool {
    &&& t.entries.len() <= usize::MAX
    &&& forall|u: Seq<char>| #[trigger]
        t.index.contains_key(u) ==> t.index[u] < t.entries.len() && uuid(
            t.entries[t.index[u] as int],
        ) == Some(u)
}

/// Whether no two entries have the same identity.
pub open spec fn distinct(entries: Seq<Val>) -> bool {
    forall|i: int, j: int|
        0 <= i < j < entries.len() && uuid(entries[i]) is Some ==> uuid(#[trigger] entries[i])
            != uuid(#[trigger] entries[j])
}

/// Whether every entry with an identity is found in the index, at its own place.
pub open spec fn complete(t: TranscriptV) -> bool {
    forall|i: int|
        0 <= i < t.entries.len() ==> (uuid(#[trigger] t.entries[i]) matches Some(u)
            ==> t.index.contains_key(u) && t.index[u] == i)
}

/// The values of the lines that hold one.
pub open spec fn held_values(found: Seq<Seq<char>>) -> Seq<Val>
    decreases found.len(),
{
    if found.len() == 0 {
        Seq::empty()
    } else {
        let earlier = held_values(found.drop_last());
        match parsed(found.last()) {
            Some(v) => earlier.push(v),
            None => earlier,
        }
    }
}

/// The values of the lines of a file. Lines that hold none are skipped.
pub fn read_lines(content: &str) -> (values: Vec<Json>)
    ensures
        vals(values@) == held_values(written_lines(content@)),
{
    let found = split_lines(content);
    let mut values: Vec<Json> = Vec::new();
    let mut i: usize = 0;
    let ghost all = texts(found@);
    assert(vals(values@) =~= held_values(all.take(0)));
    while i < found.len()
        invariant
            i <= found@.len(),
            all == texts(found@),
            vals(values@) == held_values(all.take(i as int)),
        decreases found@.len() - i,
    {
        assert(all.take(i + 1).drop_last() =~= all.take(i as int));
        assert(all.take(i + 1).last() == found@[i as int]@);
        match read(found[i].as_str()) {
            Some(v) => {
                let ghost prior = values@;
                values.push(v);
                assert(vals(values@) =~= vals(prior).push(v@));
            },
            None => {},
        }
        i += 1;
    }
    assert(all.take(i as int) =~= all);
    values
}

/// The name of the file of a transcript.
pub open spec fn file_of(timestamp: Option<Seq<char>>) -> Seq<char> {
    match timestamp {
        Some(t) => t + ".jsonl"@,
        None => "transcript.jsonl"@,
    }
}

/// The name of the file of a transcript.
pub fn file_name(timestamp: Option<&str>) -> (name: String)
    ensures
        name@ == file_of(
            match timestamp {
                Some(t) => Some(t@),
                None => None,
            },
        ),
{
    match timestamp {
        Some(t) => joined(t, ".jsonl"),
        None => "transcript.jsonl".to_owned(),
    }
}

/// The line that stands for an entry in the file of a transcript. Every entry has
/// one, and one without real numbers that is not nested too deep is read back from
/// it.
pub fn entry_line(data: &Json) -> (text: Option<String>)
    ensures
        text matches Some(s) && compact(data@) matches Some(c) && {
            &&& s@ == c.push('\n')
            &&& one_line(c)
            &&& plain(data@, 127) ==> parsed(c) == Some(data@)
        },
{
    match render(data) {
        Some(s) => {
            proof {
                reveal_strlit("\n");
                assert(s@ + "\n"@ =~= s@.push('\n'));
            }
            Some(joined(s.as_str(), "\n"))
        },
        None => None,
    }
}

/// The text of a file with these entries, a line for each that can be written.
pub open spec fn file_text(entries: Seq<Val>) -> Seq<char>
    decreases entries.len(),
{
    if entries.len() == 0 {
        Seq::empty()
    } else {
        let earlier = file_text(entries.drop_last());
        match compact(entries.last()) {
            Some(line) => earlier + line.push('\n'),
            None => earlier,
        }
    }
}

/// Whether an entry can be written on a line from which it is read back.
pub open spec fn restorable(data: Val) -> bool {
    compact(data) matches Some(line) && one_line(line) && parsed(line) == Some(data)
}

proof fn lemma_whole_lines(entries: Seq<Val>)
    ensures
        file_text(entries).len() == 0 || file_text(entries).last() == '\n',
    decreases entries.len(),
{
    if entries.len() > 0 {
        lemma_whole_lines(entries.drop_last());
    }
}

/// Entries that can be restored are read back from their file, in their order.
proof fn lemma_a_file_is_read_back(entries: Seq<Val>)
    requires
        forall|i: int| 0 <= i < entries.len() ==> restorable(#[trigger] entries[i]),
    ensures
        held_values(written_lines(file_text(entries))) == entries,
    decreases entries.len(),
{
    if entries.len() == 0 {
        reveal(Seq::filter);
        let empty = Seq::<char>::empty();
        let written = |l: Seq<char>| l.len() > 0;
        assert(trimmed(empty) == empty);
        assert(lines(empty).map_values(|l: Seq<char>| trimmed(l)) =~= seq![empty]);
        assert(seq![empty].drop_last() =~= Seq::<Seq<char>>::empty());
        assert(seq![empty].drop_last().filter(written).len() == 0);
        assert(!written(seq![empty].last()));
        assert(seq![empty].filter(written).len() == 0);
        assert(held_values(written_lines(empty)) =~= entries);
    } else {
        let rest = entries.drop_last();
        assert(restorable(entries[entries.len() - 1]));
        assert forall|i: int| 0 <= i < rest.len() implies restorable(#[trigger] rest[i]) by {
            assert(rest[i] == entries[i]);
        }
        lemma_a_file_is_read_back(rest);
        lemma_whole_lines(rest);
        let line = compact(entries.last())->0;
        law_a_line_is_read_back(file_text(rest), line);
        let found = written_lines(file_text(rest));
        assert(found.push(line).drop_last() =~= found);
        assert(rest.push(entries.last()) =~= entries);
    }
}

/// Entries without real numbers, nested at most 127 deep.
pub open spec fn all_plain(entries: Seq<Val>) -> bool {
    forall|i: int| 0 <= i < entries.len() ==> plain(#[trigger] entries[i], 127)
}

/// Whether a text is that of a file with these entries, from which plain entries
/// are read back, in their order.
pub open spec fn saves(text: Seq<char>, entries: Seq<Val>) -> bool {
    &&& text == file_text(entries)
    &&& all_plain(entries) ==> held_values(written_lines(text)) == entries
}

/// The text of a file with these entries. Entries without real numbers that are
/// not nested too deep are read back from it.
pub fn written_entries(entries: &[Json]) -> (text: String)
    ensures
        saves(text@, vals(entries@)),
{
    let ghost all = vals(entries@);
    let mut text = String::new();
    let mut i: usize = 0;
    assert(text@ =~= file_text(all.take(0)));
    while i < entries.len()
        invariant
            i <= entries@.len(),
            all == vals(entries@),
            text@ == file_text(all.take(i as int)),
            forall|j: int|
                0 <= j < i && plain(all[j], 127) ==> restorable(#[trigger] all[j]),
        decreases entries@.len() - i,
    {
        proof {
            assert(all.take(i + 1).drop_last() =~= all.take(i as int));
            assert(all.take(i + 1).last() == entries@[i as int]@);
            assert(all[i as int] == entries@[i as int]@);
        }
        match entry_line(&entries[i]) {
            Some(line) => {
                text.append(line.as_str());
            },
            None => {},
        }
        i += 1;
    }
    proof {
        assert(all.take(i as int) =~= all);
        if all_plain(all) {
            assert forall|j: int| 0 <= j < all.len() implies restorable(#[trigger] all[j]) by {
                assert(plain(all[j], 127));
            }
            lemma_a_file_is_read_back(all);
        }
    }
    text
}

proof fn lemma_file_of_both(a: Seq<Val>, b: Seq<Val>)
    ensures
        file_text(a + b) == file_text(a) + file_text(b),
    decreases b.len(),
{
    if b.len() == 0 {
        assert(a + b =~= a);
        assert(file_text(a) + file_text(b) =~= file_text(a));
    } else {
        let rest = b.drop_last();
        assert((a + b).drop_last() =~= a + rest);
        lemma_file_of_both(a, rest);
        assert(file_text(a + b) =~= file_text(a) + file_text(b));
    }
}

proof fn lemma_values_of_both(a: Seq<Seq<char>>, b: Seq<Seq<char>>)
    ensures
        held_values(a + b) == held_values(a) + held_values(b),
    decreases b.len(),
{
    if b.len() == 0 {
        assert(a + b =~= a);
        assert(held_values(a) + held_values(b) =~= held_values(a));
    } else {
        let rest = b.drop_last();
        assert((a + b).drop_last() =~= a + rest);
        lemma_values_of_both(a, rest);
        assert(held_values(a + b) =~= held_values(a) + held_values(b));
    }
}

/// A file to which entries are appended is the file of all of them.
pub proof fn law_appended_entries_are_saved(
    text: Seq<char>,
    entries: Seq<Val>,
    more: Seq<char>,
    new: Seq<Val>,
)
    requires
        saves(text, entries),
        saves(more, new),
    ensures
        saves(text + more, entries + new),
{
    lemma_file_of_both(entries, new);
    if all_plain(entries + new) {
        assert forall|i: int| 0 <= i < entries.len() implies plain(#[trigger] entries[i], 127) by {
            assert((entries + new)[i] == entries[i]);
        }
        assert forall|i: int| 0 <= i < new.len() implies plain(#[trigger] new[i], 127) by {
            assert((entries + new)[entries.len() + i] == new[i]);
        }
        lemma_whole_lines(entries);
        law_lines_are_read_one_after_the_other(text, more);
        lemma_values_of_both(written_lines(text), written_lines(more));
    }
}

/// The transcript of a conversation.
pub struct Transcript {
    entries: Vec<Json>,
    index: StringHashMap<usize>,
    seq: u64,
}

/// The head of the chain of some entries.
fn chain_head(entries: &Vec<Json>) -> (found: Option<&str>)
    ensures
        match found {
            Some(u) => head(vals(entries@)) == Some(u@),
            None => head(vals(entries@)) is None,
        },
{
    let mut i: usize = entries.len();
    let ghost all = vals(entries@);
    assert(all.take(i as int) =~= all);
    while i > 0
        invariant
            i <= entries@.len(),
            all == vals(entries@),
            head(all) == head(all.take(i as int)),
        decreases i,
    {
        assert(all.take(i as int).drop_last() =~= all.take(i - 1));
        assert(all.take(i as int).last() == entries@[i - 1]@);
        i -= 1;
        match entries[i].text_at("uuid") {
            Some(u) => return Some(u),
            None => {},
        }
    }
    None
}

/// The first broken link of the lines of a file.
fn check(records: &Vec<Record>) -> (fault: Option<Fault>)
    ensures
        match fault {
            Some(f) => corruption(datas(records@)) == Some(f@),
            None => corruption(datas(records@)) is None,
        },
{
    let ghost all = datas(records@);
    let mut previous: Option<&str> = None;
    let mut i: usize = 0;
    while i < records.len()
        invariant
            i <= records@.len(),
            all == datas(records@),
            match previous {
                Some(u) => head(all.take(i as int)) == Some(u@),
                None => head(all.take(i as int)) is None,
            },
            corruption(all.take(i as int)) is None,
        decreases records@.len() - i,
    {
        let data: &Json = &records[i].data;
        proof {
            assert(all[i as int] == data@);
            let more = all.take(i + 1);
            assert(more.drop_last() =~= all.take(i as int));
            assert(more.last() == data@);
        }
        let current: Option<&str> = data.text_at("uuid");
        match (current, data.text_at("parentUuid"), previous) {
            (Some(u), Some(p), Some(q)) => {
                if !same_text(p, q) {
                    let fault = Fault::Corrupt {
                        entry: u.to_owned(),
                        parent: p.to_owned(),
                        previous: q.to_owned(),
                    };
                    proof {
                        lemma_first_fault(all, i + 1);
                    }
                    return Some(fault);
                }
            },
            _ => {},
        }
        if current.is_some() {
            previous = current;
        }
        i += 1;
    }
    assert(all.take(i as int) =~= all);
    None
}

/// The fault of the first lines is that of all.
proof fn lemma_first_fault(all: Seq<Val>, n: int)
    requires
        0 <= n <= all.len(),
        corruption(all.take(n)) is Some,
    ensures
        corruption(all) == corruption(all.take(n)),
    decreases all.len() - n,
{
    if n == all.len() {
        assert(all.take(n) =~= all);
    } else {
        assert(all.take(n + 1).drop_last() =~= all.take(n));
        lemma_first_fault(all, n + 1);
    }
}

/// One more entry keeps the index right.
proof fn lemma_with_entry_is_indexed(t: TranscriptV, record: Record)
    requires
        indexed(t),
        t.entries.len() < usize::MAX,
    ensures
        indexed(with_entry(t, record)),
{
}

/// A shorter transcript has an index that is right.
proof fn lemma_rewound_is_indexed(t: TranscriptV, last: int)
    requires
        indexed(t),
        0 <= last < t.entries.len(),
    ensures
        indexed(rewound(t, last)),
{
    let after = rewound(t, last);
    let cut = t.entries.skip(last + 1);
    assert forall|u: Seq<char>| #[trigger] after.index.contains_key(u) implies after.index[u]
        < after.entries.len() && uuid(after.entries[after.index[u] as int]) == Some(u) by {
        lemma_unindexed(t.index, cut, u);
        if t.index[u] > last {
            let k = t.index[u] - last - 1;
            assert(cut[k] == t.entries[t.index[u] as int]);
        }
    }
}

/// What is left in an index.
proof fn lemma_unindexed(index: Map<Seq<char>, usize>, cut: Seq<Val>, u: Seq<char>)
    requires
        unindexed(index, cut).contains_key(u),
    ensures
        index.contains_key(u),
        unindexed(index, cut)[u] == index[u],
        forall|k: int| 0 <= k < cut.len() ==> uuid(#[trigger] cut[k]) != Some(u),
    decreases cut.len(),
{
    if cut.len() > 0 {
        lemma_unindexed(index, cut.drop_last(), u);
        assert forall|k: int| 0 <= k < cut.len() implies uuid(#[trigger] cut[k]) != Some(u) by {
            if k < cut.len() - 1 {
                assert(cut.drop_last()[k] == cut[k]);
            }
        }
    }
}

/// More entries are more entries.
proof fn lemma_with_entries(t: TranscriptV, records: Seq<Record>)
    ensures
        with_entries(t, records).entries == t.entries + datas(records),
        t.seq + records.len() <= u64::MAX ==> t.seq <= with_entries(t, records).seq <= t.seq
            + records.len(),
        indexed(t) && t.entries.len() + records.len() <= usize::MAX ==> indexed(
            with_entries(t, records),
        ),
    decreases records.len(),
{
    if records.len() > 0 {
        lemma_with_entries(t, records.drop_last());
        assert(datas(records) =~= datas(records.drop_last()).push(records.last().data@));
        assert(with_entries(t, records).entries =~= t.entries + datas(records));
        if indexed(t) && t.entries.len() + records.len() <= usize::MAX {
            lemma_with_entry_is_indexed(with_entries(t, records.drop_last()), records.last());
        }
    } else {
        assert(t.entries + datas(records) =~= t.entries);
    }
}

impl Transcript {
    pub closed spec fn view(&self) -> TranscriptV {
        TranscriptV { entries: vals(self.entries@), index: self.index@, seq: self.seq }
    }

    /// A transcript without entries.
    pub fn new() -> (t: Transcript)
        ensures
            t@ == fresh(),
            indexed(t@),
            complete(t@),
    {
        let t = Transcript { entries: Vec::new(), index: StringHashMap::new(), seq: 0 };
        assert(t@.entries =~= Seq::<Val>::empty());
        t
    }

    /// The entries, in their order.
    pub fn entries(&self) -> (entries: &Vec<Json>)
        ensures
            vals(entries@) == self@.entries,
    {
        &self.entries
    }

    /// The number of the last entry that stands for something.
    pub fn seq(&self) -> (seq: u64)
        ensures
            seq == self@.seq,
    {
        self.seq
    }

    /// Adds an entry.
    fn ingest(&mut self, record: Record, out: &mut Vec<NormalizedEntry>)
        requires
            old(self)@.seq < u64::MAX,
        ensures
            final(self)@ == with_entry(old(self)@, record),
            entry_views(final(out)@) == entry_views(old(out)@) + shown(old(self)@, record),
    {
        let ghost t = self@;
        match record.data.text_at("uuid") {
            Some(u) => {
                self.index.insert(u.to_owned(), self.entries.len());
            },
            None => {},
        }
        let ghost prior = self.entries@;
        self.entries.push(record.data);
        assert(vals(self.entries@) =~= vals(prior).push(record.data@));
        match record.entry {
            Some(entry) => {
                self.seq = self.seq + 1;
                match try_normalize(entry, self.seq) {
                    Some(e) => {
                        let ghost before = out@;
                        out.push(e);
                        assert(entry_views(out@) =~= entry_views(before) + seq![e@]);
                    },
                    None => {
                        assert(entry_views(out@) =~= entry_views(out@) + Seq::<EntryV>::empty());
                    },
                }
            },
            None => {
                assert(entry_views(out@) =~= entry_views(out@) + Seq::<EntryV>::empty());
            },
        }
        assert(self@ =~= with_entry(t, record));
    }

    /// Adds entries.
    fn extend(&mut self, records: Vec<Record>) -> (out: Vec<NormalizedEntry>)
        requires
            old(self)@.seq + records@.len() <= u64::MAX,
        ensures
            final(self)@ == with_entries(old(self)@, records@),
            entry_views(out@) == all_shown(old(self)@, records@),
    {
        let ghost t = self@;
        let ghost all = records@;
        let mut out: Vec<NormalizedEntry> = Vec::new();
        proof {
            assert(all.take(0) =~= Seq::<Record>::empty());
            assert(entry_views(out@) =~= Seq::<EntryV>::empty());
        }
        for record in it: records
            invariant
                it.seq() == all,
                t.seq + all.len() <= u64::MAX,
                self@ == with_entries(t, all.take(it.index() as int)),
                entry_views(out@) == all_shown(t, all.take(it.index() as int)),
        {
            proof {
                let k = it.index() as int;
                assert(all.take(k + 1).drop_last() =~= all.take(k));
                assert(all.take(k + 1).last() == record);
                lemma_with_entries(t, all.take(k));
            }
            self.ingest(record, &mut out);
        }
        assert(all.take(all.len() as int) =~= all);
        out
    }

    /// Takes over the lines of the file of this transcript, or says that they are
    /// corrupt. Every line counts: a file to which [`Transcript::reconcile_cli_file`]
    /// has added entries that do not follow one another is corrupt.
    pub fn load_history(&mut self, records: Vec<Record>) -> (loaded: Result<
        Vec<NormalizedEntry>,
        Fault,
    >)
        requires
            indexed(old(self)@),
            old(self)@.seq + records@.len() <= u64::MAX,
            old(self)@.entries.len() + records@.len() <= usize::MAX,
        ensures
            match loaded {
                Ok(out) => {
                    &&& corruption(datas(records@)) is None
                    &&& final(self)@ == with_entries(old(self)@, records@)
                    &&& entry_views(out@) == all_shown(old(self)@, records@)
                },
                Err(fault) => {
                    &&& corruption(datas(records@)) == Some(fault@)
                    &&& final(self)@ == old(self)@
                },
            },
            indexed(final(self)@),
            complete(old(self)@) && distinct(final(self)@.entries) ==> complete(final(self)@),
    {
        match check(&records) {
            Some(fault) => Err(fault),
            None => {
                proof {
                    lemma_with_entries(self@, records@);
                    if complete(self@) && distinct(with_entries(self@, records@).entries) {
                        law_entries_are_found_at_their_places(self@, records@);
                    }
                }
                Ok(self.extend(records))
            },
        }
    }

    /// Reconciles the lines of the file of the command line: the entries that are
    /// not known yet are added, at the end or behind the earlier entry from which
    /// they chain. What comes after that entry is cut off.
    pub fn reconcile_cli_file(&mut self, records: Vec<Record>) -> (reconciled: Result<
        Reconciled,
        Fault,
    >)
        requires
            indexed(old(self)@),
            old(self)@.seq + records@.len() <= u64::MAX,
            old(self)@.entries.len() + records@.len() <= usize::MAX,
        ensures
            ({
                let t = old(self)@;
                let new = unknown(t, records@);
                match reconciled {
                    Ok(done) => if new.len() == 0 {
                        &&& final(self)@ == t
                        &&& done.kept == t.entries.len()
                        &&& vals(done.cut@) == Seq::<Val>::empty()
                        &&& entry_views(done.entries@) == Seq::<EntryV>::empty()
                    } else {
                        &&& base(t, new) matches Some(from) && {
                            &&& final(self)@ == with_entries(from, new)
                            &&& done.kept == from.entries.len()
                            &&& vals(done.cut@) == t.entries.skip(from.entries.len() as int)
                            &&& entry_views(done.entries@) == all_shown(from, new)
                        }
                    },
                    Err(fault) => {
                        &&& new.len() > 0
                        &&& base(t, new) is None
                        &&& fault@ == FaultV::UnknownProvenance(first_parent(new))
                        &&& final(self)@ == t
                    },
                }
            }),
            indexed(final(self)@),
            complete(old(self)@) && distinct(final(self)@.entries) ==> complete(final(self)@),
    {
        let ghost t = self@;
        let ghost all = records@;
        let new = self.not_known(records);
        let ghost added = new@;
        proof {
            lemma_fewer(all, t);
        }
        if new.len() == 0 {
            let cut: Vec<Json> = Vec::new();
            let entries: Vec<NormalizedEntry> = Vec::new();
            assert(vals(cut@) =~= Seq::<Val>::empty());
            assert(entry_views(entries@) =~= Seq::<EntryV>::empty());
            return Ok(Reconciled { cut, kept: self.entries.len(), entries });
        }
        let from: String = match new[0].data.text_at("parentUuid") {
            Some(p) => p.to_owned(),
            None => String::new(),
        };
        let at_end: bool = match chain_head(&self.entries) {
            Some(h) => same_text(from.as_str(), h),
            None => from.as_str().is_empty(),
        };
        proof {
            assert(from@ == first_parent(added));
            if head(t.entries) is None && from@.len() == 0 {
                assert(from@ =~= Seq::<char>::empty());
            }
        }
        let mut cut: Vec<Json> = Vec::new();
        if !at_end {
            let last: usize = match self.index.get(from.as_str()) {
                Some(i) => *i,
                None => return Err(Fault::UnknownProvenance { parent: from }),
            };
            proof {
                lemma_rewound_is_indexed(t, last as int);
                if complete(t) {
                    law_a_shorter_transcript_stays_complete(t, last as int);
                }
            }
            cut = self.rewind(last);
        } else {
            assert(vals(cut@) =~= t.entries.skip(t.entries.len() as int));
        }
        let kept: usize = self.entries.len();
        proof {
            lemma_with_entries(self@, added);
            if complete(self@) && distinct(with_entries(self@, added).entries) {
                law_entries_are_found_at_their_places(self@, added);
            }
        }
        let entries = self.extend(new);
        Ok(Reconciled { cut, kept, entries })
    }

    /// The records that are not known yet.
    fn not_known(&self, records: Vec<Record>) -> (new: Vec<Record>)
        ensures
            new@ == unknown(self@, records@),
    {
        let ghost all = records@;
        let ghost keep = |r: Record|
            match uuid(r.data@) {
                Some(u) => !self@.index.contains_key(u),
                None => false,
            };
        let mut new: Vec<Record> = Vec::new();
        proof {
            reveal(Seq::filter);
            assert(all.take(0).filter(keep) =~= Seq::<Record>::empty());
        }
        for record in it: records
            invariant
                it.seq() == all,
                keep == |r: Record|
                    match uuid(r.data@) {
                        Some(u) => !self@.index.contains_key(u),
                        None => false,
                    },
                new@ == all.take(it.index() as int).filter(keep),
        {
            proof {
                let k = it.index() as int;
                reveal(Seq::filter);
                assert(all.take(k + 1).drop_last() =~= all.take(k));
                assert(all.take(k + 1).last() == record);
            }
            let fresh: bool = match record.data.text_at("uuid") {
                Some(u) => !self.index.contains_key(u),
                None => false,
            };
            if fresh {
                new.push(record);
            }
        }
        assert(all.take(all.len() as int) =~= all);
        new
    }

    /// Cuts off what comes after an entry.
    fn rewind(&mut self, last: usize) -> (cut: Vec<Json>)
        requires
            last < old(self)@.entries.len(),
        ensures
            final(self)@ == rewound(old(self)@, last as int),
            vals(cut@) == old(self)@.entries.skip(last + 1),
    {
        let ghost t = self@;
        let count: usize = self.entries.len();
        assert(last < count);
        let cut = self.entries.split_off(last + 1);
        let ghost tail = vals(cut@);
        proof {
            assert(tail =~= t.entries.skip(last + 1));
            assert(vals(self.entries@) =~= t.entries.take(last + 1));
        }
        let mut i: usize = 0;
        assert(tail.take(0) =~= Seq::<Val>::empty());
        while i < cut.len()
            invariant
                i <= cut@.len(),
                tail == vals(cut@),
                self.index@ == unindexed(t.index, tail.take(i as int)),
                vals(self.entries@) == t.entries.take(last + 1),
                self.seq == t.seq,
            decreases cut@.len() - i,
        {
            assert(tail.take(i + 1).drop_last() =~= tail.take(i as int));
            assert(tail.take(i + 1).last() == cut@[i as int]@);
            match cut[i].text_at("uuid") {
                Some(u) => {
                    self.index.remove(u);
                },
                None => {},
            }
            i += 1;
        }
        assert(tail.take(i as int) =~= tail);
        cut
    }

    /// Adds an entry of a running conversation. One that is known is skipped, and
    /// so is one without an identity. One that does not follow the head of the
    /// chain breaks it.
    pub fn handle_entry(&mut self, record: Record) -> (handled: Result<Handled, Fault>)
        requires
            indexed(old(self)@),
            old(self)@.seq < u64::MAX,
            old(self)@.entries.len() < usize::MAX,
        ensures
            ({
                let t = old(self)@;
                match handled {
                    Ok(done) => {
                        &&& chain_break(t, record.data@) is None
                        &&& done.added == is_new(t, record.data@)
                        &&& if done.added {
                            &&& final(self)@ == with_entry(t, record)
                            &&& entry_views(done.entries@) == shown(t, record)
                        } else {
                            &&& final(self)@ == t
                            &&& entry_views(done.entries@) == Seq::<EntryV>::empty()
                        }
                    },
                    Err(fault) => chain_break(t, record.data@) == Some(fault@) && final(self)@ == t,
                }
            }),
            indexed(final(self)@),
            complete(old(self)@) ==> complete(final(self)@),
    {
        let ghost t = self@;
        let mut entries: Vec<NormalizedEntry> = Vec::new();
        assert(entry_views(entries@) =~= Seq::<EntryV>::empty());
        let own: &str = match record.data.text_at("uuid") {
            Some(u) => u,
            None => return Ok(Handled { added: false, entries }),
        };
        if self.index.contains_key(own) {
            return Ok(Handled { added: false, entries });
        }
        match record.data.text_at("parentUuid") {
            Some(p) => {
                let end: Option<&str> = chain_head(&self.entries);
                let follows: bool = match end {
                    Some(h) => same_text(p, h),
                    None => false,
                };
                if !follows {
                    return Err(
                        Fault::ChainBreak {
                            entry: own.to_owned(),
                            parent: p.to_owned(),
                            head: match end {
                                Some(h) => Some(h.to_owned()),
                                None => None,
                            },
                        },
                    );
                }
            },
            None => {},
        }
        proof {
            lemma_with_entry_is_indexed(t, record);
            if complete(t) {
                lemma_a_new_entry_is_found(t, record);
            }
        }
        self.ingest(record, &mut entries);
        assert(entry_views(entries@) =~= shown(t, record));
        Ok(Handled { added: true, entries })
    }
}

/// Whether an entry has an identity that is not known yet.
pub open spec fn is_new(t: TranscriptV, data: Val) -> bool {
    uuid(data) matches Some(u) && !t.index.contains_key(u)
}

/// The break of the chain that a new entry makes, if it makes one. An entry
/// without a parent makes none.
pub open spec fn chain_break(t: TranscriptV, data: Val) -> Option<FaultV> {
    if is_new(t, data) && parent(data) is Some && parent(data) != head(t.entries) {
        Some(FaultV::ChainBreak(uuid(data)->0, parent(data)->0, head(t.entries)))
    } else {
        None
    }
}

proof fn lemma_fewer(records: Seq<Record>, t: TranscriptV)
    ensures
        unknown(t, records).len() <= records.len(),
    decreases records.len(),
{
    reveal(Seq::filter);
    if records.len() > 0 {
        lemma_fewer(records.drop_last(), t);
    }
}

/// Where new entries do not go on at the end, they go on behind the entry from
/// which they chain: it is the head of what is kept, everything up to it is kept,
/// and nothing that is cut off is known any more.
pub proof fn law_a_rewind_ends_where_the_new_entries_chain_from(
    t: TranscriptV,
    new: Seq<Record>,
    k: int,
)
    requires
        indexed(t),
        new.len() > 0,
        base(t, new) matches Some(from) && from != t,
        base(t, new)->0.entries.len() <= k < t.entries.len(),
    ensures
        ({
            let kept = base(t, new)->0;
            &&& head(kept.entries) == Some(first_parent(new))
            &&& kept.entries == t.entries.take(kept.entries.len() as int)
            &&& uuid(t.entries[k]) matches Some(u) ==> !kept.index.contains_key(u)
        }),
{
    let kept = base(t, new)->0;
    let last = t.index[first_parent(new)] as int;
    let cut = t.entries.skip(last + 1);
    assert(kept.entries.last() == t.entries[last]);
    if uuid(t.entries[k]) is Some {
        let u = uuid(t.entries[k])->0;
        assert(cut[k - last - 1] == t.entries[k]);
        if kept.index.contains_key(u) {
            lemma_unindexed(t.index, cut, u);
        }
    }
}

/// An entry that was added is the head of the chain, and is not added again.
pub proof fn law_an_entry_is_added_once(t: TranscriptV, record: Record)
    requires
        is_new(t, record.data@),
    ensures
        head(with_entry(t, record).entries) == uuid(record.data@),
        !is_new(with_entry(t, record), record.data@),
        chain_break(with_entry(t, record), record.data@) is None,
{
    assert(with_entry(t, record).entries.drop_last() =~= t.entries);
}

/// What more entries leave in the index.
proof fn lemma_index_grows(t: TranscriptV, records: Seq<Record>, u: Seq<char>)
    ensures
        t.index.contains_key(u) || (exists|i: int|
            0 <= i < records.len() && uuid((#[trigger] records[i]).data@) == Some(u))
            ==> with_entries(t, records).index.contains_key(u),
    decreases records.len(),
{
    if records.len() > 0 {
        let rest = records.drop_last();
        lemma_index_grows(t, rest, u);
        if uuid(records.last().data@) != Some(u) && exists|i: int|
            0 <= i < records.len() && uuid((#[trigger] records[i]).data@) == Some(u) {
            let i = choose|i: int|
                0 <= i < records.len() && uuid((#[trigger] records[i]).data@) == Some(u);
            assert(rest[i] == records[i]);
        }
    }
}

proof fn lemma_unknown_holds(t: TranscriptV, records: Seq<Record>, i: int)
    requires
        0 <= i < records.len(),
        is_new(t, records[i].data@),
    ensures
        exists|j: int|
            0 <= j < unknown(t, records).len() && #[trigger] unknown(t, records)[j] == records[i],
    decreases records.len(),
{
    reveal(Seq::filter);
    let rest = records.drop_last();
    if i < rest.len() {
        lemma_unknown_holds(t, rest, i);
        let j = choose|j: int|
            0 <= j < unknown(t, rest).len() && #[trigger] unknown(t, rest)[j] == rest[i];
        assert(unknown(t, records)[j] == records[i]);
    } else {
        assert(unknown(t, records)[unknown(t, records).len() - 1] == records[i]);
    }
}

/// Where the new entries were added at the end, the same file holds nothing new
/// any more.
pub proof fn law_an_appended_file_is_known(t: TranscriptV, records: Seq<Record>)
    ensures
        unknown(with_entries(t, unknown(t, records)), records).len() == 0,
{
    let after = with_entries(t, unknown(t, records));
    let keep = |r: Record|
        match uuid(r.data@) {
            Some(u) => !after.index.contains_key(u),
            None => false,
        };
    assert forall|i: int| 0 <= i < records.len() implies !keep(#[trigger] records[i]) by {
        if uuid(records[i].data@) is Some {
            let u = uuid(records[i].data@)->0;
            if !t.index.contains_key(u) {
                lemma_unknown_holds(t, records, i);
            }
            lemma_index_grows(t, unknown(t, records), u);
        }
    }
    lemma_none_kept(records, keep);
}

proof fn lemma_none_kept(records: Seq<Record>, keep: spec_fn(Record) -> bool)
    requires
        forall|i: int| 0 <= i < records.len() ==> !keep(#[trigger] records[i]),
    ensures
        records.filter(keep).len() == 0,
    decreases records.len(),
{
    reveal(Seq::filter);
    if records.len() > 0 {
        let rest = records.drop_last();
        assert forall|i: int| 0 <= i < rest.len() implies !keep(#[trigger] rest[i]) by {
            assert(rest[i] == records[i]);
        }
        lemma_none_kept(rest, keep);
        assert(!keep(records[records.len() - 1]));
    }
}

// ---------------------------------------------------------------------------
// Every entry is found
// ---------------------------------------------------------------------------

/// A new entry is found at its place, and the others stay at theirs.
proof fn lemma_a_new_entry_is_found(t: TranscriptV, record: Record)
    requires
        indexed(t),
        t.entries.len() < usize::MAX,
        complete(t),
        is_new(t, record.data@),
    ensures
        complete(with_entry(t, record)),
{
    let after = with_entry(t, record);
    assert forall|i: int| 0 <= i < after.entries.len() implies (uuid(
        #[trigger] after.entries[i],
    ) matches Some(u) ==> after.index.contains_key(u) && after.index[u] == i) by {
        if i < t.entries.len() {
            assert(after.entries[i] == t.entries[i]);
        }
    }
}

/// Where the identities are distinct, every entry that was added is found in the
/// index at its own place, and so is every entry that was found there before.
pub proof fn law_entries_are_found_at_their_places(t: TranscriptV, records: Seq<Record>)
    requires
        complete(t),
        t.entries.len() + records.len() <= usize::MAX,
        distinct(with_entries(t, records).entries),
    ensures
        complete(with_entries(t, records)),
    decreases records.len(),
{
    if records.len() > 0 {
        let rest = records.drop_last();
        let before = with_entries(t, rest);
        let after = with_entries(t, records);
        lemma_with_entries(t, rest);
        let n = before.entries.len() as int;
        assert(after.entries =~= before.entries.push(records.last().data@));
        assert forall|i: int, j: int|
            0 <= i < j < before.entries.len() && uuid(before.entries[i]) is Some implies uuid(
            #[trigger] before.entries[i],
        ) != uuid(#[trigger] before.entries[j]) by {
            assert(after.entries[i] == before.entries[i] && after.entries[j] == before.entries[j]);
        }
        law_entries_are_found_at_their_places(t, rest);
        assert forall|i: int| 0 <= i < after.entries.len() implies (uuid(
            #[trigger] after.entries[i],
        ) matches Some(u) ==> after.index.contains_key(u) && after.index[u] == i) by {
            if i < n {
                assert(after.entries[i] == before.entries[i]);
                assert(uuid(after.entries[i]) is Some ==> uuid(after.entries[i]) != uuid(
                    after.entries[n],
                ));
            }
        }
    }
}

/// Where every entry is found at its place, the identities are distinct, and a
/// transcript that is cut off behind an entry finds all that are left.
pub proof fn law_a_shorter_transcript_stays_complete(t: TranscriptV, last: int)
    requires
        complete(t),
        0 <= last < t.entries.len(),
    ensures
        distinct(t.entries),
        complete(rewound(t, last)),
{
    let after = rewound(t, last);
    let cut = t.entries.skip(last + 1);
    assert forall|i: int| 0 <= i < after.entries.len() implies (uuid(
        #[trigger] after.entries[i],
    ) matches Some(u) ==> after.index.contains_key(u) && after.index[u] == i) by {
        assert(after.entries[i] == t.entries[i]);
        if uuid(t.entries[i]) is Some {
            assert forall|k: int| 0 <= k < cut.len() implies uuid(#[trigger] cut[k]) != uuid(
                t.entries[i],
            ) by {
                assert(cut[k] == t.entries[last + 1 + k]);
            }
            lemma_stays_indexed(t.index, cut, uuid(t.entries[i])->0);
        }
    }
}

/// An identity that is not cut off stays in the index.
proof fn lemma_stays_indexed(index: Map<Seq<char>, usize>, cut: Seq<Val>, u: Seq<char>)
    requires
        index.contains_key(u),
        forall|k: int| 0 <= k < cut.len() ==> uuid(#[trigger] cut[k]) != Some(u),
    ensures
        unindexed(index, cut).contains_key(u),
        unindexed(index, cut)[u] == index[u],
    decreases cut.len(),
{
    if cut.len() > 0 {
        let rest = cut.drop_last();
        assert forall|k: int| 0 <= k < rest.len() implies uuid(#[trigger] rest[k]) != Some(u) by {
            assert(rest[k] == cut[k]);
        }
        assert(uuid(cut[cut.len() - 1]) != Some(u));
        lemma_stays_indexed(index, rest, u);
    }
}

// ---------------------------------------------------------------------------
// What was handled is loaded again
// ---------------------------------------------------------------------------

/// The transcript after the entries of a running conversation.
pub open spec fn lived(t: TranscriptV, records: Seq<Record>) -> TranscriptV
    decreases records.len(),
{
    if records.len() == 0 {
        t
    } else {
        let before = lived(t, records.drop_last());
        if is_new(before, records.last().data@) {
            with_entry(before, records.last())
        } else {
            before
        }
    }
}

/// The entries that a running conversation adds, one after the other.
pub open spec fn added(t: TranscriptV, records: Seq<Record>) -> Seq<Record>
    decreases records.len(),
{
    if records.len() == 0 {
        Seq::empty()
    } else {
        let earlier = added(t, records.drop_last());
        if is_new(lived(t, records.drop_last()), records.last().data@) {
            earlier.push(records.last())
        } else {
            earlier
        }
    }
}

/// Whether no entry of a running conversation breaks the chain.
pub open spec fn unbroken(t: TranscriptV, records: Seq<Record>) -> bool
    decreases records.len(),
{
    records.len() == 0 || {
        &&& unbroken(t, records.drop_last())
        &&& chain_break(lived(t, records.drop_last()), records.last().data@) is None
    }
}

/// What clients see of the entries of a running conversation.
pub open spec fn live_shown(t: TranscriptV, records: Seq<Record>) -> Seq<EntryV>
    decreases records.len(),
{
    if records.len() == 0 {
        Seq::empty()
    } else {
        let before = lived(t, records.drop_last());
        let earlier = live_shown(t, records.drop_last());
        if is_new(before, records.last().data@) {
            earlier + shown(before, records.last())
        } else {
            earlier
        }
    }
}

/// Whether two lines stand for entries of which clients see the same.
pub open spec fn alike(a: Record, b: Record) -> bool {
    match (a.entry, b.entry) {
        (Some(x), Some(y)) => forall|seq: u64| #[trigger]
            normalized(x, seq) == normalized(y, seq),
        (None, None) => true,
        _ => false,
    }
}

/// A running conversation adds the entries that are new.
proof fn lemma_lived(t: TranscriptV, records: Seq<Record>)
    ensures
        lived(t, records) == with_entries(t, added(t, records)),
        live_shown(t, records) == all_shown(t, added(t, records)),
    decreases records.len(),
{
    if records.len() > 0 {
        let rest = records.drop_last();
        lemma_lived(t, rest);
        let earlier = added(t, rest);
        assert(earlier.push(records.last()).drop_last() =~= earlier);
    }
}

/// An unbroken conversation leaves a chain.
proof fn lemma_unbroken_is_a_chain(records: Seq<Record>)
    requires
        unbroken(fresh(), records),
    ensures
        corruption(datas(added(fresh(), records))) is None,
    decreases records.len(),
{
    if records.len() > 0 {
        let rest = records.drop_last();
        lemma_unbroken_is_a_chain(rest);
        lemma_lived(fresh(), rest);
        let earlier = added(fresh(), rest);
        let more = datas(earlier.push(records.last()));
        lemma_with_entries(fresh(), earlier);
        assert(fresh().entries + datas(earlier) =~= datas(earlier));
        assert(more.drop_last() =~= datas(earlier));
        assert(more.last() == records.last().data@);
    }
}

/// Lines that are alike are taken over alike.
proof fn lemma_alike(t: TranscriptV, a: Seq<Record>, b: Seq<Record>)
    requires
        datas(a) == datas(b),
        forall|i: int| 0 <= i < a.len() ==> alike(#[trigger] a[i], b[i]),
    ensures
        with_entries(t, a) == with_entries(t, b),
        all_shown(t, a) == all_shown(t, b),
    decreases a.len(),
{
    assert(datas(a).len() == a.len() && datas(b).len() == b.len());
    if a.len() > 0 {
        let (p, q) = (a.drop_last(), b.drop_last());
        assert forall|i: int| 0 <= i < p.len() implies alike(#[trigger] p[i], q[i]) by {
            assert(alike(a[i], b[i]));
        }
        assert(datas(p) =~= datas(a).drop_last());
        assert(datas(q) =~= datas(b).drop_last());
        lemma_alike(t, p, q);
        assert(datas(a)[a.len() - 1] == datas(b)[b.len() - 1]);
        assert(alike(a[a.len() - 1], b[b.len() - 1]));
        assert(shown(with_entries(t, p), a.last()) == shown(with_entries(t, q), b.last()));
    }
}

/// The entries of a running conversation are loaded again unchanged: they are
/// read back from the text that saves them, their chain is whole, and the
/// transcript and what clients see of it are the same, with the same pieces under
/// the same numbers. `again` are the lines of the file, each with the entry that it
/// stands for.
pub proof fn law_a_live_transcript_is_loaded_again(
    records: Seq<Record>,
    text: Seq<char>,
    again: Seq<Record>,
)
    requires
        unbroken(fresh(), records),
        saves(text, lived(fresh(), records).entries),
        all_plain(lived(fresh(), records).entries),
        datas(again) == held_values(written_lines(text)),
        forall|i: int|
            0 <= i < again.len() ==> alike(#[trigger] again[i], added(fresh(), records)[i]),
    ensures
        corruption(datas(again)) is None,
        with_entries(fresh(), again) == lived(fresh(), records),
        all_shown(fresh(), again) == live_shown(fresh(), records),
{
    let new = added(fresh(), records);
    lemma_lived(fresh(), records);
    lemma_unbroken_is_a_chain(records);
    lemma_with_entries(fresh(), new);
    assert(fresh().entries + datas(new) =~= datas(new));
    lemma_alike(fresh(), again, new);
}

/// The head of more entries is that of the later ones, if they have one.
proof fn lemma_head_of_both(a: Seq<Val>, b: Seq<Val>)
    ensures
        head(b) is Some ==> head(a + b) == head(b),
    decreases b.len(),
{
    if b.len() > 0 {
        assert((a + b).drop_last() =~= a + b.drop_last());
        lemma_head_of_both(a, b.drop_last());
    }
}

proof fn lemma_has_a_head(entries: Seq<Val>)
    requires
        entries.len() > 0,
        uuid(entries[0]) is Some,
    ensures
        head(entries) is Some,
    decreases entries.len(),
{
    if entries.len() > 1 {
        lemma_has_a_head(entries.drop_last());
    }
}

/// A chain goes on with another one that follows its head.
proof fn lemma_a_chain_goes_on(a: Seq<Val>, b: Seq<Val>)
    requires
        corruption(a) is None,
        corruption(b) is None,
        b.len() > 0,
        uuid(b[0]) is Some,
        parent(b[0]) is Some && head(a) is Some ==> parent(b[0]) == head(a),
    ensures
        corruption(a + b) is None,
    decreases b.len(),
{
    let rest = b.drop_last();
    assert((a + b).drop_last() =~= a + rest);
    if rest.len() == 0 {
        assert(a + rest =~= a);
    } else {
        lemma_a_chain_goes_on(a, rest);
        lemma_has_a_head(rest);
        lemma_head_of_both(a, rest);
    }
}

proof fn lemma_unknown_are_new(t: TranscriptV, records: Seq<Record>)
    ensures
        forall|i: int|
            0 <= i < unknown(t, records).len() ==> is_new(
                t,
                (#[trigger] unknown(t, records)[i]).data@,
            ),
    decreases records.len(),
{
    reveal(Seq::filter);
    if records.len() > 0 {
        lemma_unknown_are_new(t, records.drop_last());
    }
}

/// A reconciled transcript is loaded again, where the entries that were kept form
/// a whole chain and the new ones follow one another. Its entries are the same, and
/// so is its index where it finds every entry. Their numbers start anew.
pub proof fn law_a_reconciled_transcript_is_loaded_again(
    t: TranscriptV,
    records: Seq<Record>,
    text: Seq<char>,
    again: Seq<Record>,
)
    requires
        indexed(t),
        t.entries.len() + records.len() <= usize::MAX,
        unknown(t, records).len() > 0,
        base(t, unknown(t, records)) is Some,
        corruption(base(t, unknown(t, records))->0.entries) is None,
        corruption(datas(unknown(t, records))) is None,
        ({
            let after = with_entries(base(t, unknown(t, records))->0, unknown(t, records));
            &&& saves(text, after.entries)
            &&& all_plain(after.entries)
        }),
        datas(again) == held_values(written_lines(text)),
    ensures
        ({
            let after = with_entries(base(t, unknown(t, records))->0, unknown(t, records));
            &&& corruption(datas(again)) is None
            &&& with_entries(fresh(), again).entries == after.entries
            &&& complete(after) ==> with_entries(fresh(), again).index == after.index
        }),
{
    let new = unknown(t, records);
    let from = base(t, new)->0;
    let after = with_entries(from, new);
    let loaded = with_entries(fresh(), again);
    lemma_fewer(records, t);
    lemma_unknown_are_new(t, records);
    assert(is_new(t, new[0].data@));
    assert(datas(new)[0] == new[0].data@);
    if from != t {
        let last = t.index[first_parent(new)] as int;
        lemma_rewound_is_indexed(t, last);
        assert(from.entries.last() == t.entries[last]);
    }
    lemma_a_chain_goes_on(from.entries, datas(new));
    lemma_with_entries(from, new);
    lemma_with_entries(fresh(), again);
    assert(fresh().entries + datas(again) =~= datas(again));
    assert(datas(again).len() == again.len());
    if complete(after) {
        law_a_shorter_transcript_stays_complete(after, 0);
        law_entries_are_found_at_their_places(fresh(), again);
        assert forall|u: Seq<char>| #[trigger] after.index.dom().contains(u)
            <==> loaded.index.dom().contains(u) by {
            if after.index.contains_key(u) {
                assert(loaded.entries[after.index[u] as int] == after.entries[after.index[u] as int]);
            }
            if loaded.index.contains_key(u) {
                assert(after.entries[loaded.index[u] as int] == loaded.entries[loaded.index[u] as int]);
            }
        }
        assert(loaded.index.dom() =~= after.index.dom());
        assert forall|u: Seq<char>| #[trigger] after.index.dom().contains(u) implies loaded.index[u]
            == after.index[u] by {
            assert(loaded.entries[after.index[u] as int] == after.entries[after.index[u] as int]);
        }
        assert(loaded.index =~= after.index);
    }
}

// ---------------------------------------------------------------------------
// What the entries can count on
// ---------------------------------------------------------------------------

/// The head of a chain is its last entry with an identity, wherever that stands.
pub proof fn law_the_head_is_the_last_identity(entries: Seq<Val>, i: int)
    ensures
        0 <= i < entries.len() && entries[i].text_at("uuid"@) is Some && (forall|k: int|
            i < k < entries.len() ==> (#[trigger] entries[k]).text_at("uuid"@) is None) ==> head(
            entries,
        ) == entries[i].text_at("uuid"@),
        (forall|k: int|
            0 <= k < entries.len() ==> (#[trigger] entries[k]).text_at("uuid"@) is None) ==> head(
            entries,
        ) is None,
        head(entries) matches Some(u) ==> exists|k: int|
            0 <= k < entries.len() && (#[trigger] entries[k]).text_at("uuid"@) == Some(u)
                && forall|j: int|
                k < j < entries.len() ==> (#[trigger] entries[j]).text_at("uuid"@) is None,
    decreases entries.len(),
{
    if entries.len() > 0 {
        let rest = entries.drop_last();
        let last = entries.len() - 1;
        law_the_head_is_the_last_identity(rest, i);
        if uuid(entries.last()) is Some {
            assert(entries[last].text_at("uuid"@) == head(entries));
            if 0 <= i < last {
                assert(entries[last].text_at("uuid"@) is Some);
            }
        } else {
            assert forall|k: int| 0 <= k < rest.len() implies #[trigger] rest[k] == entries[k] by {}
            if head(rest) is Some {
                let k = choose|k: int|
                    0 <= k < rest.len() && (#[trigger] rest[k]).text_at("uuid"@) == head(rest)
                        && forall|j: int|
                        k < j < rest.len() ==> (#[trigger] rest[j]).text_at("uuid"@) is None;
                assert(entries[k].text_at("uuid"@) == head(entries));
                assert forall|j: int| k < j < entries.len() implies (#[trigger] entries[j]).text_at(
                    "uuid"@,
                ) is None by {
                    if j < last {
                        assert(rest[j].text_at("uuid"@) is None);
                    }
                }
            }
            if 0 <= i < entries.len() && entries[i].text_at("uuid"@) is Some && (forall|k: int|
                i < k < entries.len() ==> (#[trigger] entries[k]).text_at("uuid"@) is None) {
                assert(i < last);
                assert forall|k: int| i < k < rest.len() implies (#[trigger] rest[k]).text_at(
                    "uuid"@,
                ) is None by {
                    assert(entries[k].text_at("uuid"@) is None);
                }
            }
            if forall|k: int|
                0 <= k < entries.len() ==> (#[trigger] entries[k]).text_at("uuid"@) is None {
                assert forall|k: int| 0 <= k < rest.len() implies (#[trigger] rest[k]).text_at(
                    "uuid"@,
                ) is None by {
                    assert(entries[k].text_at("uuid"@) is None);
                }
            }
        }
    }
}

/// Whether an entry of a transcript has an identity.
pub open spec fn holds_identity(t: TranscriptV, u: Seq<char>) -> bool {
    exists|i: int| 0 <= i < t.entries.len() && (#[trigger] t.entries[i]).text_at("uuid"@) == Some(u)
}

/// New entries whose first one names an entry of the transcript as its parent go on
/// behind that entry, whichever it is. All entries up to it are kept; what follows
/// it stays only where it has no identity, so that the parent is the head.
pub proof fn law_new_entries_go_on_behind_their_parent(t: TranscriptV, new: Seq<Record>, i: int)
    requires
        indexed(t),
        complete(t),
        new.len() > 0,
        0 <= i < t.entries.len(),
        t.entries[i].text_at("uuid"@) is Some,
        new[0].data@.text_at("parentUuid"@) == t.entries[i].text_at("uuid"@),
    ensures
        base(t, new) matches Some(from) && {
            let at_end = forall|k: int|
                i < k < t.entries.len() ==> (#[trigger] t.entries[k]).text_at("uuid"@) is None;
            &&& at_end ==> from == t
            &&& !at_end ==> from.entries == t.entries.take(i + 1)
            &&& from.seq == t.seq
            &&& forall|u: Seq<char>| #[trigger]
                from.index.contains_key(u) <==> holds_identity(from, u)
        },
{
    let p = new[0].data@.text_at("parentUuid"@)->0;
    let from = base(t, new);
    law_the_head_is_the_last_identity(t.entries, i);
    assert(uuid(t.entries[i]) == Some(p));
    assert(t.index.contains_key(p) && t.index[p] == i);
    let at_end = forall|k: int|
        i < k < t.entries.len() ==> (#[trigger] t.entries[k]).text_at("uuid"@) is None;
    if !at_end {
        if head(t.entries) == Some(p) {
            let k = choose|k: int|
                0 <= k < t.entries.len() && (#[trigger] t.entries[k]).text_at("uuid"@) == Some(p)
                    && forall|j: int|
                    k < j < t.entries.len() ==> (#[trigger] t.entries[j]).text_at("uuid"@) is None;
            assert(uuid(t.entries[k]) == Some(p));
            assert(k == i);
        }
        assert(head(t.entries) != Some(p));
        if head(t.entries) is None {
            let k = choose|k: int|
                i < k < t.entries.len() && (#[trigger] t.entries[k]).text_at("uuid"@) is Some;
            lemma_no_head(t.entries, k);
        }
        assert(from == Some(rewound(t, i)));
        lemma_rewound_is_indexed(t, i);
        law_a_shorter_transcript_stays_complete(t, i);
    }
    law_the_index_holds_the_identities(from->0);
}

proof fn lemma_no_head(entries: Seq<Val>, k: int)
    requires
        head(entries) is None,
        0 <= k < entries.len(),
    ensures
        entries[k].text_at("uuid"@) is None,
    decreases entries.len(),
{
    if k < entries.len() - 1 {
        lemma_no_head(entries.drop_last(), k);
    }
}

/// The index holds the identities of the entries, and no others.
pub proof fn law_the_index_holds_the_identities(t: TranscriptV)
    requires
        indexed(t),
        complete(t),
    ensures
        forall|u: Seq<char>| #[trigger] t.index.contains_key(u) <==> holds_identity(t, u),
        forall|u: Seq<char>| #[trigger]
            t.index.contains_key(u) ==> t.entries[t.index[u] as int].text_at("uuid"@) == Some(u),
{
    assert forall|u: Seq<char>| holds_identity(t, u) implies #[trigger] t.index.contains_key(u) by {
        let i = choose|i: int|
            0 <= i < t.entries.len() && (#[trigger] t.entries[i]).text_at("uuid"@) == Some(u);
        assert(uuid(t.entries[i]) == Some(u));
    }
    assert forall|u: Seq<char>| #[trigger] t.index.contains_key(u) implies holds_identity(t, u) by {
        assert(t.entries[t.index[u] as int].text_at("uuid"@) == Some(u));
    }
}

/// New entries are of unknown provenance only where no entry of the transcript has
/// the identity that the first of them names as its parent.
pub proof fn law_only_an_unheld_parent_is_unknown(t: TranscriptV, new: Seq<Record>, p: Seq<char>)
    requires
        indexed(t),
        complete(t),
        new.len() > 0,
        p.len() > 0,
        new[0].data@.text_at("parentUuid"@) == Some(p),
    ensures
        base(t, new) is None <==> !holds_identity(t, p),
{
    law_the_index_holds_the_identities(t);
    law_the_head_is_the_last_identity(t.entries, 0);
    if head(t.entries) == Some(p) {
        let k = choose|k: int|
            0 <= k < t.entries.len() && (#[trigger] t.entries[k]).text_at("uuid"@) == Some(p)
                && forall|j: int|
                k < j < t.entries.len() ==> (#[trigger] t.entries[j]).text_at("uuid"@) is None;
        assert(holds_identity(t, p));
    }
}

/// New entries whose first one names a parent go on where the parent is the head, or
/// where the index leads to it, whatever its place; they are of unknown provenance
/// only where neither is so.
pub proof fn law_an_indexed_parent_is_found(t: TranscriptV, new: Seq<Record>, p: Seq<char>)
    requires
        indexed(t),
        new.len() > 0,
        p.len() > 0,
        new[0].data@.text_at("parentUuid"@) == Some(p),
    ensures
        head(t.entries) == Some(p) ==> base(t, new) == Some(t),
        head(t.entries) != Some(p) && t.index.contains_key(p) ==> {
            &&& base(t, new) matches Some(from)
            &&& from.entries == t.entries.take(t.index[p] + 1)
            &&& from.entries.last().text_at("uuid"@) == Some(p)
            &&& from.seq == t.seq
        },
        base(t, new) is None <==> head(t.entries) != Some(p) && !t.index.contains_key(p),
{
}

/// New entries whose first one names no parent start a transcript without
/// identities; elsewhere they are of unknown provenance.
pub proof fn law_entries_without_a_parent_start_a_transcript(t: TranscriptV, new: Seq<Record>)
    requires
        indexed(t),
        complete(t),
        new.len() > 0,
        new[0].data@.text_at("parentUuid"@) is None,
        !holds_identity(t, Seq::empty()),
    ensures
        (forall|k: int|
            0 <= k < t.entries.len() ==> (#[trigger] t.entries[k]).text_at("uuid"@) is None)
            ==> base(t, new) == Some(t),
        (exists|k: int|
            0 <= k < t.entries.len() && (#[trigger] t.entries[k]).text_at("uuid"@) is Some)
            ==> base(t, new) is None,
{
    law_the_index_holds_the_identities(t);
    law_the_head_is_the_last_identity(t.entries, 0);
    if exists|k: int|
        0 <= k < t.entries.len() && (#[trigger] t.entries[k]).text_at("uuid"@) is Some {
        let k = choose|k: int|
            0 <= k < t.entries.len() && (#[trigger] t.entries[k]).text_at("uuid"@) is Some;
        if head(t.entries) is None {
            lemma_no_head(t.entries, k);
        }
        let u = head(t.entries)->0;
        if u.len() == 0 {
            assert(u =~= Seq::<char>::empty());
            assert(holds_identity(t, u));
        }
    }
}

/// The entries that are not known yet are those whose identity the transcript does
/// not hold, each of them and in their order.
pub proof fn law_new_entries_are_found_in_order(t: TranscriptV, a: Seq<Record>, b: Seq<Record>)
    ensures
        unknown(t, a + b) == unknown(t, a) + unknown(t, b),
    decreases b.len(),
{
    reveal(Seq::filter);
    if b.len() == 0 {
        assert(a + b =~= a);
        assert(unknown(t, a) + unknown(t, b) =~= unknown(t, a));
    } else {
        law_new_entries_are_found_in_order(t, a, b.drop_last());
        assert((a + b).drop_last() =~= a + b.drop_last());
        assert(unknown(t, a + b) =~= unknown(t, a) + unknown(t, b));
    }
}

/// An entry is not known yet exactly where it has an identity that no entry of the
/// transcript has.
pub proof fn law_an_entry_is_new_by_its_identity(t: TranscriptV, r: Record)
    requires
        indexed(t),
        complete(t),
    ensures
        ({
            let new = match r.data@.text_at("uuid"@) {
                Some(u) => !holds_identity(t, u),
                None => false,
            };
            &&& unknown(t, seq![r]) == if new {
                seq![r]
            } else {
                Seq::empty()
            }
            &&& is_new(t, r.data@) == new
        }),
{
    reveal(Seq::filter);
    law_the_index_holds_the_identities(t);
    let keep = |r: Record|
        match uuid(r.data@) {
            Some(u) => !t.index.contains_key(u),
            None => false,
        };
    assert(seq![r].drop_last() =~= Seq::<Record>::empty());
    assert(Seq::<Record>::empty().filter(keep).len() == 0);
    assert(unknown(t, seq![r]) =~= if keep(r) {
        seq![r]
    } else {
        Seq::empty()
    });
}

/// An entry that is added is the last one. It is found under its identity, and has
/// the next number where it stands for something; clients see it under that number.
pub proof fn law_an_added_entry_is_the_last(t: TranscriptV, r: Record)
    requires
        t.seq < u64::MAX,
        t.entries.len() < usize::MAX,
    ensures
        ({
            let after = with_entry(t, r);
            &&& after.entries == t.entries.push(r.data@)
            &&& after.seq == t.seq + if r.entry is Some {
                1int
            } else {
                0int
            }
            &&& forall|u: Seq<char>|
                r.data@.text_at("uuid"@) == Some(u) ==> #[trigger] after.index.contains_key(u)
                    && after.index[u] == t.entries.len()
            &&& forall|u: Seq<char>|
                r.data@.text_at("uuid"@) != Some(u) ==> (#[trigger] after.index.contains_key(u)
                    == t.index.contains_key(u)) && (t.index.contains_key(u) ==> after.index[u]
                    == t.index[u])
        }),
        match r.entry {
            Some(entry) => match normalized(entry, (t.seq + 1) as u64) {
                Some(e) => shown(t, r) == seq![e],
                None => shown(t, r).len() == 0,
            },
            None => shown(t, r).len() == 0,
        },
{
}

/// More entries are added one after the other, and clients see them one after the
/// other.
pub proof fn law_entries_are_added_in_order(t: TranscriptV, a: Seq<Record>, b: Seq<Record>)
    ensures
        with_entries(t, a + b) == with_entries(with_entries(t, a), b),
        all_shown(t, a + b) == all_shown(t, a) + all_shown(with_entries(t, a), b),
        with_entries(t, a).entries == t.entries + datas(a),
        datas(a).len() == a.len(),
        forall|i: int| 0 <= i < a.len() ==> #[trigger] datas(a)[i] == a[i].data@,
    decreases b.len(),
{
    lemma_with_entries(t, a);
    if b.len() == 0 {
        assert(a + b =~= a);
        assert(all_shown(t, a) + all_shown(with_entries(t, a), b) =~= all_shown(t, a));
    } else {
        let rest = b.drop_last();
        law_entries_are_added_in_order(t, a, rest);
        assert((a + b).drop_last() =~= a + rest);
        let one = shown(with_entries(t, a + rest), b.last());
        assert(all_shown(t, a) + all_shown(with_entries(t, a), rest) + one =~= all_shown(t, a) + (
        all_shown(with_entries(t, a), rest) + one));
    }
}

/// One entry is added, and shown, as it is alone; none changes nothing.
pub proof fn law_one_entry_is_added(t: TranscriptV, r: Record)
    ensures
        with_entries(t, seq![r]) == with_entry(t, r),
        all_shown(t, seq![r]) == shown(t, r),
        with_entries(t, Seq::empty()) == t,
        all_shown(t, Seq::empty()).len() == 0,
{
    assert(seq![r].drop_last() =~= Seq::<Record>::empty());
    assert(with_entries(t, Seq::<Record>::empty()) == t);
    assert(all_shown(t, Seq::<Record>::empty()) =~= Seq::<EntryV>::empty());
    assert(all_shown(t, seq![r]) =~= shown(t, r));
}

/// Whether the link of an entry to the one before it holds: an entry with an
/// identity and a parent follows the last entry with an identity before it, if
/// there is one.
pub open spec fn link_holds(entries: Seq<Val>, k: int) -> bool {
    forall|j: int|
        0 <= j < k && entries[k].text_at("uuid"@) is Some && entries[k].text_at("parentUuid"@)
            is Some && (#[trigger] entries[j]).text_at("uuid"@) is Some && (forall|m: int|
            j < m < k ==> (#[trigger] entries[m]).text_at("uuid"@) is None)
            ==> entries[k].text_at("parentUuid"@) == entries[j].text_at("uuid"@)
}

proof fn lemma_link(entries: Seq<Val>)
    requires
        entries.len() > 0,
    ensures
        link_holds(entries, entries.len() - 1) <==> !(uuid(entries.last()) is Some && parent(
            entries.last(),
        ) is Some && head(entries.drop_last()) is Some && parent(entries.last()) != head(
            entries.drop_last(),
        )),
{
    let rest = entries.drop_last();
    let k = entries.len() - 1;
    law_the_head_is_the_last_identity(rest, 0);
    if uuid(entries.last()) is Some && parent(entries.last()) is Some {
        if head(rest) is Some {
            let j = choose|j: int|
                0 <= j < rest.len() && (#[trigger] rest[j]).text_at("uuid"@) == head(rest)
                    && forall|m: int|
                    j < m < rest.len() ==> (#[trigger] rest[m]).text_at("uuid"@) is None;
            assert(entries[j].text_at("uuid"@) == head(rest));
            assert forall|m: int| j < m < k implies (#[trigger] entries[m]).text_at("uuid"@)
                is None by {
                assert(rest[m].text_at("uuid"@) is None);
            }
        }
        if !link_holds(entries, k) {
            let j = choose|j: int|
                0 <= j < k && (#[trigger] entries[j]).text_at("uuid"@) is Some && (forall|m: int|
                    j < m < k ==> (#[trigger] entries[m]).text_at("uuid"@) is None)
                    && entries[k].text_at("parentUuid"@) != entries[j].text_at("uuid"@);
            assert forall|m: int| j < m < rest.len() implies (#[trigger] rest[m]).text_at("uuid"@)
                is None by {
                assert(entries[m].text_at("uuid"@) is None);
            }
            assert(rest[j] == entries[j]);
            law_the_head_is_the_last_identity(rest, j);
        }
    }
}

/// A file is corrupt exactly where the link of some entry does not hold.
pub proof fn law_a_file_is_corrupt_where_a_link_breaks(entries: Seq<Val>)
    ensures
        corruption(entries) is None <==> forall|k: int|
            0 <= k < entries.len() ==> #[trigger] link_holds(entries, k),
    decreases entries.len(),
{
    if entries.len() > 0 {
        let rest = entries.drop_last();
        law_a_file_is_corrupt_where_a_link_breaks(rest);
        lemma_link(entries);
        assert forall|k: int| 0 <= k < rest.len() implies link_holds(rest, k)
            == #[trigger] link_holds(entries, k) by {
            lemma_link_of_prefix(entries, k);
        }
        if forall|k: int| 0 <= k < entries.len() ==> #[trigger] link_holds(entries, k) {
            assert forall|k: int| 0 <= k < rest.len() implies #[trigger] link_holds(rest, k) by {
                assert(link_holds(entries, k));
            }
            assert(link_holds(entries, entries.len() - 1));
        }
        if corruption(entries) is None {
            assert forall|k: int| 0 <= k < entries.len() implies #[trigger] link_holds(
                entries,
                k,
            ) by {
                if k < rest.len() {
                    assert(link_holds(rest, k));
                }
            }
        }
    }
}

proof fn lemma_link_of_prefix(entries: Seq<Val>, k: int)
    requires
        0 <= k < entries.len() - 1,
    ensures
        link_holds(entries.drop_last(), k) == link_holds(entries, k),
{
    let rest = entries.drop_last();
    assert forall|j: int| 0 <= j <= k implies rest[j] == entries[j] by {}
    if link_holds(rest, k) {
        assert forall|j: int|
            0 <= j < k && entries[k].text_at("uuid"@) is Some && entries[k].text_at("parentUuid"@)
                is Some && (#[trigger] entries[j]).text_at("uuid"@) is Some && (forall|m: int|
                j < m < k ==> (#[trigger] entries[m]).text_at("uuid"@)
                    is None) implies entries[k].text_at("parentUuid"@) == entries[j].text_at(
            "uuid"@,
        ) by {
            assert forall|m: int| j < m < k implies (#[trigger] rest[m]).text_at("uuid"@)
                is None by {
                assert(entries[m].text_at("uuid"@) is None);
            }
            assert(rest[j].text_at("uuid"@) is Some);
        }
    }
    if link_holds(entries, k) {
        assert forall|j: int|
            0 <= j < k && rest[k].text_at("uuid"@) is Some && rest[k].text_at("parentUuid"@)
                is Some && (#[trigger] rest[j]).text_at("uuid"@) is Some && (forall|m: int|
                j < m < k ==> (#[trigger] rest[m]).text_at("uuid"@)
                    is None) implies rest[k].text_at("parentUuid"@) == rest[j].text_at("uuid"@) by {
            assert forall|m: int| j < m < k implies (#[trigger] entries[m]).text_at("uuid"@)
                is None by {
                assert(rest[m].text_at("uuid"@) is None);
            }
            assert(entries[j].text_at("uuid"@) is Some);
        }
    }
}

/// The fault of a corrupt file is that of its first broken link: it names the
/// entry, the parent that this names, and the entry before it.
pub proof fn law_the_first_broken_link_is_named(entries: Seq<Val>, k: int)
    requires
        0 <= k < entries.len(),
        !link_holds(entries, k),
        forall|j: int| 0 <= j < k ==> #[trigger] link_holds(entries, j),
    ensures
        corruption(entries) matches Some(FaultV::Corrupt(entry, named, previous)) && {
            &&& entries[k].text_at("uuid"@) == Some(entry)
            &&& entries[k].text_at("parentUuid"@) == Some(named)
            &&& named != previous
            &&& exists|j: int|
                0 <= j < k && (#[trigger] entries[j]).text_at("uuid"@) == Some(previous)
                    && forall|m: int|
                    j < m < k ==> (#[trigger] entries[m]).text_at("uuid"@) is None
        },
    decreases entries.len(),
{
    let rest = entries.drop_last();
    assert forall|j: int| 0 <= j < rest.len() implies link_holds(rest, j) == #[trigger] link_holds(
        entries,
        j,
    ) by {
        lemma_link_of_prefix(entries, j);
    }
    if k < rest.len() {
        assert forall|j: int| 0 <= j < k implies #[trigger] link_holds(rest, j) by {
            assert(link_holds(entries, j));
        }
        assert(!link_holds(rest, k));
        law_the_first_broken_link_is_named(rest, k);
        assert(corruption(entries) == corruption(rest));
        let fault = corruption(rest)->0;
        let previous = fault->Corrupt_2;
        let j = choose|j: int|
            0 <= j < k && (#[trigger] rest[j]).text_at("uuid"@) == Some(previous) && forall|m: int|
                j < m < k ==> (#[trigger] rest[m]).text_at("uuid"@) is None;
        assert(entries[j].text_at("uuid"@) == Some(previous));
        assert forall|m: int| j < m < k implies (#[trigger] entries[m]).text_at("uuid"@) is None by {
            assert(rest[m].text_at("uuid"@) is None);
        }
    } else {
        assert forall|j: int| 0 <= j < rest.len() implies #[trigger] link_holds(rest, j) by {
            assert(link_holds(entries, j));
        }
        law_a_file_is_corrupt_where_a_link_breaks(rest);
        lemma_link(entries);
        law_the_head_is_the_last_identity(rest, 0);
        let previous = head(rest)->0;
        let j = choose|j: int|
            0 <= j < rest.len() && (#[trigger] rest[j]).text_at("uuid"@) == Some(previous)
                && forall|m: int|
                j < m < rest.len() ==> (#[trigger] rest[m]).text_at("uuid"@) is None;
        assert(entries[j].text_at("uuid"@) == Some(previous));
        assert forall|m: int| j < m < k implies (#[trigger] entries[m]).text_at("uuid"@) is None by {
            assert(rest[m].text_at("uuid"@) is None);
        }
    }
}

/// A new entry of a running conversation breaks the chain exactly where it names a
/// parent that is not the head; the break names the entry, its parent and the head.
pub proof fn law_the_chain_breaks_beside_its_head(t: TranscriptV, data: Val)
    requires
        indexed(t),
        complete(t),
    ensures
        ({
            let new = match data.text_at("uuid"@) {
                Some(u) => !holds_identity(t, u),
                None => false,
            };
            let named = data.text_at("parentUuid"@);
            if new && named is Some && named != head(t.entries) {
                chain_break(t, data) == Some(
                    FaultV::ChainBreak(data.text_at("uuid"@)->0, named->0, head(t.entries)),
                )
            } else {
                chain_break(t, data) is None
            }
        }),
{
    law_the_index_holds_the_identities(t);
}

/// A file holds the lines of its entries, one after the other.
pub proof fn law_a_file_holds_a_line_for_each_entry(a: Seq<Val>, b: Seq<Val>, data: Val)
    ensures
        file_text(a + b) == file_text(a) + file_text(b),
        compact(data) matches Some(line) ==> file_text(seq![data]) == line.push('\n'),
        file_text(Seq::empty()).len() == 0,
{
    lemma_file_of_both(a, b);
    assert(seq![data].drop_last() =~= Seq::<Val>::empty());
    assert(file_text(Seq::<Val>::empty()) =~= Seq::<char>::empty());
    if let Some(line) = compact(data) {
        assert(file_text(seq![data]) =~= line.push('\n'));
    }
}

/// The values of a file are those of its lines, one after the other; a line that
/// holds none is skipped.
pub proof fn law_lines_are_read_in_order(a: Seq<Seq<char>>, b: Seq<Seq<char>>, line: Seq<char>)
    ensures
        held_values(a + b) == held_values(a) + held_values(b),
        held_values(seq![line]) == match parsed(line) {
            Some(v) => seq![v],
            None => Seq::empty(),
        },
        held_values(Seq::empty()).len() == 0,
{
    lemma_values_of_both(a, b);
    assert(seq![line].drop_last() =~= Seq::<Seq<char>>::empty());
    assert(held_values(Seq::<Seq<char>>::empty()) =~= Seq::<Val>::empty());
    assert(held_values(seq![line]) =~= match parsed(line) {
        Some(v) => seq![v],
        None => Seq::empty(),
    });
}

/// Transcripts of different times have different files.
pub proof fn law_every_time_has_its_own_file(a: Seq<char>, b: Seq<char>)
    ensures
        file_of(Some(a)) == a + ".jsonl"@,
        file_of(None) == "transcript.jsonl"@,
        a != b ==> file_of(Some(a)) != file_of(Some(b)),
{
    let (x, y) = (file_of(Some(a)), file_of(Some(b)));
    assert(x.len() == a.len() + ".jsonl"@.len() && y.len() == b.len() + ".jsonl"@.len());
    if x == y {
        assert(x.take(a.len() as int) =~= a);
        assert(y.take(b.len() as int) =~= b);
    }
}

/// A fault is seen as what it is, and so are values and entries, each at its place.
pub proof fn law_faults_are_seen_as_they_are(
    fault: Fault,
    items: Seq<Json>,
    entries: Seq<NormalizedEntry>,
)
    ensures
        match fault {
            Fault::Corrupt { entry, parent, previous } => fault@ == FaultV::Corrupt(
                entry@,
                parent@,
                previous@,
            ),
            Fault::UnknownProvenance { parent } => fault@ == FaultV::UnknownProvenance(parent@),
            Fault::ChainBreak { entry, parent, head } => fault@ == FaultV::ChainBreak(
                entry@,
                parent@,
                match head {
                    Some(h) => Some(h@),
                    None => None,
                },
            ),
        },
        vals(items).len() == items.len(),
        forall|i: int| 0 <= i < items.len() ==> #[trigger] vals(items)[i] == items[i]@,
        entry_views(entries).len() == entries.len(),
        forall|i: int| 0 <= i < entries.len() ==> #[trigger] entry_views(entries)[i] == entries[i]@,
{
}

} // verus!
