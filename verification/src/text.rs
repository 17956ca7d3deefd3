//! Text helpers over the character view of strings.

use vstd::prelude::*;
use vstd::string::*;
use vstd::utf8::*;

verus! {

/// Two texts are the same characters.
pub fn same_text(a: &str, b: &str) -> (same: bool)
    ensures
        same == (a@ == b@),
{
    let x: &[u8] = a.as_bytes();
    let y: &[u8] = b.as_bytes();
    proof {
        encode_utf8_decode_utf8(a@);
        encode_utf8_decode_utf8(b@);
    }
    if x.len() != y.len() {
        return false;
    }
    let n: usize = x.len();
    let mut i: usize = 0;
    while i < n
        invariant
            n == x@.len(),
            n == y@.len(),
            i <= n,
            x@ == encode_utf8(a@),
            y@ == encode_utf8(b@),
            forall|j: int| 0 <= j < i ==> x@[j] == y@[j],
        decreases n - i,
    {
        if x[i] != y[i] {
            return false;
        }
        i += 1;
    }
    assert(x@ =~= y@);
    true
}

/// The number of bytes of a text.
pub open spec fn byte_len(text: Seq<char>) -> nat {
    encode_utf8(text).len()
}

/// The number of bytes of a text.
pub fn bytes_in(text: &str) -> (count: usize)
    ensures
        count == byte_len(text@),
{
    text.as_bytes().len()
}

/// The characters of a text of ASCII characters are its bytes.
pub(crate) proof fn lemma_ascii_len(text: Seq<char>)
    requires
        is_ascii_chars(text),
    ensures
        byte_len(text) == text.len(),
{
    is_ascii_chars_encode_utf8(text);
}

/// The concatenation of two texts.
pub fn joined(a: &str, b: &str) -> (text: String)
    ensures
        text@ == a@ + b@,
{
    let mut text = a.to_owned();
    text.append(b);
    text
}

/// `String::push` appends a character.
pub assume_specification[ String::push ](text: &mut String, c: char)
    ensures
        final(text)@ == old(text)@.push(c),
;

/// The characters of a text.
pub(crate) fn chars_of(text: &str) -> (chars: Vec<char>)
    ensures
        chars@ == text@,
{
    broadcast use vstd::string::axiom_spec_iter;

    let mut chars: Vec<char> = Vec::new();
    for c in it: text.chars()
        invariant
            it.seq() == text@,
            chars@ == text@.take(it.index() as int),
    {
        proof {
            assert(text@.take(it.index() + 1) =~= text@.take(it.index() as int).push(c));
        }
        chars.push(c);
    }
    assert(text@.take(text@.len() as int) =~= text@);
    chars
}

/// The text of some characters.
pub(crate) fn text_of(chars: &[char], from: usize, to: usize) -> (text: String)
    requires
        from <= to <= chars@.len(),
    ensures
        text@ == chars@.subrange(from as int, to as int),
{
    let mut text = String::new();
    let mut i: usize = from;
    assert(text@ =~= chars@.subrange(from as int, from as int));
    while i < to
        invariant
            from <= i <= to <= chars@.len(),
            text@ == chars@.subrange(from as int, i as int),
        decreases to - i,
    {
        text.push(chars[i]);
        assert(chars@.subrange(from as int, i + 1) =~= chars@.subrange(from as int, i as int).push(
            chars@[i as int],
        ));
        i += 1;
    }
    text
}

/// A character that is white space in Unicode.
pub open spec fn white(c: char) -> bool {
    ('\u{9}' <= c <= '\u{d}') || c == ' ' || c == '\u{85}' || c == '\u{a0}' || c == '\u{1680}' || (
    '\u{2000}' <= c <= '\u{200a}') || c == '\u{2028}' || c == '\u{2029}' || c == '\u{202f}' || c
        == '\u{205f}' || c == '\u{3000}'
}

fn is_white(c: char) -> (is: bool)
    ensures
        is == white(c),
{
    ('\u{9}' <= c && c <= '\u{d}') || c == ' ' || c == '\u{85}' || c == '\u{a0}' || c == '\u{1680}'
        || ('\u{2000}' <= c && c <= '\u{200a}') || c == '\u{2028}' || c == '\u{2029}' || c
        == '\u{202f}' || c == '\u{205f}' || c == '\u{3000}'
}

/// A text without the white space in front.
pub open spec fn trimmed_start(text: Seq<char>) -> Seq<char>
    decreases text.len(),
{
    if text.len() > 0 && white(text[0]) {
        trimmed_start(text.skip(1))
    } else {
        text
    }
}

/// A text without the white space behind.
pub open spec fn trimmed_end(text: Seq<char>) -> Seq<char>
    decreases text.len(),
{
    if text.len() > 0 && white(text.last()) {
        trimmed_end(text.drop_last())
    } else {
        text
    }
}

/// A text without the white space around it.
pub open spec fn trimmed(text: Seq<char>) -> Seq<char> {
    trimmed_end(trimmed_start(text))
}

/// A text that neither begins nor ends with white space is trimmed.
pub proof fn law_trimmed_texts_stay(text: Seq<char>)
    requires
        text.len() > 0 ==> !white(text[0]) && !white(text.last()),
    ensures
        trimmed(text) == text,
{
}

/// Trimming leaves no white space around a text.
pub proof fn law_trimming_trims(text: Seq<char>)
    ensures
        trimmed(text).len() > 0 ==> !white(trimmed(text)[0]) && !white(trimmed(text).last()),
{
    lemma_trimmed_start(text);
    lemma_trimmed_end(trimmed_start(text));
}

proof fn lemma_trimmed_start(text: Seq<char>)
    ensures
        trimmed_start(text).len() > 0 ==> !white(trimmed_start(text)[0]),
    decreases text.len(),
{
    if text.len() > 0 && white(text[0]) {
        lemma_trimmed_start(text.skip(1));
    }
}

proof fn lemma_trimmed_end(text: Seq<char>)
    ensures
        trimmed_end(text).len() > 0 ==> !white(trimmed_end(text).last()) && trimmed_end(text)[0]
            == text[0],
        trimmed_end(text).len() <= text.len(),
    decreases text.len(),
{
    if text.len() > 0 && white(text.last()) {
        lemma_trimmed_end(text.drop_last());
    }
}

/// The text of some characters without the white space around it.
pub(crate) fn trim_chars(chars: &[char], from: usize, to: usize) -> (text: String)
    requires
        from <= to <= chars@.len(),
    ensures
        text@ == trimmed(chars@.subrange(from as int, to as int)),
{
    let mut a: usize = from;
    let mut b: usize = to;
    let ghost whole = chars@.subrange(from as int, to as int);
    while a < b && is_white(chars[a])
        invariant
            from <= a <= b,
            b == to,
            to <= chars@.len(),
            whole == chars@.subrange(from as int, to as int),
            trimmed_start(whole) == trimmed_start(chars@.subrange(a as int, b as int)),
        decreases b - a,
    {
        assert(chars@.subrange(a as int, b as int).skip(1) =~= chars@.subrange(a + 1, b as int));
        a += 1;
    }
    let ghost front = chars@.subrange(a as int, to as int);
    assert(trimmed_start(whole) == front);
    while a < b && is_white(chars[b - 1])
        invariant
            from <= a <= b <= to,
            to <= chars@.len(),
            trimmed_end(front) == trimmed_end(chars@.subrange(a as int, b as int)),
        decreases b - a,
    {
        assert(chars@.subrange(a as int, b as int).drop_last() =~= chars@.subrange(
            a as int,
            b - 1,
        ));
        b -= 1;
    }
    text_of(chars, a, b)
}

/// A text without the white space around it.
pub fn trim(text: &str) -> (t: String)
    ensures
        t@ == trimmed(text@),
{
    let chars = chars_of(text);
    assert(chars@.subrange(0, chars@.len() as int) =~= text@);
    trim_chars(chars.as_slice(), 0, chars.len())
}

/// The lines of a text, set apart by newlines. What follows the last newline is
/// a line too.
pub open spec fn lines(text: Seq<char>) -> Seq<Seq<char>>
    decreases text.len(),
{
    if text.len() == 0 {
        seq![Seq::empty()]
    } else {
        let before = lines(text.drop_last());
        if text.last() == '\n' {
            before.push(Seq::empty())
        } else {
            before.drop_last().push(before.last().push(text.last()))
        }
    }
}

/// The lines of a text that hold more than white space, without the white space
/// around them.
pub open spec fn written_lines(text: Seq<char>) -> Seq<Seq<char>> {
    lines(text).map_values(|l: Seq<char>| trimmed(l)).filter(|l: Seq<char>| l.len() > 0)
}

/// A text that fills a line: it holds no newline, and neither begins nor ends
/// with white space.
pub open spec fn one_line(text: Seq<char>) -> bool {
    text.len() > 0 && !white(text[0]) && !white(text.last()) && !text.contains('\n')
}

proof fn lemma_line_grows(text: Seq<char>, part: Seq<char>)
    requires
        text.len() == 0 || text.last() == '\n',
        !part.contains('\n'),
    ensures
        lines(text).len() > 0,
        lines(text).last() == Seq::<char>::empty(),
        lines(text + part) == lines(text).drop_last().push(part),
    decreases part.len(),
{
    let whole = text + part;
    if part.len() == 0 {
        assert(whole =~= text);
        assert(part =~= Seq::<char>::empty());
        assert(lines(text) =~= lines(text).drop_last().push(part));
    } else {
        let less = part.drop_last();
        assert(whole.drop_last() =~= text + less);
        assert(part.contains(part[part.len() - 1]));
        assert forall|c: char| less.contains(c) implies part.contains(c) by {
            assert(part[less.index_of(c)] == c);
        }
        lemma_line_grows(text, less);
        assert(less.push(part.last()) =~= part);
        assert(lines(whole) =~= lines(text).drop_last().push(part));
    }
}

proof fn lemma_lines_of_both(a: Seq<char>, b: Seq<char>)
    requires
        a.len() == 0 || a.last() == '\n',
    ensures
        lines(b).len() > 0,
        lines(a + b) == lines(a).drop_last() + lines(b),
    decreases b.len(),
{
    let whole = a + b;
    let front = lines(a).drop_last();
    let empty = Seq::<char>::empty();
    lemma_line_grows(a, empty);
    if b.len() == 0 {
        assert(whole =~= a);
        assert(lines(a) =~= front + lines(b));
    } else {
        let rest = b.drop_last();
        assert(whole.drop_last() =~= a + rest);
        lemma_lines_of_both(a, rest);
        assert(lines(whole) =~= front + lines(b));
    }
}

/// The lines of two texts, the first of which ends with a whole line, are read
/// one after the other.
pub proof fn law_lines_are_read_one_after_the_other(a: Seq<char>, b: Seq<char>)
    requires
        a.len() == 0 || a.last() == '\n',
    ensures
        written_lines(a + b) == written_lines(a) + written_lines(b),
{
    reveal(Seq::filter);
    let trimming = |l: Seq<char>| trimmed(l);
    let written = |l: Seq<char>| l.len() > 0;
    let empty = Seq::<char>::empty();
    let front = lines(a).drop_last();
    lemma_line_grows(a, empty);
    lemma_lines_of_both(a, b);
    assert(lines(a) =~= front.push(empty));
    assert(trimmed(empty) == empty);
    assert(lines(a).map_values(trimming) =~= front.map_values(trimming).push(empty));
    assert(front.map_values(trimming).push(empty).drop_last() =~= front.map_values(trimming));
    assert(lines(a + b).map_values(trimming) =~= front.map_values(trimming) + lines(b).map_values(
        trimming,
    ));
    Seq::filter_distributes_over_add(
        front.map_values(trimming),
        lines(b).map_values(trimming),
        written,
    );
}

/// A line that is written behind other lines is read back behind them.
pub proof fn law_a_line_is_read_back(text: Seq<char>, part: Seq<char>)
    requires
        text.len() == 0 || text.last() == '\n',
        one_line(part),
    ensures
        written_lines(text + part.push('\n')) == written_lines(text).push(part),
{
    reveal(Seq::filter);
    let trimming = |l: Seq<char>| trimmed(l);
    let written = |l: Seq<char>| l.len() > 0;
    let empty = Seq::<char>::empty();
    lemma_line_grows(text, part);
    law_trimmed_texts_stay(part);
    let whole = text + part.push('\n');
    assert(whole.drop_last() =~= text + part);
    let earlier = lines(text).drop_last();
    let kept = earlier.map_values(trimming);
    assert(lines(text) =~= earlier.push(empty));
    assert(lines(whole) =~= earlier.push(part).push(empty));
    assert(trimmed(empty) == empty);
    assert(lines(text).map_values(trimming) =~= kept.push(empty));
    assert(lines(whole).map_values(trimming) =~= kept.push(part).push(empty));
    assert(kept.push(empty).drop_last() =~= kept);
    assert(kept.push(part).push(empty).drop_last() =~= kept.push(part));
    assert(kept.push(part).drop_last() =~= kept);
    assert(kept.push(part).filter(written) == kept.filter(written).push(part));
}

/// The models of some texts.
pub open spec fn texts(items: Seq<String>) -> Seq<Seq<char>> {
    items.map_values(|s: String| s@)
}

/// The lines of a text that hold more than white space, without the white space
/// around them.
pub fn split_lines(text: &str) -> (found: Vec<String>)
    ensures
        texts(found@) == written_lines(text@),
{
    let chars = chars_of(text);
    let ghost trimming = |l: Seq<char>| trimmed(l);
    let ghost written = |l: Seq<char>| l.len() > 0;
    let mut found: Vec<String> = Vec::new();
    let mut start: usize = 0;
    let mut i: usize = 0;
    let ghost mut done: Seq<Seq<char>> = Seq::empty();
    proof {
        reveal(Seq::filter);
        assert(chars@.subrange(0, 0) =~= Seq::<char>::empty());
        assert(chars@.take(0).len() == 0);
        assert(lines(chars@.take(0)) =~= done.push(chars@.subrange(0, 0)));
        assert(done.map_values(trimming).filter(written) =~= Seq::<Seq<char>>::empty());
        assert(texts(found@) =~= done.map_values(trimming).filter(written));
    }
    while i < chars.len()
        invariant
            start <= i <= chars@.len(),
            trimming == |l: Seq<char>| trimmed(l),
            written == |l: Seq<char>| l.len() > 0,
            lines(chars@.take(i as int)) == done.push(chars@.subrange(start as int, i as int)),
            texts(found@) == done.map_values(trimming).filter(written),
        decreases chars@.len() - i,
    {
        let ghost line = chars@.subrange(start as int, i as int);
        assert(chars@.take(i + 1).drop_last() =~= chars@.take(i as int));
        assert(done.push(line).drop_last() =~= done);
        if chars[i] == '\n' {
            keep_written(&mut found, trim_chars(chars.as_slice(), start, i), Ghost(done), Ghost(line));
            start = i + 1;
            proof {
                done = done.push(line);
                assert(chars@.subrange(start as int, i + 1) =~= Seq::<char>::empty());
            }
        } else {
            assert(chars@.subrange(start as int, i + 1) =~= line.push(chars@[i as int]));
        }
        i += 1;
    }
    assert(chars@.take(i as int) =~= text@);
    let ghost line = chars@.subrange(start as int, i as int);
    keep_written(&mut found, trim_chars(chars.as_slice(), start, i), Ghost(done), Ghost(line));
    found
}

/// Keeps a line that holds more than white space.
fn keep_written(
    found: &mut Vec<String>,
    line: String,
    done: Ghost<Seq<Seq<char>>>,
    raw: Ghost<Seq<char>>,
)
    requires
        texts(old(found)@) == done@.map_values(|l: Seq<char>| trimmed(l)).filter(
            |l: Seq<char>| l.len() > 0,
        ),
        line@ == trimmed(raw@),
    ensures
        texts(final(found)@) == done@.push(raw@).map_values(|l: Seq<char>| trimmed(l)).filter(
            |l: Seq<char>| l.len() > 0,
        ),
{
    let ghost trimming = |l: Seq<char>| trimmed(l);
    let ghost written = |l: Seq<char>| l.len() > 0;
    let ghost before = found@;
    proof {
        reveal(Seq::filter);
        assert(done@.push(raw@).map_values(trimming) =~= done@.map_values(trimming).push(line@));
        assert(done@.map_values(trimming).push(line@).drop_last() =~= done@.map_values(trimming));
    }
    if !line.as_str().is_empty() {
        found.push(line);
        assert(texts(found@) =~= texts(before).push(line@));
    }
}

/// One more character of an encoding.
pub(crate) proof fn lemma_encoded_push(text: Seq<char>, c: char)
    ensures
        encode_utf8(text.push(c)) == encode_utf8(text) + encode_scalar(c as u32),
    decreases text.len(),
{
    reveal_with_fuel(encode_utf8, 2);
    let longer = text.push(c);
    if text.len() == 0 {
        assert(longer.drop_first() =~= Seq::<char>::empty());
        assert(encode_utf8(longer) =~= encode_scalar(c as u32));
        assert(encode_utf8(text) + encode_scalar(c as u32) =~= encode_scalar(c as u32));
    } else {
        lemma_encoded_push(text.drop_first(), c);
        assert(longer.drop_first() =~= text.drop_first().push(c));
        assert(encode_utf8(longer) =~= encode_utf8(text) + encode_scalar(c as u32));
    }
}

/// The longest beginning of a text within so many bytes.
pub open spec fn longest_within(text: Seq<char>, max: int) -> Seq<char>
    decreases text.len(),
{
    if text.len() == 0 || byte_len(text) <= max {
        text
    } else {
        longest_within(text.drop_last(), max)
    }
}

/// A text, cut to so many bytes at the end of a character, and marked where it
/// was cut.
pub open spec fn truncated(text: Seq<char>, max: int) -> Seq<char> {
    if byte_len(text) <= max {
        text
    } else {
        longest_within(text, max) + "..."@
    }
}

/// A longer beginning of a text has more bytes.
proof fn lemma_longer_is_longer(text: Seq<char>, k: int)
    requires
        0 <= k <= text.len(),
    ensures
        byte_len(text.take(k)) <= byte_len(text),
    decreases text.len() - k,
{
    if k == text.len() {
        assert(text.take(k) =~= text);
    } else {
        lemma_encoded_push(text.take(k), text[k]);
        assert(text.take(k + 1) =~= text.take(k).push(text[k]));
        lemma_longer_is_longer(text, k + 1);
    }
}

/// A beginning within the limit, whose next character is beyond it, is the
/// longest one.
proof fn lemma_longest(text: Seq<char>, k: int, max: int)
    requires
        0 <= k < text.len(),
        byte_len(text.take(k)) <= max,
        byte_len(text.take(k + 1)) > max,
    ensures
        longest_within(text, max) == text.take(k),
    decreases text.len(),
{
    lemma_longer_is_longer(text, k + 1);
    let shorter = text.drop_last();
    if k == text.len() - 1 {
        assert(shorter =~= text.take(k));
        assert(longest_within(shorter, max) == shorter);
    } else {
        assert(shorter.take(k) =~= text.take(k));
        assert(shorter.take(k + 1) =~= text.take(k + 1));
        lemma_longest(shorter, k, max);
    }
}

/// A text that is cut is a beginning of it within the limit, and its mark.
pub proof fn law_a_cut_text_is_a_beginning(text: Seq<char>, max: int)
    requires
        0 <= max,
    ensures
        byte_len(longest_within(text, max)) <= max,
        longest_within(text, max) == text.take(longest_within(text, max).len() as int),
        longest_within(text, max).len() <= text.len(),
    decreases text.len(),
{
    if text.len() == 0 || byte_len(text) <= max {
        assert(text.take(text.len() as int) =~= text);
    } else {
        let shorter = text.drop_last();
        law_a_cut_text_is_a_beginning(shorter, max);
        let n = longest_within(shorter, max).len() as int;
        assert(shorter.take(n) =~= text.take(n));
    }
}

/// Cuts a text to so many bytes, at the end of a character.
pub fn truncate(s: &str, max: usize) -> (text: String)
    ensures
        text@ == truncated(s@, max as int),
{
    if bytes_in(s) <= max {
        return s.to_owned();
    }
    let chars = chars_of(s);
    let mut used: usize = 0;
    let mut i: usize = 0;
    proof {
        assert(s@.take(0) =~= Seq::<char>::empty());
        assert(s@.take(s@.len() as int) =~= s@);
    }
    while i < chars.len()
        invariant
            chars@ == s@,
            i <= chars@.len(),
            used == byte_len(s@.take(i as int)),
            used <= max,
            byte_len(s@) > max,
            s@.take(s@.len() as int) == s@,
        decreases chars@.len() - i,
    {
        let code: u32 = chars[i] as u32;
        let width: usize = if code <= 0x7f {
            1
        } else if code <= 0x7ff {
            2
        } else if code <= 0xffff {
            3
        } else {
            4
        };
        proof {
            char_u32_cast(s@[i as int], code);
            char_is_scalar(s@[i as int]);
            lemma_encoded_push(s@.take(i as int), s@[i as int]);
            assert(s@.take(i + 1) =~= s@.take(i as int).push(s@[i as int]));
        }
        if width > max - used {
            proof {
                lemma_longest(s@, i as int, max as int);
            }
            return joined(text_of(chars.as_slice(), 0, i).as_str(), "...");
        }
        used = used + width;
        i += 1;
    }
    joined(s, "...")
}

/// The texts one after the other, with a separator between them.
pub open spec fn join(parts: Seq<Seq<char>>, separator: Seq<char>) -> Seq<char>
    decreases parts.len(),
{
    if parts.len() == 0 {
        Seq::empty()
    } else if parts.len() == 1 {
        parts[0]
    } else {
        join(parts.drop_last(), separator) + separator + parts.last()
    }
}

/// Joins texts.
pub fn join_texts(parts: &Vec<String>, separator: &str) -> (text: String)
    ensures
        text@ == join(texts(parts@), separator@),
{
    let mut text = String::new();
    let mut i: usize = 0;
    assert(text@ =~= join(texts(parts@).take(0), separator@));
    while i < parts.len()
        invariant
            i <= parts@.len(),
            text@ == join(texts(parts@).take(i as int), separator@),
        decreases parts@.len() - i,
    {
        proof {
            let more = texts(parts@).take(i + 1);
            assert(more.drop_last() =~= texts(parts@).take(i as int));
            assert(more.last() == parts@[i as int]@);
        }
        if i > 0 {
            text.append(separator);
        }
        text.append(parts[i].as_str());
        assert(text@ =~= join(texts(parts@).take(i + 1), separator@));
        i += 1;
    }
    assert(texts(parts@).take(i as int) =~= texts(parts@));
    text
}

/// The order of texts: that of their first characters that differ.
pub open spec fn before(a: Seq<char>, b: Seq<char>) -> bool
    decreases a.len(),
{
    if b.len() == 0 {
        false
    } else if a.len() == 0 {
        true
    } else {
        a[0] < b[0] || (a[0] == b[0] && before(a.skip(1), b.skip(1)))
    }
}

/// No text comes before itself, and of two different texts one comes before the
/// other.
pub proof fn law_texts_are_ordered(a: Seq<char>, b: Seq<char>)
    ensures
        !before(a, a),
        a != b ==> before(a, b) || before(b, a),
        !(before(a, b) && before(b, a)),
    decreases a.len(),
{
    if a.len() > 0 {
        law_texts_are_ordered(a.skip(1), b.skip(1));
        if b.len() > 0 && a[0] == b[0] && a.skip(1) == b.skip(1) {
            assert(a =~= seq![a[0]] + a.skip(1));
            assert(b =~= seq![b[0]] + b.skip(1));
        }
    } else if b.len() == 0 {
        assert(a =~= b);
    }
}

/// The order of texts carries over.
pub proof fn law_the_order_carries_over(a: Seq<char>, b: Seq<char>, c: Seq<char>)
    requires
        before(a, b),
        before(b, c),
    ensures
        before(a, c),
    decreases a.len(),
{
    if a.len() > 0 && b.len() > 0 && c.len() > 0 && a[0] == b[0] && b[0] == c[0] {
        law_the_order_carries_over(a.skip(1), b.skip(1), c.skip(1));
    }
}

/// Whether a text comes before another.
pub(crate) fn precedes(a: &str, b: &str) -> (is: bool)
    ensures
        is == before(a@, b@),
{
    let x = chars_of(a);
    let y = chars_of(b);
    let mut i: usize = 0;
    assert(x@.skip(0) =~= a@ && y@.skip(0) =~= b@);
    while i < x.len() && i < y.len()
        invariant
            i <= x@.len(),
            i <= y@.len(),
            before(a@, b@) == before(x@.skip(i as int), y@.skip(i as int)),
        decreases x@.len() - i,
    {
        if x[i] < y[i] {
            return true;
        }
        if x[i] != y[i] {
            return false;
        }
        assert(x@.skip(i as int).skip(1) =~= x@.skip(i + 1));
        assert(y@.skip(i as int).skip(1) =~= y@.skip(i + 1));
        i += 1;
    }
    i < y.len()
}

// ---------------------------------------------------------------------------
// Numbers
// ---------------------------------------------------------------------------

/// The character of a digit.
pub open spec fn digit(n: int) -> char {
    (48 + n) as u8 as char
}

/// The decimal text of a number.
pub open spec fn decimal(n: nat) -> Seq<char>
    decreases n,
{
    if n < 10 {
        seq![digit(n as int)]
    } else {
        decimal(n / 10).push(digit((n % 10) as int))
    }
}

/// The decimal text of a number with its sign.
pub open spec fn signed_decimal(n: int) -> Seq<char> {
    if n < 0 {
        seq!['-'] + decimal((-n) as nat)
    } else {
        decimal(n as nat)
    }
}

/// The decimal text of a number.
pub fn number_text(n: u64) -> (text: String)
    ensures
        text@ == decimal(n as nat),
    decreases n,
{
    let mut text = if n < 10 {
        String::new()
    } else {
        number_text(n / 10)
    };
    let last: u8 = 48 + (n % 10) as u8;
    text.push(last as char);
    assert(text@ =~= decimal(n as nat));
    text
}

/// The decimal text of a number with its sign.
pub fn signed_text(n: i32) -> (text: String)
    ensures
        text@ == signed_decimal(n as int),
{
    if n < 0 {
        proof {
            reveal_strlit("-");
            assert("-"@ =~= seq!['-']);
        }
        joined("-", number_text((-(n as i64)) as u64).as_str())
    } else {
        number_text(n as u64)
    }
}

/// The number that a text of decimal digits stands for.
pub open spec fn number_of(text: Seq<char>) -> nat
    decreases text.len(),
{
    if text.len() == 0 {
        0
    } else {
        number_of(text.drop_last()) * 10 + (text.last() as int - 48) as nat
    }
}

/// Whether a text is made of decimal digits.
pub open spec fn all_digits(text: Seq<char>) -> bool {
    forall|i: int| 0 <= i < text.len() ==> '0' <= #[trigger] text[i] <= '9'
}

/// The number of a text of decimal digits, with an optional plus sign, up to a
/// limit.
pub open spec fn number_within(text: Seq<char>, limit: nat) -> Option<nat> {
    let digits = if text.len() > 0 && text[0] == '+' {
        text.skip(1)
    } else {
        text
    };
    if digits.len() > 0 && all_digits(digits) && number_of(digits) <= limit {
        Some(number_of(digits))
    } else {
        None
    }
}

/// The decimal text of a number stands for it.
pub proof fn law_decimals_are_read_back(n: nat, limit: nat)
    requires
        n <= limit,
    ensures
        number_within(decimal(n), limit) == Some(n),
{
    lemma_decimal(n);
    assert('0' <= decimal(n)[0] <= '9');
}

proof fn lemma_decimal(n: nat)
    ensures
        decimal(n).len() > 0,
        all_digits(decimal(n)),
        number_of(decimal(n)) == n,
    decreases n,
{
    reveal_with_fuel(number_of, 2);
    if n >= 10 {
        lemma_decimal(n / 10);
        assert(decimal(n).drop_last() =~= decimal(n / 10));
    } else {
        assert(decimal(n).drop_last() =~= Seq::<char>::empty());
    }
}

/// A longer number is no smaller.
proof fn lemma_longer_number(digits: Seq<char>, k: int)
    requires
        0 <= k <= digits.len(),
        all_digits(digits),
    ensures
        number_of(digits.take(k)) <= number_of(digits),
    decreases digits.len() - k,
{
    if k == digits.len() {
        assert(digits.take(k) =~= digits);
    } else {
        assert(digits.take(k + 1).drop_last() =~= digits.take(k));
        lemma_longer_number(digits, k + 1);
    }
}

/// The number of a text, up to a limit.
pub(crate) fn read_number(text: &str, limit: u64) -> (number: Option<u64>)
    requires
        limit <= 0xffff_ffff,
    ensures
        match number {
            Some(n) => number_within(text@, limit as nat) == Some(n as nat),
            None => number_within(text@, limit as nat) is None,
        },
{
    let chars = chars_of(text);
    let from: usize = if chars.len() > 0 && chars[0] == '+' {
        1
    } else {
        0
    };
    let ghost digits = text@.skip(from as int);
    assert(text@.skip(0) =~= text@);
    if from == chars.len() {
        return None;
    }
    let mut n: u64 = 0;
    let mut i: usize = from;
    while i < chars.len()
        invariant
            chars@ == text@,
            from <= i <= chars@.len(),
            digits == text@.skip(from as int),
            n <= limit <= 0xffff_ffff,
            n == number_of(digits.take(i - from)),
            forall|j: int| 0 <= j < i - from ==> '0' <= #[trigger] digits[j] <= '9',
            number_within(text@, limit as nat) == if digits.len() > 0 && all_digits(digits)
                && number_of(digits) <= limit {
                Some(number_of(digits))
            } else {
                None
            },
        decreases chars@.len() - i,
    {
        let c: char = chars[i];
        assert(digits[i - from] == c);
        if !('0' <= c && c <= '9') {
            return None;
        }
        let d: u64 = (c as u32 - 48) as u64;
        assert(digits.take(i - from + 1).drop_last() =~= digits.take(i - from));
        assert(digits.take(i - from + 1).last() == c);
        n = n * 10 + d;
        if n > limit {
            proof {
                if all_digits(digits) {
                    lemma_longer_number(digits, i - from + 1);
                }
            }
            return None;
        }
        i += 1;
    }
    assert(digits.take(i - from) =~= digits);
    Some(n)
}

// ---------------------------------------------------------------------------
// Searching
// ---------------------------------------------------------------------------

/// Whether a piece occurs at a place.
pub open spec fn occurs(text: Seq<char>, piece: Seq<char>, at: int) -> bool {
    0 <= at && at + piece.len() <= text.len() && text.subrange(at, at + piece.len() as int) == piece
}

/// The first place, from one on, at which a piece occurs.
pub open spec fn first_from(text: Seq<char>, piece: Seq<char>, at: int) -> Option<int>
    decreases text.len() - at,
{
    if at + piece.len() > text.len() || at >= text.len() {
        None
    } else if occurs(text, piece, at) {
        Some(at)
    } else {
        first_from(text, piece, at + 1)
    }
}

/// The last place, up to one, at which a piece occurs.
pub open spec fn last_upto(text: Seq<char>, piece: Seq<char>, at: int) -> Option<int>
    decreases at + 1,
{
    if at < 0 {
        None
    } else if occurs(text, piece, at) {
        Some(at)
    } else {
        last_upto(text, piece, at - 1)
    }
}

/// Whether a piece occurs at a place.
pub(crate) fn is_at(text: &Vec<char>, piece: &Vec<char>, at: usize) -> (is: bool)
    ensures
        is == occurs(text@, piece@, at as int),
{
    if piece.len() > text.len() || at > text.len() - piece.len() {
        return false;
    }
    let total: usize = text.len();
    let mut i: usize = 0;
    while i < piece.len()
        invariant
            i <= piece@.len(),
            total == text@.len(),
            at + piece@.len() <= total,
            forall|j: int| 0 <= j < i ==> #[trigger] piece@[j] == text@[at + j],
        decreases piece@.len() - i,
    {
        if text[at + i] != piece[i] {
            assert(text@.subrange(at as int, at + piece@.len())[i as int] != piece@[i as int]);
            return false;
        }
        i += 1;
    }
    assert(text@.subrange(at as int, at + piece@.len()) =~= piece@);
    true
}

/// The first place at which a piece occurs.
pub(crate) fn find_first(text: &Vec<char>, piece: &Vec<char>) -> (place: Option<usize>)
    requires
        piece@.len() > 0,
    ensures
        match place {
            Some(i) => first_from(text@, piece@, 0) == Some(i as int) && i + piece@.len()
                <= text@.len(),
            None => first_from(text@, piece@, 0) is None,
        },
{
    let mut i: usize = 0;
    while i < text.len() && piece.len() <= text.len() - i
        invariant
            i <= text@.len(),
            piece@.len() > 0,
            first_from(text@, piece@, 0) == first_from(text@, piece@, i as int),
        decreases text@.len() - i,
    {
        if is_at(text, piece, i) {
            return Some(i);
        }
        i += 1;
    }
    None
}

/// The last place at which a piece occurs.
pub(crate) fn find_last(text: &Vec<char>, piece: &Vec<char>) -> (place: Option<usize>)
    ensures
        match place {
            Some(i) => last_upto(text@, piece@, text@.len() - piece@.len()) == Some(i as int) && i
                + piece@.len() <= text@.len(),
            None => last_upto(text@, piece@, text@.len() - piece@.len()) is None,
        },
{
    if piece.len() > text.len() {
        return None;
    }
    let mut i: usize = text.len() - piece.len();
    loop
        invariant
            i + piece@.len() <= text@.len(),
            last_upto(text@, piece@, text@.len() - piece@.len()) == last_upto(
                text@,
                piece@,
                i as int,
            ),
        decreases i,
    {
        if is_at(text, piece, i) {
            return Some(i);
        }
        if i == 0 {
            assert(last_upto(text@, piece@, -1) is None);
            return None;
        }
        i -= 1;
    }
}

// ---------------------------------------------------------------------------
// What the pieces of a text add up to
// ---------------------------------------------------------------------------

/// Whether a text is cut behind so many characters: they are within the limit of
/// bytes, and one more is not.
pub open spec fn cuts(text: Seq<char>, n: int, max: int) -> bool {
    &&& 0 <= n < text.len()
    &&& encode_utf8(text.take(n)).len() <= max
    &&& encode_utf8(text.take(n + 1)).len() > max
}

/// A text beyond the limit is cut as late as can be, and marked.
pub proof fn law_a_text_is_cut_as_late_as_can_be(text: Seq<char>, max: int)
    requires
        0 <= max,
    ensures
        encode_utf8(text).len() <= max ==> truncated(text, max) == text,
        encode_utf8(text).len() > max ==> exists|n: int| #[trigger]
            cuts(text, n, max) && truncated(text, max) == text.take(n) + "..."@,
{
    if encode_utf8(text).len() > max {
        assert(text.take(text.len() as int) =~= text);
        lemma_some_cut(text, max, text.len() as int);
        let n = choose|n: int| #[trigger] cuts(text, n, max);
        lemma_longest(text, n, max);
        assert(cuts(text, n, max) && truncated(text, max) == text.take(n) + "..."@);
    }
}

proof fn lemma_some_cut(text: Seq<char>, max: int, k: int)
    requires
        0 <= max,
        0 <= k <= text.len(),
        encode_utf8(text.take(k)).len() > max,
    ensures
        exists|n: int| #[trigger] cuts(text, n, max),
    decreases k,
{
    if k == 0 {
        assert(text.take(0) =~= Seq::<char>::empty());
        assert(encode_utf8(text.take(0)).len() == 0);
    } else if encode_utf8(text.take(k - 1)).len() <= max {
        assert(cuts(text, k - 1, max));
    } else {
        lemma_some_cut(text, max, k - 1);
    }
}

/// Joined texts: none is no text, one is itself, and of two lists each is joined,
/// with the separator between them.
pub proof fn law_joining_goes_on(a: Seq<Seq<char>>, b: Seq<Seq<char>>, separator: Seq<char>)
    ensures
        a.len() == 0 ==> join(a, separator).len() == 0,
        a.len() == 1 ==> join(a, separator) == a[0],
        a.len() > 0 && b.len() > 0 ==> join(a + b, separator) == join(a, separator) + separator
            + join(b, separator),
    decreases b.len(),
{
    if a.len() > 0 && b.len() > 0 {
        let rest = b.drop_last();
        assert((a + b).drop_last() =~= a + rest);
        assert((a + b).last() == b.last());
        if rest.len() == 0 {
            assert(a + rest =~= a);
        } else {
            law_joining_goes_on(a, rest, separator);
        }
        assert(join(a + b, separator) =~= join(a, separator) + separator + join(b, separator));
    }
}

/// Trimming takes off white space only: a text is its trimmed one with white space
/// before and behind it.
pub proof fn law_trimming_takes_off_white_space(text: Seq<char>)
    ensures
        exists|i: int| #[trigger]
            trims(text, i) && trimmed(text) == text.subrange(i, i + trimmed(text).len()),
{
    lemma_front(text);
    let start = trimmed_start(text);
    let i = text.len() - start.len();
    lemma_back(start);
    let t = trimmed(text);
    assert(t =~= text.subrange(i, i + t.len()));
    assert forall|k: int| i + t.len() <= k < text.len() implies white(#[trigger] text[k]) by {
        assert(start[k - i] == text[k]);
    }
    assert(trims(text, i));
}

/// Whether what is before and behind the trimmed text is white space.
pub open spec fn trims(text: Seq<char>, i: int) -> bool {
    &&& 0 <= i <= i + trimmed(text).len() <= text.len()
    &&& forall|k: int| 0 <= k < i ==> white(#[trigger] text[k])
    &&& forall|k: int| i + trimmed(text).len() <= k < text.len() ==> white(#[trigger] text[k])
}

proof fn lemma_front(text: Seq<char>)
    ensures
        trimmed_start(text).len() <= text.len(),
        trimmed_start(text) == text.skip(text.len() - trimmed_start(text).len()),
        forall|k: int|
            0 <= k < text.len() - trimmed_start(text).len() ==> white(#[trigger] text[k]),
    decreases text.len(),
{
    let start = trimmed_start(text);
    if text.len() > 0 && white(text[0]) {
        let rest = text.drop_first();
        lemma_front(rest);
        assert(start =~= text.skip(text.len() - start.len()));
        assert forall|k: int| 0 <= k < text.len() - start.len() implies white(#[trigger] text[k]) by {
            if k > 0 {
                assert(rest[k - 1] == text[k]);
            }
        }
    } else {
        assert(text.skip(0) =~= text);
    }
}

proof fn lemma_back(text: Seq<char>)
    ensures
        trimmed_end(text).len() <= text.len(),
        trimmed_end(text) == text.take(trimmed_end(text).len() as int),
        forall|k: int| trimmed_end(text).len() <= k < text.len() ==> white(#[trigger] text[k]),
    decreases text.len(),
{
    let end = trimmed_end(text);
    if text.len() > 0 && white(text.last()) {
        let rest = text.drop_last();
        lemma_back(rest);
        assert(end =~= text.take(end.len() as int));
        assert forall|k: int| end.len() <= k < text.len() implies white(#[trigger] text[k]) by {
            if k < rest.len() {
                assert(rest[k] == text[k]);
            }
        }
    } else {
        assert(text.take(text.len() as int) =~= text);
    }
}

/// The lines of a text hold no newline, and joined by newlines they are the text.
pub proof fn law_lines_make_up_the_text(text: Seq<char>)
    ensures
        lines(text).len() > 0,
        forall|i: int| 0 <= i < lines(text).len() ==> !(#[trigger] lines(text)[i]).contains('\n'),
        join(lines(text), seq!['\n']) == text,
    decreases text.len(),
{
    let newline = seq!['\n'];
    if text.len() == 0 {
        assert(join(lines(text), newline) =~= text);
    } else {
        let front = text.drop_last();
        let before = lines(front);
        law_lines_make_up_the_text(front);
        assert(front.push(text.last()) =~= text);
        let after = lines(text);
        if text.last() == '\n' {
            assert(after.drop_last() =~= before);
            assert(join(after, newline) =~= text);
        } else {
            let (head, last) = (before.drop_last(), before.last());
            assert(!before[before.len() - 1].contains('\n'));
            assert(after.drop_last() =~= head);
            assert forall|i: int| 0 <= i < after.len() implies !(
            #[trigger] after[i]).contains('\n') by {
                if i < head.len() {
                    assert(after[i] == before[i]);
                } else {
                    assert forall|k: int| 0 <= k < after[i].len() implies after[i][k] != '\n' by {
                        if k < last.len() {
                            assert(last.contains(last[k]));
                        }
                    }
                }
            }
            assert(head.push(last) =~= before);
            assert(join(after, newline) =~= text);
        }
    }
}

/// The decimal text of a number has no zero in front but for zero itself, and a
/// negative one has a minus sign before the text of its size.
pub proof fn law_decimals_are_short(n: nat)
    ensures
        n > 0 ==> decimal(n)[0] != '0',
        n < 10 ==> decimal(n).len() == 1,
        n > 0 ==> signed_decimal(-(n as int)) == seq!['-'] + decimal(n),
        signed_decimal(n as int) == decimal(n),
    decreases n,
{
    if n >= 10 {
        law_decimals_are_short(n / 10);
        lemma_decimal(n / 10);
        assert(decimal(n)[0] == decimal(n / 10)[0]);
    }
}

/// Different numbers have different decimal texts.
pub proof fn law_decimals_differ(a: nat, b: nat)
    requires
        decimal(a) == decimal(b),
    ensures
        a == b,
{
    lemma_decimal(a);
    lemma_decimal(b);
}

/// A text comes before another where it is a beginning of it, or where the first
/// character that differs is the lesser.
pub proof fn law_the_first_difference_decides(a: Seq<char>, b: Seq<char>, i: int)
    requires
        0 <= i <= a.len(),
        i <= b.len(),
        forall|k: int| 0 <= k < i ==> #[trigger] a[k] == b[k],
    ensures
        i == a.len() && i < b.len() ==> before(a, b),
        i == b.len() ==> !before(a, b),
        i < a.len() && i < b.len() && a[i] != b[i] ==> before(a, b) == (a[i] < b[i]),
    decreases i,
{
    if i > 0 {
        let (p, q) = (a.skip(1), b.skip(1));
        assert(a[0] == b[0]);
        assert forall|k: int| 0 <= k < i - 1 implies #[trigger] p[k] == q[k] by {
            assert(a[k + 1] == b[k + 1]);
        }
        law_the_first_difference_decides(p, q, i - 1);
    }
}

/// A search finds the first place, or the last, at which a piece stands, and says
/// that there is none only where there is none.
pub proof fn law_searches_find_what_is_there(text: Seq<char>, piece: Seq<char>, i: int)
    requires
        piece.len() > 0,
        0 <= i,
        i + piece.len() <= text.len(),
        forall|k: int| 0 <= k < piece.len() ==> text[i + k] == #[trigger] piece[k],
    ensures
        first_from(text, piece, 0) matches Some(f) && 0 <= f <= i && text.subrange(
            f,
            f + piece.len(),
        ) == piece,
        last_upto(text, piece, text.len() - piece.len()) matches Some(l) && i <= l <= text.len()
            - piece.len() && text.subrange(l, l + piece.len()) == piece,
{
    assert(text.subrange(i, i + piece.len()) =~= piece);
    lemma_first_found(text, piece, 0, i);
    lemma_last_found(text, piece, text.len() - piece.len(), i);
}

proof fn lemma_first_found(text: Seq<char>, piece: Seq<char>, at: int, i: int)
    requires
        piece.len() > 0,
        0 <= at <= i,
        occurs(text, piece, i),
    ensures
        first_from(text, piece, at) matches Some(f) && at <= f <= i && occurs(text, piece, f),
    decreases i - at,
{
    if at < i && !occurs(text, piece, at) {
        lemma_first_found(text, piece, at + 1, i);
    }
}

proof fn lemma_last_found(text: Seq<char>, piece: Seq<char>, at: int, i: int)
    requires
        0 <= i <= at,
        occurs(text, piece, i),
    ensures
        last_upto(text, piece, at) matches Some(l) && i <= l <= at && occurs(text, piece, l),
    decreases at - i,
{
    if at > i && !occurs(text, piece, at) {
        lemma_last_found(text, piece, at - 1, i);
    }
}

/// White space is what Unicode counts as such, and nothing else.
pub proof fn law_white_space(c: char)
    ensures
        white(c) <==> {
            let n = c as int;
            ||| 9 <= n <= 13
            ||| n == 32
            ||| n == 133
            ||| n == 160
            ||| n == 5760
            ||| 8192 <= n <= 8202
            ||| n == 8232
            ||| n == 8233
            ||| n == 8239
            ||| n == 8287
            ||| n == 12288
        },
{
}

/// A text of digits is a number: each further digit counts one, and those before it
/// ten times as much, so that zeros in front count nothing. It is read where it is
/// within the limit.
pub proof fn law_digits_are_numbers(text: Seq<char>, limit: nat, d: int)
    requires
        0 <= d < 10,
        text.len() > 0,
        forall|i: int| 0 <= i < text.len() ==> '0' <= #[trigger] text[i] <= '9',
    ensures
        number_within(text, limit) == if number_of(text) <= limit {
            Some(number_of(text))
        } else {
            None
        },
        number_of(text.push(digit(d))) == 10 * number_of(text) + d,
        number_of(seq![digit(d)]) == d,
        digit(d) as int == '0' as int + d,
        number_within(seq!['+'] + text, limit) == number_within(text, limit),
{
    reveal_with_fuel(number_of, 2);
    assert(text.push(digit(d)).drop_last() =~= text);
    assert(seq![digit(d)].drop_last() =~= Seq::<char>::empty());
    assert('0' <= text[0] <= '9');
    assert((seq!['+'] + text).skip(1) =~= text);
}

/// A text with another character than a digit, but for a plus sign in front, is no
/// number, and neither is one without digits.
pub proof fn law_other_texts_are_no_numbers(text: Seq<char>, limit: nat, i: int)
    ensures
        0 <= i < text.len() && !('0' <= text[i] <= '9') && !(i == 0 && text[0] == '+')
            ==> number_within(text, limit) is None,
        text.len() == 0 ==> number_within(text, limit) is None,
        text == seq!['+'] ==> number_within(text, limit) is None,
        number_within(text, limit) matches Some(n) ==> n <= limit,
{
    if 0 <= i < text.len() && !('0' <= text[i] <= '9') && !(i == 0 && text[0] == '+') {
        let rest = text.skip(1);
        if text[0] == '+' {
            assert(rest[i - 1] == text[i]);
            assert(!all_digits(rest));
        } else {
            assert(!all_digits(text));
        }
    }
}

/// Texts are seen as what they are, each at its place.
pub proof fn law_texts_are_seen_as_they_are(items: Seq<String>)
    ensures
        texts(items).len() == items.len(),
        forall|i: int| 0 <= i < items.len() ==> #[trigger] texts(items)[i] == items[i]@,
{
}

/// A text without a newline is one line; it is written without the white space
/// around it, unless it is blank.
pub proof fn law_a_text_without_newlines_is_one_line(text: Seq<char>)
    requires
        !text.contains('\n'),
    ensures
        lines(text) == seq![text],
        written_lines(text) == if trimmed(text).len() > 0 {
            seq![trimmed(text)]
        } else {
            Seq::empty()
        },
{
    lemma_one_line(text);
    let cut = |l: Seq<char>| trimmed(l);
    let keep = |l: Seq<char>| l.len() > 0;
    let all = lines(text).map_values(cut);
    assert(all =~= seq![trimmed(text)]);
    reveal(Seq::filter);
    assert(all.drop_last() =~= Seq::<Seq<char>>::empty());
    assert(Seq::<Seq<char>>::empty().filter(keep) =~= Seq::<Seq<char>>::empty());
    assert(written_lines(text) =~= if trimmed(text).len() > 0 {
        seq![trimmed(text)]
    } else {
        Seq::empty()
    });
}

proof fn lemma_one_line(text: Seq<char>)
    requires
        !text.contains('\n'),
    ensures
        lines(text) == seq![text],
    decreases text.len(),
{
    if text.len() == 0 {
        assert(text =~= Seq::<char>::empty());
        assert(lines(text) =~= seq![text]);
    } else {
        let front = text.drop_last();
        assert(text.contains(text[text.len() - 1]));
        assert forall|k: int| 0 <= k < front.len() implies front[k] != '\n' by {
            assert(text.contains(text[k]));
        }
        lemma_one_line(front);
        assert(front.push(text.last()) =~= text);
        assert(lines(text) =~= seq![text]);
    }
}

} // verus!
