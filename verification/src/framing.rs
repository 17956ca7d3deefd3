//! Framing of JSON messages for the client-facing edge.
//!
//! Terminal clients use one line per message. Native messaging hosts of browsers
//! use a length prefix of four little-endian bytes. The framing cannot be told
//! from the first byte: a message of 123 bytes has the prefix `{`.

use crate::text::{
    law_trimmed_texts_stay, lemma_encoded_push, one_line, trim, trimmed, trimmed_start,
};
use vstd::prelude::*;
use vstd::utf8::{
    decode_utf8, encode_scalar, encode_utf8, encode_utf8_decode_utf8, encode_utf8_valid_utf8,
    last_continuation_byte, leading_byte_width_1, leading_byte_width_2, leading_byte_width_3,
    leading_byte_width_4, second_last_continuation_byte, third_last_continuation_byte, valid_utf8,
};

verus! {

/// How messages are set apart.
#[derive(Debug, Clone, Copy, PartialEq, Eq, Structural)]
pub enum Framing {
    Ndjson,
    Lpjson,
}

/// The framing in use, given the one that was chosen, if one was.
pub open spec fn chosen(slot: Option<Framing>) -> Framing {
    match slot {
        Some(f) => f,
        None => Framing::Ndjson,
    }
}

/// Chooses the framing. The first choice stays.
pub fn set_framing(slot: &mut Option<Framing>, f: Framing)
    ensures
        *final(slot) == match *old(slot) {
            Some(earlier) => Some(earlier),
            None => Some(f),
        },
{
    if slot.is_none() {
        *slot = Some(f);
    }
}

/// Settles on the framing by lines where none was chosen.
pub fn init_default(slot: &mut Option<Framing>)
    ensures
        *final(slot) == Some(chosen(*old(slot))),
{
    set_framing(slot, Framing::Ndjson);
}

/// The framing in use.
pub fn framing(slot: &Option<Framing>) -> (f: Framing)
    ensures
        f == chosen(*slot),
{
    match slot {
        Some(f) => *f,
        None => Framing::Ndjson,
    }
}

/// The four little-endian bytes of a number.
pub open spec fn prefix(n: int) -> Seq<u8> {
    seq![
        (n % 256) as u8,
        (n / 256 % 256) as u8,
        (n / 65536 % 256) as u8,
        (n / 16777216 % 256) as u8,
    ]
}

/// The number of four little-endian bytes.
pub open spec fn number(bytes: Seq<u8>) -> int {
    bytes[0] + bytes[1] * 256 + bytes[2] * 65536 + bytes[3] * 16777216
}

/// A message as it is written. A length prefix counts modulo 2^32.
pub open spec fn frame(f: Framing, message: Seq<u8>) -> Seq<u8> {
    match f {
        Framing::Ndjson => message.push(10),
        Framing::Lpjson => prefix(message.len() as int) + message,
    }
}

fn append(out: &mut Vec<u8>, bytes: &[u8])
    ensures
        final(out)@ == old(out)@ + bytes@,
{
    let ghost before = out@;
    let mut i: usize = 0;
    while i < bytes.len()
        invariant
            i <= bytes@.len(),
            out@ == before + bytes@.take(i as int),
        decreases bytes@.len() - i,
    {
        out.push(bytes[i]);
        assert(bytes@.take(i + 1) =~= bytes@.take(i as int).push(bytes@[i as int]));
        i += 1;
    }
    assert(bytes@.take(i as int) =~= bytes@);
}

/// Writes a message for the client, framed as it was chosen.
pub fn write_client(slot: &Option<Framing>, out: &mut Vec<u8>, bytes: &[u8])
    ensures
        final(out)@ == old(out)@ + frame(chosen(*slot), bytes@),
{
    let ghost before = out@;
    match framing(slot) {
        Framing::Ndjson => {
            append(out, bytes);
            out.push(10);
            assert(out@ =~= before + bytes@.push(10));
        },
        Framing::Lpjson => {
            let n: usize = bytes.len();
            out.push((n % 256) as u8);
            out.push((n / 256 % 256) as u8);
            out.push((n / 65536 % 256) as u8);
            out.push((n / 16777216 % 256) as u8);
            assert(out@ =~= before + prefix(n as int));
            append(out, bytes);
            assert(out@ =~= before + (prefix(n as int) + bytes@));
        },
    }
}

/// `String::from_utf8` takes exactly the valid encodings, and gives the text that
/// is encoded.
#[verifier::external_body]
fn decoded(bytes: Vec<u8>) -> (text: Option<String>)
    ensures
        match text {
            Some(s) => valid_utf8(bytes@) && s@ == decode_utf8(bytes@),
            None => !valid_utf8(bytes@),
        },
{
    String::from_utf8(bytes).ok()
}

/// What can be read from the bytes of a stream that are there.
pub enum Reading {
    /// A message, and how many bytes it took.
    Message(Seq<char>, int),
    /// More bytes are needed.
    More,
    /// There is no further message.
    End,
}

/// What was read from the bytes of a stream that are there.
#[derive(Debug)]
pub enum Incoming {
    /// A message, and how many bytes it took.
    Message { text: String, used: usize },
    /// More bytes are needed.
    More,
    /// There is no further message.
    End,
}

impl Incoming {
    pub open spec fn view(&self) -> Reading {
        match self {
            Incoming::Message { text, used } => Reading::Message(text@, *used as int),
            Incoming::More => Reading::More,
            Incoming::End => Reading::End,
        }
    }
}

/// What stands in for bytes that are not there.
pub open spec fn lacking(ended: bool) -> Reading {
    if ended {
        Reading::End
    } else {
        Reading::More
    }
}

/// A message with a length prefix, at the front of the bytes.
pub open spec fn read_prefixed(bytes: Seq<u8>, ended: bool) -> Reading {
    if bytes.len() < 4 || bytes.len() < 4 + number(bytes) {
        lacking(ended)
    } else {
        let body = bytes.subrange(4, 4 + number(bytes));
        if valid_utf8(body) {
            Reading::Message(decode_utf8(body), 4 + number(bytes))
        } else {
            Reading::End
        }
    }
}

/// The end of the line that begins at a place: behind its newline, or at the end
/// of the bytes.
pub open spec fn line_end(bytes: Seq<u8>, from: int) -> int
    decreases bytes.len() - from,
{
    if from >= bytes.len() {
        from
    } else if bytes[from] == 10 {
        from + 1
    } else {
        line_end(bytes, from + 1)
    }
}

/// The first line, from a place on, that holds more than white space.
pub open spec fn read_line(bytes: Seq<u8>, from: int, ended: bool) -> Reading
    decreases bytes.len() - from,
{
    let to = line_end(bytes, from);
    let line = bytes.subrange(from, to);
    if from >= bytes.len() || !(from < to <= bytes.len()) {
        lacking(ended)
    } else if bytes[to - 1] != 10 && !ended {
        Reading::More
    } else if !valid_utf8(line) {
        Reading::End
    } else if trimmed(decode_utf8(line)).len() > 0 {
        Reading::Message(trimmed(decode_utf8(line)), to)
    } else {
        read_line(bytes, to, ended)
    }
}

/// The next message in the bytes of a stream.
pub open spec fn read_message(f: Framing, bytes: Seq<u8>, ended: bool) -> Reading {
    match f {
        Framing::Ndjson => read_line(bytes, 0, ended),
        Framing::Lpjson => read_prefixed(bytes, ended),
    }
}

fn part(bytes: &[u8], from: usize, to: usize) -> (piece: Vec<u8>)
    requires
        from <= to <= bytes@.len(),
    ensures
        piece@ == bytes@.subrange(from as int, to as int),
{
    let mut piece: Vec<u8> = Vec::new();
    let mut i: usize = from;
    assert(piece@ =~= bytes@.subrange(from as int, from as int));
    while i < to
        invariant
            from <= i <= to <= bytes@.len(),
            piece@ == bytes@.subrange(from as int, i as int),
        decreases to - i,
    {
        piece.push(bytes[i]);
        assert(bytes@.subrange(from as int, i + 1) =~= bytes@.subrange(from as int, i as int).push(
            bytes@[i as int],
        ));
        i += 1;
    }
    piece
}

fn lack(ended: bool) -> (incoming: Incoming)
    ensures
        incoming@ == lacking(ended),
{
    if ended {
        Incoming::End
    } else {
        Incoming::More
    }
}

/// Reads one message with a length prefix from the bytes that are there.
pub fn read_lpjson(bytes: &[u8], ended: bool) -> (incoming: Incoming)
    ensures
        incoming@ == read_prefixed(bytes@, ended),
{
    if bytes.len() < 4 {
        return lack(ended);
    }
    let count: u64 = bytes[0] as u64 + bytes[1] as u64 * 256 + bytes[2] as u64 * 65536
        + bytes[3] as u64 * 16777216;
    assert(count == number(bytes@));
    if count > (bytes.len() - 4) as u64 {
        return lack(ended);
    }
    let end: usize = 4 + count as usize;
    match decoded(part(bytes, 4, end)) {
        Some(text) => Incoming::Message { text, used: end },
        None => Incoming::End,
    }
}

fn find_line_end(bytes: &[u8], from: usize) -> (to: usize)
    requires
        from <= bytes@.len(),
    ensures
        to == line_end(bytes@, from as int),
        from <= to <= bytes@.len(),
{
    let mut i: usize = from;
    while i < bytes.len()
        invariant
            from <= i <= bytes@.len(),
            line_end(bytes@, i as int) == line_end(bytes@, from as int),
        decreases bytes@.len() - i,
    {
        if bytes[i] == 10 {
            return i + 1;
        }
        i += 1;
    }
    i
}

/// Reads the next message of the client from the bytes that are there, framed as
/// it was chosen. Blank lines are skipped.
pub fn read_client_message(slot: &Option<Framing>, bytes: &[u8], ended: bool) -> (incoming: Incoming)
    ensures
        incoming@ == read_message(chosen(*slot), bytes@, ended),
{
    match framing(slot) {
        Framing::Lpjson => read_lpjson(bytes, ended),
        Framing::Ndjson => {
            let mut from: usize = 0;
            while from < bytes.len()
                invariant
                    from <= bytes@.len(),
                    chosen(*slot) == Framing::Ndjson,
                    read_line(bytes@, from as int, ended) == read_line(bytes@, 0, ended),
                decreases bytes@.len() - from,
            {
                let to: usize = find_line_end(bytes, from);
                proof {
                    lemma_line_end(bytes@, from as int);
                }
                if bytes[to - 1] != 10 && !ended {
                    return Incoming::More;
                }
                let line = match decoded(part(bytes, from, to)) {
                    Some(text) => text,
                    None => return Incoming::End,
                };
                let text = trim(line.as_str());
                if !text.as_str().is_empty() {
                    return Incoming::Message { text, used: to };
                }
                from = to;
            }
            lack(ended)
        },
    }
}

proof fn lemma_line_end(bytes: Seq<u8>, from: int)
    requires
        0 <= from < bytes.len(),
    ensures
        from < line_end(bytes, from) <= bytes.len(),
    decreases bytes.len() - from,
{
    reveal_with_fuel(line_end, 2);
    if bytes[from] != 10 && from + 1 < bytes.len() {
        lemma_line_end(bytes, from + 1);
    }
}

proof fn lemma_number_of_prefix(n: int)
    requires
        0 <= n < 0x1_0000_0000,
    ensures
        number(prefix(n)) == n,
{
}

/// A message that was written with a length prefix is read back, whatever
/// follows it, as long as its length fits the prefix.
pub proof fn law_prefixed_messages_come_back(message: Seq<char>, rest: Seq<u8>, ended: bool)
    requires
        encode_utf8(message).len() < 0x1_0000_0000,
    ensures
        ({
            let bytes = encode_utf8(message);
            read_message(
                Framing::Lpjson,
                frame(Framing::Lpjson, bytes) + rest,
                ended,
            ) == Reading::Message(message, 4 + bytes.len() as int)
        }),
{
    let body = encode_utf8(message);
    let bytes = frame(Framing::Lpjson, body) + rest;
    encode_utf8_valid_utf8(message);
    encode_utf8_decode_utf8(message);
    lemma_number_of_prefix(body.len() as int);
    assert(number(bytes) == number(prefix(body.len() as int)));
    assert(bytes.subrange(4, 4 + body.len() as int) =~= body);
}

proof fn lemma_line_of(body: Seq<u8>, rest: Seq<u8>, from: int)
    requires
        forall|i: int| 0 <= i < body.len() ==> body[i] != 10,
        0 <= from <= body.len(),
    ensures
        line_end(body.push(10) + rest, from) == body.len() + 1,
    decreases body.len() - from,
{
    let bytes = body.push(10) + rest;
    if from < body.len() {
        assert(bytes[from] == body[from]);
        lemma_line_of(body, rest, from + 1);
    }
}

/// A message that was written on a line of its own is read back, whatever
/// follows it, as long as it holds no newline and has no white space around it.
pub proof fn law_lines_come_back(message: Seq<char>, rest: Seq<u8>, ended: bool)
    requires
        one_line(message),
    ensures
        ({
            let bytes = encode_utf8(message);
            read_message(
                Framing::Ndjson,
                frame(Framing::Ndjson, bytes) + rest,
                ended,
            ) == Reading::Message(message, bytes.len() as int + 1)
        }),
{
    let body = encode_utf8(message);
    let bytes = frame(Framing::Ndjson, body) + rest;
    lemma_no_newline(message);
    lemma_line_of(body, rest, 0);
    assert(bytes.subrange(0, body.len() as int + 1) =~= body.push(10));
    lemma_encoded_newline(message);
    let line = message.push('\n');
    encode_utf8_valid_utf8(line);
    encode_utf8_decode_utf8(line);
    law_trimmed_texts_stay(message);
    assert(line.drop_last() =~= message);
    assert(trimmed_start(line) == line);
    assert(trimmed(line) == message);
}

/// The encoding of a character other than a newline has no byte of a newline.
proof fn lemma_other_bytes(c: char)
    requires
        c != '\n',
    ensures
        forall|i: int| 0 <= i < encode_scalar(c as u32).len() ==> #[trigger] encode_scalar(c as u32)[i] != 10,
{
    let n = c as u32;
    assert(n != 10);
    assert(n != 10 && n < 0x80 ==> leading_byte_width_1(n) != 10) by (bit_vector);
    assert(leading_byte_width_2(n) != 10) by (bit_vector);
    assert(leading_byte_width_3(n) != 10) by (bit_vector);
    assert(leading_byte_width_4(n) != 10) by (bit_vector);
    assert(last_continuation_byte(n) != 10) by (bit_vector);
    assert(second_last_continuation_byte(n) != 10) by (bit_vector);
    assert(third_last_continuation_byte(n) != 10) by (bit_vector);
}

/// The encoding of a text without newlines has no byte of a newline.
proof fn lemma_no_newline(message: Seq<char>)
    requires
        !message.contains('\n'),
    ensures
        forall|i: int| 0 <= i < encode_utf8(message).len() ==> encode_utf8(message)[i] != 10,
    decreases message.len(),
{
    if message.len() > 0 {
        assert(message.contains(message[0]));
        lemma_other_bytes(message[0]);
        assert forall|c: char| message.drop_first().contains(c) implies message.contains(c) by {
            let i = message.drop_first().index_of(c);
            assert(message[i + 1] == c);
        }
        lemma_no_newline(message.drop_first());
        let (first, others) = (encode_scalar(message[0] as u32), encode_utf8(message.drop_first()));
        assert forall|i: int| 0 <= i < encode_utf8(message).len() implies encode_utf8(message)[i]
            != 10 by {
            if i < first.len() {
                assert(first[i] != 10);
            } else {
                assert(others[i - first.len()] != 10);
            }
        }
    }
}

/// A newline is encoded as one byte.
proof fn lemma_encoded_newline(message: Seq<char>)
    ensures
        encode_utf8(message.push('\n')) == encode_utf8(message).push(10),
{
    lemma_encoded_push(message, '\n');
    assert(leading_byte_width_1(10) == 10) by (bit_vector);
    assert(encode_scalar('\n' as u32) =~= seq![10u8]);
    assert(encode_utf8(message).push(10) =~= encode_utf8(message) + seq![10u8]);
}

// ---------------------------------------------------------------------------
// What a stream gives
// ---------------------------------------------------------------------------

/// What was read is seen as what it is.
pub proof fn law_readings_are_seen_as_they_are(incoming: Incoming)
    ensures
        match incoming {
            Incoming::Message { text, used } => incoming@ == Reading::Message(text@, used as int),
            Incoming::More => incoming@ == Reading::More,
            Incoming::End => incoming@ == Reading::End,
        },
{
}

/// Messages are framed by lines unless lengths were chosen.
pub proof fn law_lines_are_the_usual_framing(f: Framing)
    ensures
        chosen(None) == Framing::Ndjson,
        chosen(Some(f)) == f,
{
}

/// A written message is its bytes and a newline, or its length in four bytes, the
/// lowest first, and its bytes.
pub proof fn law_messages_are_framed(message: Seq<u8>)
    requires
        message.len() < 0x1_0000_0000,
    ensures
        frame(Framing::Ndjson, message) == message + seq![10u8],
        ({
            let framed = frame(Framing::Lpjson, message);
            &&& framed.len() == message.len() + 4
            &&& framed.skip(4) == message
            &&& framed[0] + 256 * framed[1] + 65536 * framed[2] + 16777216 * framed[3]
                == message.len()
        }),
{
    lemma_number_of_prefix(message.len() as int);
    assert(frame(Framing::Ndjson, message) =~= message + seq![10u8]);
    assert(frame(Framing::Lpjson, message).skip(4) =~= message);
}

/// A length that announces more bytes than are there waits for them, or ends with
/// the stream. Bytes that are no text end it too; all others are the text that they
/// encode, and take up exactly their length and the four bytes before it.
pub proof fn law_a_length_counts_its_bytes(bytes: Seq<u8>, ended: bool)
    ensures
        ({
            let read = read_message(Framing::Lpjson, bytes, ended);
            let n = bytes[0] + 256 * bytes[1] + 65536 * bytes[2] + 16777216 * bytes[3];
            if bytes.len() < 4 || bytes.len() - 4 < n {
                read == if ended {
                    Reading::End
                } else {
                    Reading::More
                }
            } else {
                let body = bytes.subrange(4, 4 + n);
                if valid_utf8(body) {
                    read == Reading::Message(decode_utf8(body), 4 + n)
                } else {
                    read == Reading::End
                }
            }
        }),
{
}

/// A reading that begins so many bytes later.
pub open spec fn later(read: Reading, bytes: int) -> Reading {
    match read {
        Reading::Message(text, used) => Reading::Message(text, used + bytes),
        _ => read,
    }
}

proof fn lemma_line_end_later(front: Seq<u8>, rest: Seq<u8>, k: int)
    requires
        0 <= k <= rest.len(),
    ensures
        line_end(front + rest, front.len() + k) == front.len() + line_end(rest, k),
    decreases rest.len() - k,
{
    if k < rest.len() {
        assert((front + rest)[front.len() + k] == rest[k]);
        lemma_line_end_later(front, rest, k + 1);
    }
}

proof fn lemma_read_later(front: Seq<u8>, rest: Seq<u8>, k: int, ended: bool)
    requires
        0 <= k <= rest.len(),
    ensures
        read_line(front + rest, front.len() + k, ended) == later(
            read_line(rest, k, ended),
            front.len() as int,
        ),
    decreases rest.len() - k,
{
    let all = front + rest;
    lemma_line_end_later(front, rest, k);
    if k < rest.len() {
        let to = line_end(rest, k);
        lemma_line_end(rest, k);
        assert(all.subrange(front.len() + k, front.len() + to) =~= rest.subrange(k, to));
        assert(all[front.len() + to - 1] == rest[to - 1]);
        lemma_read_later(front, rest, to, ended);
    }
}

/// A line is read without the white space around it. A blank line is skipped: what
/// follows it is read as if it were the beginning.
pub proof fn law_blank_lines_are_skipped(message: Seq<char>, rest: Seq<u8>, ended: bool)
    requires
        !message.contains('\n'),
    ensures
        ({
            let body = encode_utf8(message);
            let read = read_message(Framing::Ndjson, body.push(10) + rest, ended);
            let text = trimmed(message.push('\n'));
            if text.len() > 0 {
                read == Reading::Message(text, body.len() as int + 1)
            } else {
                read == later(
                    read_message(Framing::Ndjson, rest, ended),
                    body.len() as int + 1,
                )
            }
        }),
{
    let body = encode_utf8(message);
    let front = body.push(10);
    let bytes = front + rest;
    lemma_no_newline_in(message);
    lemma_line_of(body, rest, 0);
    assert(bytes.subrange(0, body.len() as int + 1) =~= front);
    lemma_encoded_newline(message);
    let line = message.push('\n');
    encode_utf8_valid_utf8(line);
    encode_utf8_decode_utf8(line);
    lemma_read_later(front, rest, 0, ended);
}

proof fn lemma_no_newline_in(message: Seq<char>)
    requires
        !message.contains('\n'),
    ensures
        forall|i: int| 0 <= i < encode_utf8(message).len() ==> encode_utf8(message)[i] != 10,
{
    assert forall|i: int| 0 <= i < message.len() implies message[i] != '\n' by {
        assert(message.contains(message[i]));
    }
    lemma_no_newline(message);
}

/// A line that is not finished is waited for; where the stream has ended it is read
/// as it is. Bytes that are no text end the stream.
pub proof fn law_an_unfinished_line_waits(bytes: Seq<u8>)
    requires
        forall|i: int| 0 <= i < bytes.len() ==> bytes[i] != 10,
    ensures
        read_message(Framing::Ndjson, bytes, false) == Reading::More,
        ({
            let read = read_message(Framing::Ndjson, bytes, true);
            let text = trimmed(decode_utf8(bytes));
            if bytes.len() > 0 && valid_utf8(bytes) && text.len() > 0 {
                read == Reading::Message(text, bytes.len() as int)
            } else {
                read == Reading::End
            }
        }),
{
    if bytes.len() > 0 {
        lemma_no_line_end(bytes, 0);
        assert(bytes.subrange(0, bytes.len() as int) =~= bytes);
        assert(read_line(bytes, bytes.len() as int, true) == Reading::End);
    }
}

proof fn lemma_no_line_end(bytes: Seq<u8>, from: int)
    requires
        0 <= from <= bytes.len(),
        forall|i: int| 0 <= i < bytes.len() ==> bytes[i] != 10,
    ensures
        line_end(bytes, from) == bytes.len(),
    decreases bytes.len() - from,
{
    if from < bytes.len() {
        lemma_no_line_end(bytes, from + 1);
    }
}

} // verus!
