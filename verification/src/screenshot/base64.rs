//! Canonical padded base64, judged by shape and size without decoding.

use vstd::prelude::*;
use vstd::string::*;

verus! {

/// The most bytes that one chunk may decode to.
pub const MAX_CHUNK_BYTES: u64 = 64 * 1024;

/// The padding character.
pub const PAD: u8 = 61;

/// The base64 character of a six-bit value.
pub open spec fn character(value: int) -> u8 {
    if value < 26 {
        (65 + value) as u8
    } else if value < 52 {
        (97 + value - 26) as u8
    } else if value < 62 {
        (48 + value - 52) as u8
    } else if value == 62 {
        43
    } else {
        47
    }
}

/// The six-bit value of a base64 character.
pub open spec fn digit(b: u8) -> Option<u8> {
    if 65 <= b <= 90 {
        Some((b - 65) as u8)
    } else if 97 <= b <= 122 {
        Some((b - 97 + 26) as u8)
    } else if 48 <= b <= 57 {
        Some((b - 48 + 52) as u8)
    } else if b == 43 {
        Some(62u8)
    } else if b == 47 {
        Some(63u8)
    } else {
        None
    }
}

/// The four characters of up to three bytes, where `count` says how many of the
/// bytes are there.
pub open spec fn quad(a: u8, b: u8, c: u8, count: int) -> Seq<u8> {
    seq![
        character(a as int / 4),
        character(a as int % 4 * 16 + b as int / 16),
        if count > 1 {
            character(b as int % 16 * 4 + c as int / 64)
        } else {
            PAD
        },
        if count > 2 {
            character(c as int % 64)
        } else {
            PAD
        },
    ]
}

/// The padded base64 text of some bytes.
pub open spec fn encoded(bytes: Seq<u8>) -> Seq<u8>
    decreases bytes.len(),
{
    if bytes.len() == 0 {
        Seq::empty()
    } else if bytes.len() == 1 {
        quad(bytes[0], 0, 0, 1)
    } else if bytes.len() == 2 {
        quad(bytes[0], bytes[1], 0, 2)
    } else {
        quad(bytes[0], bytes[1], bytes[2], 3) + encoded(bytes.skip(3))
    }
}

/// A quad of four digits.
spec fn full(s: Seq<u8>) -> bool {
    s.len() >= 4 && digit(s[0]) is Some && digit(s[1]) is Some && digit(s[2]) is Some && digit(
        s[3],
    ) is Some
}

/// How many bytes a closing quad stands for; zero where it is malformed.
spec fn closing(s: Seq<u8>) -> int {
    if s.len() != 4 || digit(s[0]) is None || digit(s[1]) is None {
        0
    } else if s[3] != PAD {
        if full(s) {
            3
        } else {
            0
        }
    } else if s[2] != PAD {
        if digit(s[2]) is Some && digit(s[2])->0 % 4 == 0 {
            2
        } else {
            0
        }
    } else if digit(s[1])->0 % 16 == 0 {
        1
    } else {
        0
    }
}

/// How many bytes a text stands for; zero where it is malformed.
spec fn length_of(s: Seq<u8>) -> int
    decreases s.len(),
{
    if s.len() <= 4 {
        closing(s)
    } else if full(s) && length_of(s.skip(4)) > 0 {
        3 + length_of(s.skip(4))
    } else {
        0
    }
}

/// The bytes that a well-formed text stands for.
spec fn decoded(s: Seq<u8>) -> Seq<u8>
    decreases s.len(),
{
    let v0 = digit(s[0])->0 as int;
    let v1 = digit(s[1])->0 as int;
    let v2 = digit(s[2])->0 as int;
    let v3 = digit(s[3])->0 as int;
    let a = (v0 * 4 + v1 / 16) as u8;
    let b = (v1 % 16 * 16 + v2 / 4) as u8;
    let c = (v2 % 4 * 64 + v3) as u8;
    if s.len() <= 4 {
        if closing(s) == 1 {
            seq![a]
        } else if closing(s) == 2 {
            seq![a, b]
        } else {
            seq![a, b, c]
        }
    } else {
        seq![a, b, c] + decoded(s.skip(4))
    }
}

proof fn lemma_digit(value: int)
    requires
        0 <= value < 64,
    ensures
        digit(character(value)) == Some(value as u8),
        character(value) != PAD,
{
}

proof fn lemma_character(b: u8)
    requires
        digit(b) is Some,
    ensures
        digit(b)->0 < 64,
        character(digit(b)->0 as int) == b,
        b != PAD,
{
}

/// The text of some bytes is well formed and tells their number.
proof fn lemma_encoded_is_well_formed(bytes: Seq<u8>)
    requires
        bytes.len() > 0,
    ensures
        encoded(bytes).len() >= 4,
        length_of(encoded(bytes)) == bytes.len(),
    decreases bytes.len(),
{
    let a = bytes[0];
    let b = if bytes.len() > 1 {
        bytes[1]
    } else {
        0u8
    };
    let c = if bytes.len() > 2 {
        bytes[2]
    } else {
        0u8
    };
    lemma_digit(a as int / 4);
    lemma_digit(a as int % 4 * 16 + b as int / 16);
    lemma_digit(b as int % 16 * 4 + c as int / 64);
    lemma_digit(c as int % 64);
    if bytes.len() > 3 {
        lemma_encoded_is_well_formed(bytes.skip(3));
        assert(encoded(bytes).skip(4) =~= encoded(bytes.skip(3)));
    } else if bytes.len() == 3 {
        assert(encoded(bytes.skip(3)) =~= Seq::<u8>::empty());
        assert(encoded(bytes) =~= quad(a, b, c, 3));
    }
}

/// Four digits make up three bytes, and three bytes four digits.
proof fn lemma_quad(v0: int, v1: int, v2: int, v3: int)
    requires
        0 <= v0 < 64,
        0 <= v1 < 64,
        0 <= v2 < 64,
        0 <= v3 < 64,
    ensures
        0 <= v0 * 4 + v1 / 16 < 256,
        0 <= v1 % 16 * 16 + v2 / 4 < 256,
        0 <= v2 % 4 * 64 + v3 < 256,
        (v0 * 4 + v1 / 16) / 4 == v0,
        (v0 * 4 + v1 / 16) % 4 * 16 + (v1 % 16 * 16 + v2 / 4) / 16 == v1,
        (v1 % 16 * 16 + v2 / 4) % 16 * 4 + (v2 % 4 * 64 + v3) / 64 == v2,
        (v2 % 4 * 64 + v3) % 64 == v3,
{
}

/// A well-formed text is the text of the bytes that it stands for.
#[verifier::rlimit(40)]
#[verifier::spinoff_prover]
proof fn lemma_well_formed_is_encoded(s: Seq<u8>)
    requires
        length_of(s) > 0,
    ensures
        decoded(s).len() == length_of(s),
        encoded(decoded(s)) == s,
    decreases s.len(),
{
    lemma_character(s[0]);
    lemma_character(s[1]);
    if digit(s[2]) is Some {
        lemma_character(s[2]);
    }
    if digit(s[3]) is Some {
        lemma_character(s[3]);
    }
    let v0 = digit(s[0])->0 as int;
    let v1 = digit(s[1])->0 as int;
    let v2 = if digit(s[2]) is Some {
        digit(s[2])->0 as int
    } else {
        0
    };
    let v3 = if digit(s[3]) is Some {
        digit(s[3])->0 as int
    } else {
        0
    };
    lemma_quad(v0, v1, v2, v3);
    let d = decoded(s);
    if s.len() <= 4 {
        if closing(s) == 3 {
            assert(d.skip(3) =~= Seq::<u8>::empty());
            assert(encoded(d.skip(3)) =~= Seq::<u8>::empty());
        }
        assert(encoded(d) =~= s);
    } else {
        lemma_well_formed_is_encoded(s.skip(4));
        assert(d.skip(3) =~= decoded(s.skip(4)));
        assert(encoded(d) =~= s);
    }
}

/// Whether a text is the canonical base64 of some bytes of this number, within
/// the limit of a chunk.
pub open spec fn stands_for(data: Seq<u8>, count: int) -> bool {
    1 <= count <= MAX_CHUNK_BYTES && exists|bytes: Seq<u8>|
        bytes.len() == count && #[trigger] encoded(bytes) == data
}

/// A text is the base64 of at most one sequence of bytes.
pub proof fn law_decoding_is_unique(a: Seq<u8>, b: Seq<u8>)
    requires
        encoded(a) == encoded(b),
    ensures
        a == b,
    decreases a.len(),
{
    if a.len() == 0 || b.len() == 0 {
        if a.len() > 0 {
            lemma_encoded_is_well_formed(a);
        }
        if b.len() > 0 {
            lemma_encoded_is_well_formed(b);
        }
        assert(a =~= b);
    } else {
        lemma_encoded_is_well_formed(a);
        lemma_encoded_is_well_formed(b);
        lemma_first_quad(a, b);
        if a.len() > 3 {
            assert(encoded(a).skip(4) =~= encoded(a.skip(3)));
            assert(encoded(b).skip(4) =~= encoded(b.skip(3)));
            law_decoding_is_unique(a.skip(3), b.skip(3));
            assert(a =~= a.take(3) + a.skip(3));
            assert(b =~= b.take(3) + b.skip(3));
            assert(a.take(3) =~= b.take(3));
        }
        assert(a =~= b);
    }
}

/// Equal texts of equal lengths begin with the same bytes.
proof fn lemma_first_quad(a: Seq<u8>, b: Seq<u8>)
    requires
        a.len() == b.len(),
        a.len() > 0,
        encoded(a) == encoded(b),
    ensures
        a[0] == b[0],
        a.len() > 1 ==> a[1] == b[1],
        a.len() > 2 ==> a[2] == b[2],
{
    let n = a.len();
    let qa = quad(
        a[0],
        if n > 1 {
            a[1]
        } else {
            0
        },
        if n > 2 {
            a[2]
        } else {
            0
        },
        n as int,
    );
    let qb = quad(
        b[0],
        if n > 1 {
            b[1]
        } else {
            0
        },
        if n > 2 {
            b[2]
        } else {
            0
        },
        n as int,
    );
    assert(encoded(a).take(4) =~= qa);
    assert(encoded(b).take(4) =~= qb);
    assert(qa[0] == qb[0] && qa[1] == qb[1] && qa[2] == qb[2] && qa[3] == qb[3]);
    lemma_quad_values(
        a[0],
        if n > 1 {
            a[1]
        } else {
            0
        },
        if n > 2 {
            a[2]
        } else {
            0
        },
    );
    lemma_quad_values(
        b[0],
        if n > 1 {
            b[1]
        } else {
            0
        },
        if n > 2 {
            b[2]
        } else {
            0
        },
    );
}

proof fn lemma_quad_values(a: u8, b: u8, c: u8)
    ensures
        digit(character(a as int / 4)) == Some((a as int / 4) as u8),
        digit(character(a as int % 4 * 16 + b as int / 16)) == Some(
            (a as int % 4 * 16 + b as int / 16) as u8,
        ),
        digit(character(b as int % 16 * 4 + c as int / 64)) == Some(
            (b as int % 16 * 4 + c as int / 64) as u8,
        ),
        digit(character(c as int % 64)) == Some((c as int % 64) as u8),
{
    lemma_digit(a as int / 4);
    lemma_digit(a as int % 4 * 16 + b as int / 16);
    lemma_digit(b as int % 16 * 4 + c as int / 64);
    lemma_digit(c as int % 64);
}

/// The six-bit value of a base64 character.
fn digit_of(b: u8) -> (value: Option<u8>)
    ensures
        value == digit(b),
{
    if 65 <= b && b <= 90 {
        Some(b - 65)
    } else if 97 <= b && b <= 122 {
        Some(b - 97 + 26)
    } else if 48 <= b && b <= 57 {
        Some(b - 48 + 52)
    } else if b == 43 {
        Some(62)
    } else if b == 47 {
        Some(63)
    } else {
        None
    }
}

/// The number of bytes that a text stands for, where it is canonical padded
/// base64 of at least one and at most [`MAX_CHUNK_BYTES`] bytes. Nothing is
/// decoded or assembled.
pub fn decoded_chunk_len(data: &str) -> (length: Result<u64, ()>)
    ensures
        match length {
            Ok(n) => stands_for(data.spec_bytes(), n as int),
            Err(_) => forall|n: int| !stands_for(data.spec_bytes(), n),
        },
{
    let bytes: &[u8] = data.as_bytes();
    let ghost s = bytes@;
    proof {
        assert forall|n: int| stands_for(s, n) implies length_of(s) == n && s.len() >= 4 by {
            let b = choose|b: Seq<u8>| b.len() == n && #[trigger] encoded(b) == s;
            lemma_encoded_is_well_formed(b);
        }
        if length_of(s) > 0 {
            lemma_well_formed_is_encoded(s);
            assert(encoded(decoded(s)) == s);
        }
        lemma_length_is_bounded(s);
    }
    let total: usize = bytes.len();
    if total == 0 || total % 4 != 0 || total > 87384 {
        return Err(());
    }
    let mut i: usize = 0;
    assert(s.skip(0) =~= s);
    while i < total - 4
        invariant
            total == s.len(),
            s == bytes@,
            s == data.spec_bytes(),
            total % 4 == 0,
            i % 4 == 0,
            4 <= total <= 87384,
            i <= total - 4,
            length_of(s) == if length_of(s.skip(i as int)) > 0 {
                i as int / 4 * 3 + length_of(s.skip(i as int))
            } else {
                0
            },
            forall|n: int| stands_for(s, n) ==> length_of(s) == n,
        decreases total - i,
    {
        let ghost rest = s.skip(i as int);
        if digit_of(bytes[i]).is_none() || digit_of(bytes[i + 1]).is_none() || digit_of(
            bytes[i + 2],
        ).is_none() || digit_of(bytes[i + 3]).is_none() {
            assert(!full(rest));
            assert(length_of(s) == 0);
            return Err(());
        }
        assert(full(rest));
        assert(rest.skip(4) =~= s.skip(i + 4));
        i += 4;
    }
    let ghost rest = s.skip(i as int);
    assert(rest.len() == 4);
    let (d0, d1, d2, d3) = (
        digit_of(bytes[i]),
        digit_of(bytes[i + 1]),
        digit_of(bytes[i + 2]),
        digit_of(bytes[i + 3]),
    );
    let last: u64 = match (d0, d1, d2, d3) {
        (Some(_), Some(_), Some(_), Some(_)) => 3,
        (Some(_), Some(_), Some(v), None) => if bytes[i + 3] == PAD && v % 4 == 0 {
            2
        } else {
            0
        },
        (Some(_), Some(v), None, None) => if bytes[i + 2] == PAD && bytes[i + 3] == PAD && v % 16
            == 0 {
            1
        } else {
            0
        },
        _ => 0,
    };
    assert(last == closing(rest));
    if last == 0 {
        return Err(());
    }
    let length: u64 = i as u64 / 4 * 3 + last;
    assert(length == length_of(s));
    if length > MAX_CHUNK_BYTES {
        return Err(());
    }
    Ok(length)
}

/// A text that stands for bytes holds four characters for every three of them.
proof fn lemma_length_is_bounded(s: Seq<u8>)
    ensures
        length_of(s) > 0 ==> s.len() % 4 == 0 && s.len() >= 4 && s.len() / 4 * 3 - 2 <= length_of(s),
    decreases s.len(),
{
    if s.len() > 4 {
        lemma_length_is_bounded(s.skip(4));
    }
}

// ---------------------------------------------------------------------------
// Bytes and characters
// ---------------------------------------------------------------------------

/// The characters of the alphabet: capital letters, small letters, digits, plus and
/// slash stand for the values up to 63, in this order, and no other does.
pub proof fn law_the_alphabet(v: int, b: u8)
    ensures
        0 <= v < 26 ==> character(v) == 'A' as int + v && digit(character(v)) == Some(v as u8),
        26 <= v < 52 ==> character(v) == 'a' as int + (v - 26) && digit(character(v)) == Some(
            v as u8,
        ),
        52 <= v < 62 ==> character(v) == '0' as int + (v - 52) && digit(character(v)) == Some(
            v as u8,
        ),
        v == 62 ==> character(v) == '+' as int && digit(character(v)) == Some(62u8),
        v == 63 ==> character(v) == '/' as int && digit(character(v)) == Some(63u8),
        digit(b) matches Some(d) ==> d < 64 && character(d as int) == b,
{
}

/// The number that four digits make up.
pub open spec fn four(a: u8, b: u8, c: u8, d: u8) -> int {
    digit(a)->0 * 262144 + digit(b)->0 * 4096 + digit(c)->0 * 64 + digit(d)->0
}

/// Three bytes are four characters that make up the same number, one or two bytes
/// are padded, and longer texts are put together from groups of three bytes.
pub proof fn law_three_bytes_are_four_characters(a: u8, b: u8, c: u8, bytes: Seq<u8>, rest: Seq<u8>)
    ensures
        ({
            let s = encoded(seq![a, b, c]);
            &&& s.len() == 4
            &&& four(s[0], s[1], s[2], s[3]) == a * 65536 + b * 256 + c
        }),
        ({
            let s = encoded(seq![a, b]);
            &&& s.len() == 4
            &&& s[3] == '=' as int
            &&& four(s[0], s[1], s[2], 65) == a * 65536 + b * 256
        }),
        ({
            let s = encoded(seq![a]);
            &&& s.len() == 4
            &&& s[2] == '=' as int && s[3] == '=' as int
            &&& four(s[0], s[1], 65, 65) == a * 65536
        }),
        encoded(Seq::empty()).len() == 0,
        bytes.len() % 3 == 0 ==> encoded(bytes + rest) == encoded(bytes) + encoded(rest),
        encoded(bytes).len() == (bytes.len() + 2) / 3 * 4,
    decreases bytes.len(),
{
    lemma_quad_is_number(a, b, c);
    assert(seq![a, b, c].skip(3) =~= Seq::<u8>::empty());
    assert(encoded(Seq::<u8>::empty()) =~= Seq::<u8>::empty());
    assert(encoded(seq![a, b, c]) =~= quad(a, b, c, 3));
    if bytes.len() == 0 {
        assert(bytes + rest =~= rest);
        assert(encoded(bytes) + encoded(rest) =~= encoded(rest));
    } else if bytes.len() >= 3 {
        law_three_bytes_are_four_characters(a, b, c, bytes.skip(3), rest);
        assert((bytes + rest).skip(3) =~= bytes.skip(3) + rest);
        if bytes.len() % 3 == 0 {
            assert(encoded(bytes + rest) =~= encoded(bytes) + encoded(rest));
        }
    }
}

proof fn lemma_quad_is_number(a: u8, b: u8, c: u8)
    ensures
        ({
            let s = quad(a, b, c, 3);
            four(s[0], s[1], s[2], s[3]) == a * 65536 + b * 256 + c
        }),
        ({
            let s = quad(a, b, 0, 2);
            four(s[0], s[1], s[2], 65) == a * 65536 + b * 256
        }),
        ({
            let s = quad(a, 0, 0, 1);
            four(s[0], s[1], 65, 65) == a * 65536
        }),
{
    law_the_alphabet(a as int / 4, 0);
    law_the_alphabet(a as int % 4 * 16 + b as int / 16, 0);
    law_the_alphabet(a as int % 4 * 16, 0);
    law_the_alphabet(b as int % 16 * 4 + c as int / 64, 0);
    law_the_alphabet(b as int % 16 * 4, 0);
    law_the_alphabet(c as int % 64, 0);
}

/// A chunk stands for 1 to 65536 bytes, and for the bytes that its text encodes.
pub proof fn law_a_chunk_stands_for_its_bytes(bytes: Seq<u8>, data: Seq<u8>, count: int)
    ensures
        stands_for(encoded(bytes), bytes.len() as int) <==> 1 <= bytes.len() <= 65_536,
        stands_for(data, count) ==> 1 <= count <= 65_536 && exists|b: Seq<u8>|
            b.len() == count && #[trigger] encoded(b) == data,
{
}

} // verus!
