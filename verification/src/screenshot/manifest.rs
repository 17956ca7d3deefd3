//! Identities, picture manifests and terminal receipts.

use crate::json::{lemma_key_of_member, members, same, Json, Val};
use crate::serial::{compact, render};
use crate::text::{byte_len, bytes_in, lemma_ascii_len, same_text};
use vstd::prelude::*;
use vstd::string::*;

verus! {

/// The most bytes that one picture may have.
pub const MAX_PNG_BYTES: u64 = 32 * 1024 * 1024;

/// The most bytes that the text of a manifest may have.
pub const MAX_MANIFEST_BYTES: usize = 16 * 1024;

/// A character of an identity.
pub open spec fn id_char(c: char) -> bool {
    ('a' <= c <= 'z') || ('A' <= c <= 'Z') || ('0' <= c <= '9') || c == '-' || c == '_'
}

/// An identity: up to 128 letters, digits, hyphens and underscores.
pub open spec fn id_ok(id: Seq<char>) -> bool {
    0 < id.len() <= 128 && forall|i: int| 0 <= i < id.len() ==> id_char(#[trigger] id[i])
}

/// A digit of a lowercase hexadecimal hash.
pub open spec fn hex_char(c: char) -> bool {
    ('0' <= c <= '9') || ('a' <= c <= 'f')
}

/// The hash of a manifest: 64 lowercase hexadecimal digits.
pub open spec fn hash_ok(hash: Seq<char>) -> bool {
    hash.len() == 64 && forall|i: int| 0 <= i < hash.len() ==> hex_char(#[trigger] hash[i])
}

/// Whether a text can name a call, an operation, an attempt or a project.
pub fn valid_id(id: &str) -> (valid: bool)
    ensures
        valid == id_ok(id@),
{
    if id.is_empty() {
        return false;
    }
    if bytes_in(id) > 128 {
        proof {
            if id_ok(id@) {
                lemma_ascii_len(id@);
            }
        }
        return false;
    }
    let n: usize = id.unicode_len();
    let mut i: usize = 0;
    while i < n
        invariant
            n == id@.len(),
            i <= n,
            byte_len(id@) <= 128,
            forall|j: int| 0 <= j < i ==> id_char(#[trigger] id@[j]),
        decreases n - i,
    {
        let c: char = id.get_char(i);
        if !(('a' <= c && c <= 'z') || ('A' <= c && c <= 'Z') || ('0' <= c && c <= '9') || c == '-'
            || c == '_') {
            return false;
        }
        i += 1;
    }
    proof {
        lemma_ascii_len(id@);
    }
    true
}

/// Whether a text is the hash of a manifest.
fn valid_hash(hash: &str) -> (valid: bool)
    ensures
        valid == hash_ok(hash@),
{
    if bytes_in(hash) != 64 {
        proof {
            if hash_ok(hash@) {
                lemma_ascii_len(hash@);
            }
        }
        return false;
    }
    let n: usize = hash.unicode_len();
    let mut i: usize = 0;
    while i < n
        invariant
            n == hash@.len(),
            i <= n,
            byte_len(hash@) == 64,
            forall|j: int| 0 <= j < i ==> hex_char(#[trigger] hash@[j]),
        decreases n - i,
    {
        let c: char = hash.get_char(i);
        if !(('0' <= c && c <= '9') || ('a' <= c && c <= 'f')) {
            return false;
        }
        i += 1;
    }
    proof {
        lemma_ascii_len(hash@);
    }
    true
}

/// The keys that a list of names stands for.
pub open spec fn names(keys: Seq<&str>) -> Set<Seq<char>> {
    Set::new(|k: Seq<char>| exists|i: int| 0 <= i < keys.len() && #[trigger] keys[i]@ == k)
}

/// Whether a value is an object with no other members than these.
pub(crate) fn has_only(value: &Json, keys: &[&str]) -> (only: bool)
    ensures
        only == (value@ matches Val::Object(m) && m.dom().subset_of(names(keys@))),
{
    match value {
        Json::Object(items) => {
            let mut i: usize = 0;
            while i < items.len()
                invariant
                    i <= items@.len(),
                    value@ == Val::Object(members(items@)),
                    forall|j: int| 0 <= j < i ==> names(keys@).contains(#[trigger] items@[j].0@),
                decreases items@.len() - i,
            {
                let mut n: usize = 0;
                let mut found = false;
                while n < keys.len()
                    invariant
                        n <= keys@.len(),
                        i < items@.len(),
                        found == exists|j: int|
                            0 <= j < n && #[trigger] keys@[j]@ == items@[i as int].0@,
                    decreases keys@.len() - n,
                {
                    if same_text(keys[n], items[i].0.as_str()) {
                        found = true;
                        assert(keys@[n as int]@ == items@[i as int].0@);
                    }
                    n += 1;
                }
                if !found {
                    proof {
                        let k = items@[i as int].0@;
                        lemma_key_of_member(items@, k);
                        assert(members(items@).dom().contains(k));
                        assert(!names(keys@).contains(k));
                    }
                    return false;
                }
                i += 1;
            }
            proof {
                assert forall|k: Seq<char>| members(items@).dom().contains(k) implies names(
                    keys@,
                ).contains(k) by {
                    lemma_key_of_member(items@, k);
                }
            }
            true
        },
        _ => false,
    }
}

/// Whether a value is an object with exactly these members.
pub(crate) fn has_exactly(value: &Json, keys: &[&str]) -> (exact: bool)
    ensures
        exact == (value@ matches Val::Object(m) && m.dom() =~= names(keys@)),
{
    if !has_only(value, keys) {
        return false;
    }
    let mut n: usize = 0;
    while n < keys.len()
        invariant
            n <= keys@.len(),
            value@ matches Val::Object(m) && m.dom().subset_of(names(keys@)),
            forall|j: int| 0 <= j < n ==> value@->Object_0.dom().contains(#[trigger] keys@[j]@),
        decreases keys@.len() - n,
    {
        if value.get(keys[n]).is_none() {
            assert(names(keys@).contains(keys@[n as int]@));
            assert(!value@->Object_0.dom().contains(keys@[n as int]@));
            return false;
        }
        n += 1;
    }
    assert(value@->Object_0.dom() =~= names(keys@));
    true
}

/// Whether a value has a text and the text has at most so many bytes.
pub open spec fn short_text(value: Val, limit: int) -> bool {
    value matches Val::Text(s) && byte_len(s) <= limit
}

fn is_short_text(value: Option<&Json>, limit: usize) -> (short: bool)
    ensures
        short == match value {
            Some(v) => short_text(v@, limit as int),
            None => false,
        },
{
    match value {
        Some(v) => match v.as_text() {
            Some(s) => bytes_in(s) <= limit,
            None => false,
        },
        None => false,
    }
}

/// The members of a manifest.
pub open spec fn manifest_keys() -> Set<Seq<char>> {
    set![
        "destination"@,
        "bytes"@,
        "sha256"@,
        "mode"@,
        "source_url"@,
        "captured_at"@,
    ]
}

/// Why a manifest is refused, if it is. `fits` says that the text of the
/// manifest keeps to [`MAX_MANIFEST_BYTES`].
pub open spec fn manifest_error(v: Val, fits: bool) -> Option<Seq<char>> {
    if !(v matches Val::Object(m) && m.dom() =~= manifest_keys()) {
        Some("invalid screenshot manifest fields"@)
    } else if v.text_at("destination"@) is None {
        Some("missing destination"@)
    } else if v.text_at("sha256"@) is None {
        Some("missing hash"@)
    } else if {
        let path = v.text_at("destination"@)->0;
        &&& path.len() > 0 && path[0] == '/'
        &&& byte_len(path) <= 4096
        &&& v.uint_at("bytes"@) matches Some(n) && 0 < n <= MAX_PNG_BYTES
        &&& hash_ok(v.text_at("sha256"@)->0)
        &&& v.text_at("mode"@) == Some("viewport"@) || v.text_at("mode"@) == Some("full_page"@)
        &&& short_text(v.at("source_url"@), 8192)
        &&& short_text(v.at("captured_at"@), 128)
        &&& fits
    } {
        None
    } else {
        Some("screenshot manifest exceeds limits or is malformed"@)
    }
}

/// Whether the compact text of a value can be written and has at most so many
/// bytes.
pub open spec fn fits(value: Val, limit: int) -> bool {
    compact(value) matches Some(text) && byte_len(text) <= limit
}

/// Whether the compact text of a value has at most so many bytes.
pub(crate) fn written_within(value: &Json, limit: usize) -> (within: bool)
    ensures
        within == fits(value@, limit as int),
{
    match render(value) {
        Some(text) => bytes_in(text.as_str()) <= limit,
        None => false,
    }
}

/// Judges a manifest, where `fits` says whether its text keeps to the limit.
pub fn judge_intent(intent: &Json, fits: bool) -> (judged: Result<(), &'static str>)
    ensures
        match judged {
            Ok(_) => manifest_error(intent@, fits) is None,
            Err(reason) => manifest_error(intent@, fits) == Some(reason@),
        },
{
    let keys: [&str; 6] = ["destination", "bytes", "sha256", "mode", "source_url", "captured_at"];
    let exact: bool = has_exactly(intent, keys.as_slice());
    proof {
        let k = keys@;
        assert(k[0]@ == "destination"@ && k[1]@ == "bytes"@ && k[2]@ == "sha256"@ && k[3]@
            == "mode"@ && k[4]@ == "source_url"@ && k[5]@ == "captured_at"@);
        assert(names(k) =~= manifest_keys());
    }
    if !exact {
        return Err("invalid screenshot manifest fields");
    }
    let path = match intent.text_at("destination") {
        Some(s) => s,
        None => return Err("missing destination"),
    };
    let hash = match intent.text_at("sha256") {
        Some(s) => s,
        None => return Err("missing hash"),
    };
    let counted: bool = match intent.uint_at("bytes") {
        Some(n) => 0 < n && n <= MAX_PNG_BYTES,
        None => false,
    };
    let rooted: bool = !path.is_empty() && path.get_char(0) == '/';
    let moded: bool = intent.says("mode", "viewport") || intent.says("mode", "full_page");
    if rooted && bytes_in(path) <= 4096 && counted && valid_hash(hash) && moded && is_short_text(
        intent.get("source_url"),
        8192,
    ) && is_short_text(intent.get("captured_at"), 128) && fits {
        Ok(())
    } else {
        Err("screenshot manifest exceeds limits or is malformed")
    }
}

/// Validates the manifest of a picture.
pub fn validate_intent(intent: &Json) -> (valid: Result<(), &'static str>)
    ensures
        match valid {
            Ok(_) => manifest_error(intent@, fits(intent@, MAX_MANIFEST_BYTES as int)) is None,
            Err(reason) => manifest_error(intent@, fits(intent@, MAX_MANIFEST_BYTES as int)) == Some(
                reason@,
            ),
        },
{
    judge_intent(intent, written_within(intent, MAX_MANIFEST_BYTES))
}

/// The members of a receipt.
pub open spec fn receipt_keys() -> Set<Seq<char>> {
    set![
        "operation"@,
        "attempt"@,
        "event_id"@,
        "requested"@,
        "destination"@,
        "verified"@,
        "accepted_at"@,
        "observed_at"@,
        "outcome"@,
    ]
}

/// The identity of an operation, as bindings and receipts carry it.
pub open spec fn operation_value(slug: Seq<char>, operation: Seq<char>) -> Val {
    Val::empty_object().with("slug"@, Val::Text(slug)).with("caller"@, Val::Text("shotgun"@)).with(
        "operation_id"@,
        Val::Text(operation),
    )
}

/// The identity of an operation.
pub(crate) fn operation_json(slug: &str, operation: &str) -> (value: Json)
    ensures
        value@ == operation_value(slug@, operation@),
{
    Json::object().with("slug", Json::text(slug)).with("caller", Json::text("shotgun")).with(
        "operation_id",
        Json::text(operation),
    )
}

/// Whether the outcome of a receipt bears out what the writer says of it.
pub open spec fn outcome_ok(receipt: Val, why: Seq<char>) -> bool {
    if why == "stored"@ {
        receipt.text_at("outcome"@) == Some("stored"@) && receipt.at("accepted_at"@) is Text
    } else if why == "published"@ {
        receipt.at("outcome"@).at("published_durability_unconfirmed"@) is Object && receipt.at(
            "accepted_at"@,
        ) is Text
    } else if why == "failed"@ {
        receipt.at("outcome"@).at("failed"@) is Object
    } else {
        why == "aborted"@ && receipt.text_at("outcome"@) == Some("aborted"@)
    }
}

/// Whether a terminal receipt belongs to an operation, its manifest and its
/// destination, as far as these are known, and bears out its disposition.
pub open spec fn receipt_ok(
    receipt: Val,
    why: Seq<char>,
    slug: Seq<char>,
    operation: Seq<char>,
    intent: Option<Val>,
    destination: Option<Seq<char>>,
    requested_fits: bool,
) -> bool {
    &&& receipt matches Val::Object(m) && m.dom() =~= receipt_keys()
    &&& manifest_error(receipt.at("requested"@), requested_fits) is None
    &&& same(receipt.at("operation"@), operation_value(slug, operation))
    &&& receipt.at("event_id"@) is Text
    &&& receipt.at("destination"@) is Text
    &&& intent matches Some(i) ==> same(receipt.at("requested"@), i)
    &&& destination matches Some(d) ==> receipt.at("requested"@).text_at("destination"@) == Some(d)
    &&& outcome_ok(receipt, why)
}

fn is_text_at(value: &Json, key: &str) -> (is: bool)
    ensures
        is == (value@.at(key@) is Text),
{
    match value.get(key) {
        Some(v) => v.is_text(),
        None => false,
    }
}

/// Whether the outcome of a receipt is an object with this object in it.
fn outcome_holds(receipt: &Json, key: &str) -> (holds: bool)
    ensures
        holds == (receipt@.at("outcome"@).at(key@) is Object),
{
    match receipt.get("outcome") {
        Some(outcome) => match outcome.get(key) {
            Some(v) => v.is_object(),
            None => false,
        },
        None => false,
    }
}

/// Whether the outcome of a receipt bears out what the writer says of it.
fn judge_outcome(receipt: &Json, why: &str) -> (ok: bool)
    ensures
        ok == outcome_ok(receipt@, why@),
{
    if same_text(why, "stored") {
        receipt.says("outcome", "stored") && is_text_at(receipt, "accepted_at")
    } else if same_text(why, "published") {
        outcome_holds(receipt, "published_durability_unconfirmed") && is_text_at(
            receipt,
            "accepted_at",
        )
    } else if same_text(why, "failed") {
        outcome_holds(receipt, "failed")
    } else {
        same_text(why, "aborted") && receipt.says("outcome", "aborted")
    }
}

/// Judges a terminal receipt, where `requested_fits` says whether the text of
/// the manifest in it keeps to the limit.
pub fn judge_receipt(
    receipt: &Json,
    why: &str,
    slug: &str,
    operation: &str,
    intent: Option<&Json>,
    destination: Option<&str>,
    requested_fits: bool,
) -> (ok: bool)
    ensures
        ok == receipt_ok(
            receipt@,
            why@,
            slug@,
            operation@,
            match intent {
                Some(i) => Some(i@),
                None => None,
            },
            match destination {
                Some(d) => Some(d@),
                None => None,
            },
            requested_fits,
        ),
{
    let keys: [&str; 9] = [
        "operation",
        "attempt",
        "event_id",
        "requested",
        "destination",
        "verified",
        "accepted_at",
        "observed_at",
        "outcome",
    ];
    let exact: bool = has_exactly(receipt, keys.as_slice());
    proof {
        let k = keys@;
        assert(k[0]@ == "operation"@ && k[1]@ == "attempt"@ && k[2]@ == "event_id"@ && k[3]@
            == "requested"@ && k[4]@ == "destination"@ && k[5]@ == "verified"@ && k[6]@
            == "accepted_at"@ && k[7]@ == "observed_at"@ && k[8]@ == "outcome"@);
        assert(names(k) =~= receipt_keys());
    }
    if !exact {
        return false;
    }
    let (requested, owner) = match (receipt.get("requested"), receipt.get("operation")) {
        (Some(r), Some(o)) => (r, o),
        _ => {
            assert(receipt_keys().contains("requested"@) && receipt_keys().contains("operation"@));
            return false;
        },
    };
    if judge_intent(requested, requested_fits).is_err() {
        return false;
    }
    if !owner.same(&operation_json(slug, operation)) {
        return false;
    }
    if !is_text_at(receipt, "event_id") || !is_text_at(receipt, "destination") {
        return false;
    }
    match intent {
        Some(i) => {
            if !requested.same(i) {
                return false;
            }
        },
        None => {},
    }
    match destination {
        Some(d) => {
            if !requested.says("destination", d) {
                return false;
            }
        },
        None => {},
    }
    judge_outcome(receipt, why)
}

/// Whether a terminal receipt belongs to an operation and bears out its
/// disposition.
pub fn valid_receipt(
    receipt: &Json,
    why: &str,
    slug: &str,
    operation: &str,
    intent: Option<&Json>,
    destination: Option<&str>,
) -> (valid: bool)
    ensures
        valid == receipt_ok(
            receipt@,
            why@,
            slug@,
            operation@,
            match intent {
                Some(i) => Some(i@),
                None => None,
            },
            match destination {
                Some(d) => Some(d@),
                None => None,
            },
            fits(receipt@.at("requested"@), MAX_MANIFEST_BYTES as int),
        ),
{
    let requested_fits: bool = match receipt.get("requested") {
        Some(r) => written_within(r, MAX_MANIFEST_BYTES),
        None => written_within(&Json::Null, MAX_MANIFEST_BYTES),
    };
    judge_receipt(receipt, why, slug, operation, intent, destination, requested_fits)
}

// ---------------------------------------------------------------------------
// What is accepted
// ---------------------------------------------------------------------------

/// An identity is made of 1 to 128 letters, digits, hyphens and underscores, and
/// every such text is one.
pub proof fn law_identities_are_plain_words(id: Seq<char>)
    ensures
        id_ok(id) <==> 1 <= id.len() <= 128 && forall|i: int|
            0 <= i < id.len() ==> {
                ||| 'a' <= #[trigger] id[i] <= 'z'
                ||| 'A' <= id[i] <= 'Z'
                ||| '0' <= id[i] <= '9'
                ||| id[i] == '-'
                ||| id[i] == '_'
            },
{
    if id_ok(id) {
        assert forall|i: int| 0 <= i < id.len() implies ('a' <= #[trigger] id[i] <= 'z') || ('A'
            <= id[i] <= 'Z') || ('0' <= id[i] <= '9') || id[i] == '-' || id[i] == '_' by {
            assert(id_char(id[i]));
        }
    }
}

/// A hash is made of 64 digits and letters up to `f`, and every such text is one.
pub proof fn law_hashes_are_hexadecimal(hash: Seq<char>)
    ensures
        hash_ok(hash) <==> hash.len() == 64 && forall|i: int|
            0 <= i < hash.len() ==> {
                ||| '0' <= #[trigger] hash[i] <= '9'
                ||| 'a' <= hash[i] <= 'f'
            },
{
    if hash_ok(hash) {
        assert forall|i: int| 0 <= i < hash.len() implies ('0' <= #[trigger] hash[i] <= '9') || (
        'a' <= hash[i] <= 'f') by {
            assert(hex_char(hash[i]));
        }
    }
}

/// Whether an object has exactly the members of a manifest.
pub open spec fn has_manifest_members(v: Val) -> bool {
    v is Object && forall|k: Seq<char>| #[trigger]
        v.get(k) is Some <==> k == "destination"@ || k == "bytes"@ || k == "sha256"@ || k == "mode"@
            || k == "source_url"@ || k == "captured_at"@
}

/// Whether the members of a manifest keep to their limits.
pub open spec fn keeps_the_limits(v: Val) -> bool {
    &&& v.at("destination"@) matches Val::Text(path)
    &&& path.len() > 0 && path[0] == '/' && byte_len(path) <= 4096
    &&& v.at("bytes"@) matches Val::Unsigned(n)
    &&& 1 <= n <= 33_554_432
    &&& v.at("sha256"@) matches Val::Text(hash)
    &&& hash_ok(hash)
    &&& v.at("mode"@) == Val::Text("viewport"@) || v.at("mode"@) == Val::Text("full_page"@)
    &&& v.at("source_url"@) matches Val::Text(url)
    &&& byte_len(url) <= 8192
    &&& v.at("captured_at"@) matches Val::Text(time)
    &&& byte_len(time) <= 128
}

/// A manifest is accepted exactly where it has its members, and they and its text
/// keep to their limits. The reason names the first thing that is wrong.
pub proof fn law_a_manifest_is_accepted_within_its_limits(v: Val, fits: bool)
    ensures
        manifest_error(v, fits) is None <==> has_manifest_members(v) && keeps_the_limits(v) && fits,
        !has_manifest_members(v) ==> manifest_error(v, fits) == Some(
            "invalid screenshot manifest fields"@,
        ),
        has_manifest_members(v) && v.at("destination"@) !is Text ==> manifest_error(v, fits) == Some(
            "missing destination"@,
        ),
        has_manifest_members(v) && v.at("destination"@) is Text && v.at("sha256"@) !is Text
            ==> manifest_error(v, fits) == Some("missing hash"@),
        has_manifest_members(v) && v.at("destination"@) is Text && v.at("sha256"@) is Text && !(
        keeps_the_limits(v) && fits) ==> manifest_error(v, fits) == Some(
            "screenshot manifest exceeds limits or is malformed"@,
        ),
{
    lemma_manifest_members(v);
}

proof fn lemma_manifest_members(v: Val)
    ensures
        has_manifest_members(v) <==> (v matches Val::Object(m) && m.dom() =~= manifest_keys()),
{
    if v is Object {
        let m = v->Object_0;
        let keys = manifest_keys();
        if has_manifest_members(v) {
            assert forall|k: Seq<char>| m.dom().contains(k) == keys.contains(k) by {
                assert(v.get(k) is Some <==> m.contains_key(k));
            }
            assert(m.dom() =~= keys);
        }
        if m.dom() =~= keys {
            assert forall|k: Seq<char>| #[trigger]
                v.get(k) is Some <==> k == "destination"@ || k == "bytes"@ || k == "sha256"@ || k
                    == "mode"@ || k == "source_url"@ || k == "captured_at"@ by {
                assert(m.dom().contains(k) == keys.contains(k));
            }
        }
    }
}

/// An operation is known by its project, its caller and its own identity.
pub proof fn law_an_operation_is_named(slug: Seq<char>, operation: Seq<char>)
    ensures
        operation_value(slug, operation) is Object,
        operation_value(slug, operation).get("slug"@) == Some(Val::Text(slug)),
        operation_value(slug, operation).get("caller"@) == Some(Val::Text("shotgun"@)),
        operation_value(slug, operation).get("operation_id"@) == Some(Val::Text(operation)),
        forall|k: Seq<char>| #[trigger]
            operation_value(slug, operation).get(k) is Some ==> k == "slug"@ || k == "caller"@ || k
                == "operation_id"@,
{
    reveal_strlit("slug");
    reveal_strlit("caller");
    reveal_strlit("operation_id");
    assert("slug"@.len() == 4 && "caller"@.len() == 6 && "operation_id"@.len() == 12);
}

/// Whether an object has exactly the members of a receipt.
pub open spec fn has_receipt_members(v: Val) -> bool {
    v is Object && forall|k: Seq<char>| #[trigger]
        v.get(k) is Some <==> k == "operation"@ || k == "attempt"@ || k == "event_id"@ || k
            == "requested"@ || k == "destination"@ || k == "verified"@ || k == "accepted_at"@ || k
            == "observed_at"@ || k == "outcome"@
}

/// A receipt is accepted exactly where it has its members, is about the operation,
/// repeats the manifest and the destination as far as these are known, and bears
/// out what the writer says: what is stored or published was accepted at some time,
/// and what failed or was aborted says so.
pub proof fn law_a_receipt_bears_out_the_outcome(
    receipt: Val,
    why: Seq<char>,
    slug: Seq<char>,
    operation: Seq<char>,
    intent: Option<Val>,
    destination: Option<Seq<char>>,
    requested_fits: bool,
)
    ensures
        receipt_ok(receipt, why, slug, operation, intent, destination, requested_fits) <==> {
            let outcome = receipt.at("outcome"@);
            let accepted = receipt.at("accepted_at"@) is Text;
            let requested = receipt.at("requested"@);
            &&& has_receipt_members(receipt)
            &&& manifest_error(requested, requested_fits) is None
            &&& same(receipt.at("operation"@), operation_value(slug, operation))
            &&& receipt.at("event_id"@) is Text
            &&& receipt.at("destination"@) is Text
            &&& intent is Some ==> same(requested, intent->0)
            &&& destination is Some ==> requested.at("destination"@) == Val::Text(destination->0)
            &&& {
                ||| why == "stored"@ && outcome == Val::Text("stored"@) && accepted
                ||| why == "published"@ && outcome.at("published_durability_unconfirmed"@) is Object
                    && accepted
                ||| why == "failed"@ && outcome.at("failed"@) is Object
                ||| why == "aborted"@ && outcome == Val::Text("aborted"@)
            }
        },
{
    reveal_strlit("stored");
    reveal_strlit("published");
    reveal_strlit("failed");
    reveal_strlit("aborted");
    assert("stored"@.len() == 6 && "published"@.len() == 9 && "failed"@.len() == 6
        && "aborted"@.len() == 7);
    assert("stored"@[0] != "failed"@[0]);
    if receipt is Object {
        let m = receipt->Object_0;
        let keys = receipt_keys();
        if has_receipt_members(receipt) {
            assert forall|k: Seq<char>| m.dom().contains(k) == keys.contains(k) by {
                assert(receipt.get(k) is Some <==> m.contains_key(k));
            }
            assert(m.dom() =~= keys);
        }
        if m.dom() =~= keys {
            assert forall|k: Seq<char>| #[trigger]
                receipt.get(k) is Some <==> k == "operation"@ || k == "attempt"@ || k
                    == "event_id"@ || k == "requested"@ || k == "destination"@ || k == "verified"@
                    || k == "accepted_at"@ || k == "observed_at"@ || k == "outcome"@ by {
                assert(m.dom().contains(k) == keys.contains(k));
            }
        }
    }
}

/// A value fits where it can be written in so many bytes.
pub proof fn law_a_value_fits_in_its_bytes(value: Val, limit: int)
    ensures
        compact(value) matches Some(text) ==> (fits(value, limit) <==> byte_len(text) <= limit),
        compact(value) is None ==> !fits(value, limit),
{
}

} // verus!
