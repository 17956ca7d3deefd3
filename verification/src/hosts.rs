//! Where things run: the port, the paths of the gateway, and the command lines
//! that start a Wicket on a host.

use crate::protocol::text_view;
use crate::text::{
    chars_of, decimal, find_first, find_last, first_from, is_at, joined, last_upto,
    law_decimals_are_read_back, law_decimals_differ, number_text, number_within, occurs,
    read_number, same_text, text_of, texts,
};
use vstd::prelude::*;

verus! {

/// The port that is used where none is set.
pub const DEFAULT_PORT: u16 = 6502;

/// The port, given what the environment says of it.
pub open spec fn port_of(value: Option<Seq<char>>) -> nat {
    match value {
        Some(s) => match number_within(s, 65535) {
            Some(n) => n,
            None => DEFAULT_PORT as nat,
        },
        None => DEFAULT_PORT as nat,
    }
}

/// The port, given what the environment says of it. What is no port counts as
/// not set.
pub fn easement_port(value: Option<&str>) -> (port: u16)
    ensures
        port == port_of(
            match value {
                Some(s) => Some(s@),
                None => None,
            },
        ),
{
    match value {
        Some(s) => match read_number(s, 65535) {
            Some(n) => n as u16,
            None => DEFAULT_PORT,
        },
        None => DEFAULT_PORT,
    }
}

/// The name of the log file.
pub open spec fn log_file(port: u16) -> Seq<char> {
    if port == DEFAULT_PORT {
        "easement.jsonl"@
    } else {
        "easement-"@ + decimal(port as nat) + ".jsonl"@
    }
}

/// The name of the log file. One instance per port has its own.
pub fn log_name(port: u16) -> (name: String)
    ensures
        name@ == log_file(port),
{
    if port == DEFAULT_PORT {
        "easement.jsonl".to_owned()
    } else {
        joined(joined("easement-", number_text(port as u64).as_str()).as_str(), ".jsonl")
    }
}

// ---------------------------------------------------------------------------
// Internal hosts of the cloud
// ---------------------------------------------------------------------------

/// The parts of the internal name of an instance.
#[derive(Debug)]
pub struct GcpInternalHost {
    pub instance: String,
    pub zone: String,
    pub project: String,
}

/// The model of the parts of the internal name of an instance.
#[verifier::ext_equal]
pub struct GcpV {
    pub instance: Seq<char>,
    pub zone: Seq<char>,
    pub project: Seq<char>,
}

impl GcpInternalHost {
    pub open spec fn view(&self) -> GcpV {
        GcpV { instance: self.instance@, zone: self.zone@, project: self.project@ }
    }
}

/// A text without a suffix, if it ends with it.
pub open spec fn without_suffix(text: Seq<char>, suffix: Seq<char>) -> Option<Seq<char>> {
    if occurs(text, suffix, text.len() - suffix.len()) {
        Some(text.take(text.len() - suffix.len()))
    } else {
        None
    }
}

/// What comes before and after the last occurrence of a piece.
pub open spec fn around_last(text: Seq<char>, piece: Seq<char>) -> Option<(Seq<char>, Seq<char>)> {
    match last_upto(text, piece, text.len() - piece.len()) {
        Some(i) => Some((text.take(i), text.skip(i + piece.len() as int))),
        None => None,
    }
}

/// What comes before and after the first occurrence of a piece.
pub open spec fn around_first(text: Seq<char>, piece: Seq<char>) -> Option<(Seq<char>, Seq<char>)> {
    match first_from(text, piece, 0) {
        Some(i) => Some((text.take(i), text.skip(i + piece.len() as int))),
        None => None,
    }
}

/// The parts of the internal name of an instance, if a name is one.
pub open spec fn gcp_parts(host: Seq<char>) -> Option<GcpV> {
    match without_suffix(host, ".internal"@) {
        Some(name) => match around_last(name, ".c."@) {
            Some((front, project)) => match around_first(front, "."@) {
                Some((instance, zone)) => if instance.len() > 0 && zone.len() > 0 && project.len()
                    > 0 {
                    Some(GcpV { instance, zone, project })
                } else {
                    None
                },
                None => None,
            },
            None => None,
        },
        None => None,
    }
}

fn strip_suffix(text: &str, suffix: &str) -> (front: Option<String>)
    ensures
        match front {
            Some(s) => without_suffix(text@, suffix@) == Some(s@),
            None => without_suffix(text@, suffix@) is None,
        },
{
    let t = chars_of(text);
    let s = chars_of(suffix);
    if s.len() > t.len() || !is_at(&t, &s, t.len() - s.len()) {
        return None;
    }
    let n: usize = t.len() - s.len();
    assert(t@.subrange(0, n as int) =~= text@.take(n as int));
    Some(text_of(t.as_slice(), 0, n))
}

fn rsplit_once(text: &str, piece: &str) -> (parts: Option<(String, String)>)
    ensures
        match parts {
            Some((a, b)) => around_last(text@, piece@) == Some((a@, b@)),
            None => around_last(text@, piece@) is None,
        },
{
    let t = chars_of(text);
    let p = chars_of(piece);
    match find_last(&t, &p) {
        Some(i) => {
            let n: usize = t.len();
            assert(t@.subrange(0, i as int) =~= text@.take(i as int));
            assert(t@.subrange(i + p@.len(), n as int) =~= text@.skip(i + p@.len()));
            Some((text_of(t.as_slice(), 0, i), text_of(t.as_slice(), i + p.len(), n)))
        },
        None => None,
    }
}

fn split_once(text: &str, piece: &str) -> (parts: Option<(String, String)>)
    requires
        piece@.len() > 0,
    ensures
        match parts {
            Some((a, b)) => around_first(text@, piece@) == Some((a@, b@)),
            None => around_first(text@, piece@) is None,
        },
{
    let t = chars_of(text);
    let p = chars_of(piece);
    match find_first(&t, &p) {
        Some(i) => {
            let n: usize = t.len();
            assert(t@.subrange(0, i as int) =~= text@.take(i as int));
            assert(t@.subrange(i + p@.len(), n as int) =~= text@.skip(i + p@.len()));
            Some((text_of(t.as_slice(), 0, i), text_of(t.as_slice(), i + p.len(), n)))
        },
        None => None,
    }
}

/// Reads the internal name of an instance,
/// `<instance>.<zone>.c.<project>.internal`.
pub fn parse_gcp_internal_host(host: &str) -> (parts: Option<GcpInternalHost>)
    ensures
        match parts {
            Some(g) => gcp_parts(host@) == Some(g@),
            None => gcp_parts(host@) is None,
        },
{
    let name = match strip_suffix(host, ".internal") {
        Some(s) => s,
        None => return None,
    };
    let (front, project) = match rsplit_once(name.as_str(), ".c.") {
        Some(p) => p,
        None => return None,
    };
    proof {
        reveal_strlit(".");
    }
    let (instance, zone) = match split_once(front.as_str(), ".") {
        Some(p) => p,
        None => return None,
    };
    if instance.as_str().is_empty() || zone.as_str().is_empty() || project.as_str().is_empty() {
        return None;
    }
    Some(GcpInternalHost { instance, zone, project })
}

/// The internal name with these parts.
pub open spec fn gcp_name(parts: GcpV) -> Seq<char> {
    parts.instance + "."@ + parts.zone + ".c."@ + parts.project + ".internal"@
}

proof fn lemma_first_occurs(text: Seq<char>, piece: Seq<char>, at: int)
    requires
        0 <= at,
    ensures
        first_from(text, piece, at) matches Some(i) ==> at <= i && occurs(text, piece, i)
            && forall|j: int| at <= j < i ==> !#[trigger] occurs(text, piece, j),
    decreases text.len() - at,
{
    if at + piece.len() <= text.len() && at < text.len() && !occurs(text, piece, at) {
        lemma_first_occurs(text, piece, at + 1);
    }
}

proof fn lemma_last_occurs(text: Seq<char>, piece: Seq<char>, at: int)
    ensures
        last_upto(text, piece, at) matches Some(i) ==> i <= at && occurs(text, piece, i),
    decreases at + 1,
{
    if at >= 0 && !occurs(text, piece, at) {
        lemma_last_occurs(text, piece, at - 1);
    }
}

/// The parts of an internal name make it up again, and the instance has no dot.
pub proof fn law_the_parts_make_up_the_name(host: Seq<char>)
    requires
        gcp_parts(host) is Some,
    ensures
        gcp_name(gcp_parts(host)->0) == host,
        !gcp_parts(host)->0.instance.contains('.'),
{
    let parts = gcp_parts(host)->0;
    let name = without_suffix(host, ".internal"@)->0;
    let (front, project) = around_last(name, ".c."@)->0;
    lemma_last_occurs(name, ".c."@, name.len() - ".c."@.len());
    lemma_first_occurs(front, "."@, 0);
    let i = last_upto(name, ".c."@, name.len() - ".c."@.len())->0;
    let d = first_from(front, "."@, 0)->0;
    assert(front =~= parts.instance + "."@ + parts.zone);
    assert(name =~= front + ".c."@ + project);
    assert(host =~= name + ".internal"@);
    assert(gcp_name(parts) =~= host);
    reveal_strlit(".");
    assert("."@.len() == 1 && "."@[0] == '.');
    assert(!parts.instance.contains('.')) by {
        if parts.instance.contains('.') {
            let k = parts.instance.index_of('.');
            assert(front[k] == '.');
            assert(front.subrange(k, k + 1) =~= "."@);
            assert(occurs(front, "."@, k));
        }
    }
}

proof fn lemma_first_is(text: Seq<char>, piece: Seq<char>, at: int, i: int)
    requires
        0 <= at <= i < text.len(),
        occurs(text, piece, i),
        forall|j: int| at <= j < i ==> !#[trigger] occurs(text, piece, j),
    ensures
        first_from(text, piece, at) == Some(i),
    decreases i - at,
{
    if at < i {
        lemma_first_is(text, piece, at + 1, i);
    }
}

proof fn lemma_last_is(text: Seq<char>, piece: Seq<char>, at: int, i: int)
    requires
        0 <= i <= at,
        occurs(text, piece, i),
        forall|j: int| i < j <= at ==> !#[trigger] occurs(text, piece, j),
    ensures
        last_upto(text, piece, at) == Some(i),
    decreases at - i,
{
    if at > i {
        lemma_last_is(text, piece, at - 1, i);
    }
}

/// The parts of an internal name are read back, where the instance has no dot and
/// no `.c.` begins after the one in front of the project.
pub proof fn law_the_parts_are_read_back(parts: GcpV)
    requires
        parts.instance.len() > 0,
        parts.zone.len() > 0,
        parts.project.len() > 0,
        !parts.instance.contains('.'),
        forall|j: int| 0 < j ==> !#[trigger] occurs(".c."@ + parts.project, ".c."@, j),
    ensures
        gcp_parts(gcp_name(parts)) == Some(parts),
{
    let host = gcp_name(parts);
    let front = parts.instance + "."@ + parts.zone;
    let name = front + ".c."@ + parts.project;
    reveal_strlit(".");
    reveal_strlit(".c.");
    assert("."@.len() == 1 && "."@[0] == '.' && ".c."@.len() == 3);
    assert(host =~= name + ".internal"@);
    assert(host.subrange(host.len() - ".internal"@.len(), host.len() as int) =~= ".internal"@);
    assert(host.take(host.len() - ".internal"@.len()) =~= name);
    let i = front.len() as int;
    assert(name.subrange(i, i + 3) =~= ".c."@);
    let tail = ".c."@ + parts.project;
    assert forall|j: int| i < j <= name.len() - 3 implies !#[trigger] occurs(name, ".c."@, j) by {
        assert(name.subrange(j, j + 3) =~= tail.subrange(j - i, j - i + 3));
        assert(!occurs(tail, ".c."@, j - i));
    }
    lemma_last_is(name, ".c."@, name.len() - 3, i);
    assert(name.take(i) =~= front);
    assert(name.skip(i + 3) =~= parts.project);
    let d = parts.instance.len() as int;
    assert(front.subrange(d, d + 1) =~= "."@);
    assert forall|j: int| 0 <= j < d implies !#[trigger] occurs(front, "."@, j) by {
        if occurs(front, "."@, j) {
            assert(front.subrange(j, j + 1)[0] == '.');
            assert(parts.instance[j] == '.');
        }
    }
    lemma_first_is(front, "."@, 0, d);
    assert(front.take(d) =~= parts.instance);
    assert(front.skip(d + 1) =~= parts.zone);
}

// ---------------------------------------------------------------------------
// Starting a Wicket
// ---------------------------------------------------------------------------

/// A program and its arguments.
#[derive(Debug)]
pub struct CommandLine {
    pub program: &'static str,
    pub args: Vec<String>,
}

/// The model of a program and its arguments.
#[verifier::ext_equal]
pub struct CommandV {
    pub program: Seq<char>,
    pub args: Seq<Seq<char>>,
}

impl CommandLine {
    pub open spec fn view(&self) -> CommandV {
        CommandV { program: self.program@, args: texts(self.args@) }
    }
}

/// Whether a host is a virtual machine on this machine.
pub open spec fn is_orb(host: Seq<char>) -> bool {
    first_from(host, "orb"@, 0) is Some
}

/// Where a Wicket on a host finds the bus.
pub open spec fn bus_url(host: Seq<char>, port: u16) -> Seq<char> {
    if is_orb(host) {
        "ws://host.internal:"@ + decimal(port as nat)
    } else {
        "ws://localhost:"@ + decimal(port as nat)
    }
}

/// A port that is forwarded back to this machine.
pub open spec fn forwarding(port: u16) -> Seq<char> {
    decimal(port as nat) + ":localhost:"@ + decimal(port as nat)
}

/// How a Wicket is started on a host: at home directly, on an instance of the
/// cloud through its own tool, and elsewhere through a secure shell that forwards
/// the agent and, but for virtual machines, the port.
pub open spec fn wicket_command(host: Seq<char>, port: u16) -> CommandV {
    let url = bus_url(host, port);
    if host == "localhost"@ {
        CommandV { program: "wicket"@, args: seq![url, host] }
    } else {
        match gcp_parts(host) {
            Some(gcp) => CommandV {
                program: "gcloud"@,
                args: seq![
                    "compute"@,
                    "ssh"@,
                    gcp.instance,
                    "--project="@ + gcp.project,
                    "--zone="@ + gcp.zone,
                    "--ssh-flag=-R "@ + forwarding(port),
                    "--ssh-flag=-A"@,
                    "--command=PATH=\"$HOME/.local/bin:$PATH\" exec wicket "@ + url + " "@ + host,
                ],
            },
            None => CommandV {
                program: "ssh"@,
                args: (if is_orb(host) {
                    seq!["-A"@]
                } else {
                    seq!["-A"@, "-R"@, forwarding(port)]
                }) + seq![host, "wicket"@, url, host],
            },
        }
    }
}

fn push(args: &mut Vec<String>, arg: String)
    ensures
        texts(final(args)@) == texts(old(args)@).push(arg@),
{
    let ghost prior = args@;
    args.push(arg);
    assert(texts(args@) =~= texts(prior).push(arg@));
}

/// How a Wicket is started on a host.
pub fn wicket_command_line(host: &str, port: u16) -> (command: CommandLine)
    ensures
        command@ == wicket_command(host@, port),
{
    proof {
        reveal_strlit("orb");
    }
    let orb: bool = find_first(&chars_of(host), &chars_of("orb")).is_some();
    let digits = number_text(port as u64);
    let url = if orb {
        joined("ws://host.internal:", digits.as_str())
    } else {
        joined("ws://localhost:", digits.as_str())
    };
    let forward = joined(joined(digits.as_str(), ":localhost:").as_str(), digits.as_str());
    let mut args: Vec<String> = Vec::new();
    assert(texts(args@) =~= Seq::<Seq<char>>::empty());
    if same_text(host, "localhost") {
        push(&mut args, url);
        push(&mut args, host.to_owned());
        let command = CommandLine { program: "wicket", args };
        assert(command@ =~= wicket_command(host@, port));
        return command;
    }
    match parse_gcp_internal_host(host) {
        Some(gcp) => {
            push(&mut args, "compute".to_owned());
            push(&mut args, "ssh".to_owned());
            push(&mut args, gcp.instance.clone());
            push(&mut args, joined("--project=", gcp.project.as_str()));
            push(&mut args, joined("--zone=", gcp.zone.as_str()));
            push(&mut args, joined("--ssh-flag=-R ", forward.as_str()));
            push(&mut args, "--ssh-flag=-A".to_owned());
            let start = joined(
                "--command=PATH=\"$HOME/.local/bin:$PATH\" exec wicket ",
                url.as_str(),
            );
            push(&mut args, joined(joined(start.as_str(), " ").as_str(), host));
            let command = CommandLine { program: "gcloud", args };
            assert(command@ =~= wicket_command(host@, port));
            command
        },
        None => {
            push(&mut args, "-A".to_owned());
            if !orb {
                push(&mut args, "-R".to_owned());
                push(&mut args, forward);
            }
            push(&mut args, host.to_owned());
            push(&mut args, "wicket".to_owned());
            push(&mut args, url);
            push(&mut args, host.to_owned());
            let command = CommandLine { program: "ssh", args };
            assert(command@ =~= wicket_command(host@, port));
            command
        },
    }
}

// ---------------------------------------------------------------------------
// The paths of the gateway
// ---------------------------------------------------------------------------

/// What a path of the gateway leads to.
#[derive(Debug)]
pub enum Path {
    /// The tools of a project, for one of its transcripts.
    Tools { slug: String, transcript: Option<String> },
    /// The tools of no project.
    MissingSlug,
    Health,
    NotFound,
}

/// The model of what a path leads to.
pub enum PathV {
    Tools(Seq<char>, Option<Seq<char>>),
    MissingSlug,
    Health,
    NotFound,
}

impl Path {
    pub open spec fn view(&self) -> PathV {
        match self {
            Path::Tools { slug, transcript } => PathV::Tools(
                slug@,
                text_view(*transcript),
            ),
            Path::MissingSlug => PathV::MissingSlug,
            Path::Health => PathV::Health,
            Path::NotFound => PathV::NotFound,
        }
    }
}

/// What a path of the gateway leads to: `/mcp/<slug>/<transcript>`, where the
/// transcript may be left out, or `/health`.
pub open spec fn path_target(path: Seq<char>) -> PathV {
    if occurs(path, "/mcp/"@, 0) {
        let rest = path.skip("/mcp/"@.len() as int);
        let (slug, transcript) = match around_first(rest, "/"@) {
            Some((slug, transcript)) => (slug, Some(transcript)),
            None => (rest, None),
        };
        if slug.len() == 0 {
            PathV::MissingSlug
        } else {
            PathV::Tools(slug, transcript)
        }
    } else if path == "/health"@ {
        PathV::Health
    } else {
        PathV::NotFound
    }
}

/// The project that a path leads to has a name, without a slash.
pub proof fn law_a_slug_is_one_segment(path: Seq<char>)
    ensures
        path_target(path) matches PathV::Tools(slug, _) ==> slug.len() > 0 && !slug.contains('/'),
{
    if let PathV::Tools(slug, transcript) = path_target(path) {
        let rest = path.skip("/mcp/"@.len() as int);
        reveal_strlit("/");
        assert("/"@.len() == 1 && "/"@[0] == '/');
        lemma_first_occurs(rest, "/"@, 0);
        if slug.contains('/') {
            let k = slug.index_of('/');
            assert(rest[k] == '/');
            assert(rest.subrange(k, k + 1) =~= "/"@);
            assert(occurs(rest, "/"@, k));
            lemma_occurrence_is_found(rest, "/"@, 0, k);
        }
    }
}

proof fn lemma_occurrence_is_found(text: Seq<char>, piece: Seq<char>, at: int, i: int)
    requires
        0 <= at <= i < text.len(),
        occurs(text, piece, i),
    ensures
        first_from(text, piece, at) is Some,
    decreases i - at,
{
    if at < i {
        lemma_occurrence_is_found(text, piece, at + 1, i);
    }
}

/// What a path of the gateway leads to.
pub fn target_of(path: &str) -> (target: Path)
    ensures
        target@ == path_target(path@),
{
    let t = chars_of(path);
    let p = chars_of("/mcp/");
    proof {
        reveal_strlit("/");
    }
    if is_at(&t, &p, 0) {
        assert(t@.subrange(p@.len() as int, t@.len() as int) =~= path@.skip(p@.len() as int));
        let rest = text_of(t.as_slice(), p.len(), t.len());
        let (slug, transcript) = match split_once(rest.as_str(), "/") {
            Some((a, b)) => (a, Some(b)),
            None => (rest, None),
        };
        if slug.as_str().is_empty() {
            Path::MissingSlug
        } else {
            Path::Tools { slug, transcript }
        }
    } else if same_text(path, "/health") {
        Path::Health
    } else {
        Path::NotFound
    }
}

// ---------------------------------------------------------------------------
// What the names stand for
// ---------------------------------------------------------------------------

/// A port that is set is used, whatever port it is; one that is not set, or is no
/// number up to 65535, is the usual one.
pub proof fn law_a_port_that_is_set_is_used(n: nat, text: Seq<char>)
    ensures
        n <= 65535 ==> port_of(Some(decimal(n))) == n,
        port_of(None) == 6502,
        number_within(text, 65535) is None ==> port_of(Some(text)) == 6502,
        port_of(Some(text)) <= 65535,
{
    if n <= 65535 {
        law_decimals_are_read_back(n, 65535);
    }
}

/// Every port has a log of its own, and its name tells the port, but for the usual
/// one.
pub proof fn law_every_port_has_its_own_log(a: u16, b: u16)
    ensures
        log_file(6502) == "easement.jsonl"@,
        a != 6502 ==> log_file(a) == "easement-"@ + decimal(a as nat) + ".jsonl"@,
        a != b ==> log_file(a) != log_file(b),
{
    reveal_strlit("easement.jsonl");
    reveal_strlit("easement-");
    reveal_strlit(".jsonl");
    let usual = "easement.jsonl"@;
    let front = "easement-"@;
    let back = ".jsonl"@;
    assert(front.len() == 9 && usual[8] == '.' && front[8] == '-');
    let (p, q) = (log_file(a), log_file(b));
    if a != 6502 {
        assert(p[8] == '-');
    }
    if b != 6502 {
        assert(q[8] == '-');
    }
    if p == q && a != 6502 && b != 6502 {
        assert(p.subrange(9, p.len() - back.len()) =~= decimal(a as nat));
        assert(q.subrange(9, q.len() - back.len()) =~= decimal(b as nat));
        law_decimals_differ(a as nat, b as nat);
    }
}

/// Where a Wicket finds the bus: on this machine at the port of the bus, seen from
/// a virtual machine under another name. A host is a virtual machine exactly where
/// its name holds `orb`.
pub proof fn law_a_wicket_finds_the_bus(host: Seq<char>, port: u16)
    ensures
        bus_url(host, port) == "ws://"@ + (if exists|i: int| #[trigger] holds_orb(host, i) {
            "host.internal"@
        } else {
            "localhost"@
        }) + ":"@ + decimal(port as nat),
        is_orb(host) <==> exists|i: int| #[trigger] holds_orb(host, i),
{
    reveal_strlit("orb");
    reveal_strlit("ws://");
    reveal_strlit("host.internal");
    reveal_strlit("localhost");
    reveal_strlit(":");
    reveal_strlit("ws://host.internal:");
    reveal_strlit("ws://localhost:");
    assert("ws://"@ + "host.internal"@ + ":"@ =~= "ws://host.internal:"@);
    assert("ws://"@ + "localhost"@ + ":"@ =~= "ws://localhost:"@);
    assert("orb"@.len() == 3);
    lemma_first_occurs(host, "orb"@, 0);
    if is_orb(host) {
        let i = first_from(host, "orb"@, 0)->0;
        assert(host.subrange(i, i + 3)[0] == host[i]);
        assert(host.subrange(i, i + 3)[1] == host[i + 1]);
        assert(host.subrange(i, i + 3)[2] == host[i + 2]);
        assert(holds_orb(host, i));
    }
    if exists|i: int| #[trigger] holds_orb(host, i) {
        let i = choose|i: int| #[trigger] holds_orb(host, i);
        assert(host.subrange(i, i + 3) =~= "orb"@);
        lemma_occurrence_is_found(host, "orb"@, 0, i);
    }
}

/// Whether a name holds `orb` at a place.
pub open spec fn holds_orb(host: Seq<char>, i: int) -> bool {
    0 <= i && i + 3 <= host.len() && host[i] == 'o' && host[i + 1] == 'r' && host[i + 2] == 'b'
}

/// A Wicket is started on its host: at home directly, on an instance of the cloud
/// with its name, zone and project and the port forwarded, and elsewhere through a
/// secure shell to the host, which forwards the port but for a virtual machine. It
/// is told where the bus is and on which host it runs, in this order.
pub proof fn law_a_wicket_is_started_on_its_host(host: Seq<char>, port: u16)
    ensures
        ({
            let command = wicket_command(host, port);
            let url = bus_url(host, port);
            let args = command.args;
            let port_text = decimal(port as nat);
            if host == "localhost"@ {
                &&& command.program == "wicket"@
                &&& args.len() == 2 && args[0] == url && args[1] == host
            } else if gcp_parts(host) is Some {
                let parts = gcp_parts(host)->0;
                &&& command.program == "gcloud"@
                &&& args.len() == 8
                &&& args[0] == "compute"@ && args[1] == "ssh"@
                &&& args[2] == parts.instance
                &&& args[3] == "--project="@ + parts.project
                &&& args[4] == "--zone="@ + parts.zone
                &&& args[5] == "--ssh-flag=-R "@ + (port_text + ":localhost:"@ + port_text)
                &&& args[6] == "--ssh-flag=-A"@
                &&& args[7] == "--command=PATH=\"$HOME/.local/bin:$PATH\" exec wicket "@ + url
                    + " "@ + host
            } else {
                let n = args.len();
                &&& command.program == "ssh"@
                &&& args[0] == "-A"@
                &&& is_orb(host) ==> n == 5
                &&& !is_orb(host) ==> n == 7 && args[1] == "-R"@ && args[2] == port_text
                    + ":localhost:"@ + port_text
                &&& args[n - 4] == host && args[n - 3] == "wicket"@ && args[n - 2] == url && args[n
                    - 1] == host
            }
        }),
{
}

/// A path leads to the tools of the project that it names, and to the transcript
/// that follows the project, whatever that holds.
pub proof fn law_a_path_leads_to_its_project(slug: Seq<char>, transcript: Seq<char>)
    requires
        slug.len() > 0,
        !slug.contains('/'),
    ensures
        path_target("/mcp/"@ + slug) == PathV::Tools(slug, None),
        path_target("/mcp/"@ + slug + "/"@ + transcript) == PathV::Tools(slug, Some(transcript)),
{
    reveal_strlit("/");
    reveal_strlit("/mcp/");
    let front = "/mcp/"@;
    let slash = "/"@;
    assert(slash.len() == 1 && slash[0] == '/');
    let short = front + slug;
    let long = front + slug + slash + transcript;
    assert(short.subrange(0, front.len() as int) =~= front);
    assert(long.subrange(0, front.len() as int) =~= front);
    assert(short.skip(front.len() as int) =~= slug);
    let rest = slug + slash + transcript;
    assert(long.skip(front.len() as int) =~= rest);
    assert forall|j: int| 0 <= j < slug.len() implies !#[trigger] occurs(slug, slash, j) && !occurs(
        rest,
        slash,
        j,
    ) by {
        assert(slug.contains(slug[j]));
        if occurs(slug, slash, j) {
            assert(slug.subrange(j, j + 1)[0] == '/');
        }
        if occurs(rest, slash, j) {
            assert(rest.subrange(j, j + 1)[0] == '/');
        }
    }
    assert forall|j: int| 0 <= j < slug.len() implies !#[trigger] occurs(rest, slash, j) by {
        assert(!occurs(slug, slash, j));
    }
    lemma_first_occurs(slug, slash, 0);
    if let Some(j) = first_from(slug, slash, 0) {
        assert(occurs(slug, slash, j));
    }
    let d = slug.len() as int;
    assert(rest.subrange(d, d + 1) =~= slash);
    lemma_first_is(rest, slash, 0, d);
    assert(rest.take(d) =~= slug);
    assert(rest.skip(d + 1) =~= transcript);
}

/// A path below `/mcp/` that names no project says so; `/health` is the health of
/// the gateway, and every other path is not found.
pub proof fn law_other_paths_lead_nowhere(path: Seq<char>, rest: Seq<char>)
    ensures
        path_target("/mcp/"@) == PathV::MissingSlug,
        path_target("/mcp//"@ + rest) == PathV::MissingSlug,
        path_target("/health"@) == PathV::Health,
        path != "/health"@ && !("/mcp/"@).is_prefix_of(path) ==> path_target(path)
            == PathV::NotFound,
        path_target(path) is Health ==> path == "/health"@,
{
    reveal_strlit("/");
    reveal_strlit("/mcp/");
    reveal_strlit("/mcp//");
    reveal_strlit("/health");
    let front = "/mcp/"@;
    let slash = "/"@;
    assert(slash.len() == 1 && slash[0] == '/' && front.len() == 5);
    assert(front.subrange(0, 5) =~= front);
    assert(front.skip(5) =~= Seq::<char>::empty());
    let twice = "/mcp//"@ + rest;
    assert(twice.subrange(0, 5) =~= front);
    let tail = twice.skip(5);
    assert(tail.subrange(0, 1) =~= slash);
    assert(occurs(tail, slash, 0));
    lemma_first_is(tail, slash, 0, 0);
    assert(tail.take(0).len() == 0);
    assert("/health"@[1] == 'h' && front[1] == 'm');
    if occurs("/health"@, front, 0) {
        assert("/health"@.subrange(0, 5)[1] == 'h');
    }
    if occurs(path, front, 0) {
        assert(path.subrange(0, 5) == front);
        assert(front.is_prefix_of(path));
    }
}

/// A path is seen as what it leads to, and a command line as what it runs.
pub proof fn law_targets_are_seen_as_they_are(path: Path, command: CommandLine)
    ensures
        match path {
            Path::Tools { slug, transcript } => path@ matches PathV::Tools(s, t) && s == slug@
                && match transcript {
                Some(x) => t == Some(x@),
                None => t is None,
            },
            Path::MissingSlug => path@ is MissingSlug,
            Path::Health => path@ is Health,
            Path::NotFound => path@ is NotFound,
        },
        command@.program == command.program@,
        command@.args.len() == command.args@.len(),
        forall|i: int|
            0 <= i < command.args@.len() ==> #[trigger] command@.args[i] == command.args@[i]@,
{
}

} // verus!
