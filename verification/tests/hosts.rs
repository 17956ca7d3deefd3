use easement::hosts::{
    easement_port, log_name, parse_gcp_internal_host, target_of, wicket_command_line, Path,
};

#[test]
fn ports_are_read() {
    for (value, port) in [
        (None, 6502),
        (Some("8080"), 8080),
        (Some("+8080"), 8080),
        (Some("0"), 0),
        (Some("00065535"), 65535),
        (Some("65536"), 6502),
        (Some("99999999999999999999"), 6502),
        (Some(""), 6502),
        (Some("+"), 6502),
        (Some("-1"), 6502),
        (Some(" 80"), 6502),
        (Some("80a"), 6502),
    ] {
        assert_eq!(easement_port(value), port);
        assert_eq!(
            easement_port(value),
            value.and_then(|v| v.parse().ok()).unwrap_or(6502)
        );
    }
    assert_eq!(log_name(6502), "easement.jsonl");
    assert_eq!(log_name(80), "easement-80.jsonl");
}

#[test]
fn internal_hosts_are_read() {
    let host = parse_gcp_internal_host("build-1.us-central1-a.c.my-project.internal").unwrap();
    assert_eq!(host.instance, "build-1");
    assert_eq!(host.zone, "us-central1-a");
    assert_eq!(host.project, "my-project");
    let host = parse_gcp_internal_host("a.b.c.d.c.p.internal").unwrap();
    assert_eq!(
        (host.instance.as_str(), host.zone.as_str(), host.project.as_str()),
        ("a", "b.c.d", "p")
    );
    for name in [
        "",
        ".internal",
        "example.com",
        "a.b.c.p",
        "a.b.c.p.internal.",
        "a.c.p.internal",
        ".b.c.p.internal",
        "a..c.p.internal",
        "a.b.c..internal",
    ] {
        assert!(parse_gcp_internal_host(name).is_none(), "{name}");
    }
}

#[test]
fn wickets_are_started_by_host() {
    let command = wicket_command_line("localhost", 6502);
    assert_eq!(command.program, "wicket");
    assert_eq!(command.args, ["ws://localhost:6502", "localhost"]);
    let command = wicket_command_line("box", 80);
    assert_eq!(command.program, "ssh");
    assert_eq!(
        command.args,
        ["-A", "-R", "80:localhost:80", "box", "wicket", "ws://localhost:80", "box"]
    );
    let command = wicket_command_line("vm@orb", 80);
    assert_eq!(command.program, "ssh");
    assert_eq!(
        command.args,
        ["-A", "vm@orb", "wicket", "ws://host.internal:80", "vm@orb"]
    );
    let command = wicket_command_line("i.z.c.p.internal", 6502);
    assert_eq!(command.program, "gcloud");
    assert_eq!(
        command.args,
        [
            "compute",
            "ssh",
            "i",
            "--project=p",
            "--zone=z",
            "--ssh-flag=-R 6502:localhost:6502",
            "--ssh-flag=-A",
            "--command=PATH=\"$HOME/.local/bin:$PATH\" exec wicket ws://localhost:6502 i.z.c.p.internal",
        ]
    );
}

#[test]
fn paths_lead_somewhere() {
    assert!(matches!(target_of("/mcp/slug"), Path::Tools { slug, transcript: None } if slug == "slug"));
    assert!(matches!(target_of("/mcp/slug/a/b"), Path::Tools { slug, transcript: Some(t) }
        if slug == "slug" && t == "a/b"));
    assert!(matches!(target_of("/mcp/slug/"), Path::Tools { transcript: Some(t), .. } if t.is_empty()));
    assert!(matches!(target_of("/mcp/"), Path::MissingSlug));
    assert!(matches!(target_of("/mcp//x"), Path::MissingSlug));
    assert!(matches!(target_of("/mcp"), Path::NotFound));
    assert!(matches!(target_of("/health"), Path::Health));
    assert!(matches!(target_of("/health/"), Path::NotFound));
    assert!(matches!(target_of("/"), Path::NotFound));
}
