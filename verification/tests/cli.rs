use heapsnap::cli::try_parse_from;

fn argv(parts: &[&str]) -> Vec<String> {
    parts.iter().map(|s| s.to_string()).collect()
}

#[test]
fn help_parsing_summary() {
    let args = try_parse_from(argv(&["heapsnap", "summary", "input.heapsnapshot"]));
    assert!(args.is_ok());
}

#[test]
fn help_parsing_summary_search() {
    let args = try_parse_from(argv(&[
        "heapsnap",
        "summary",
        "input.heapsnapshot",
        "--search",
        "Foo",
    ]));
    assert!(args.is_ok());
}

#[test]
fn help_parsing_retainers() {
    let args = try_parse_from(argv(&[
        "heapsnap",
        "retainers",
        "input.heapsnapshot",
        "--id",
        "123",
    ]));
    assert!(args.is_ok());
}

#[test]
fn help_parsing_build() {
    let args = try_parse_from(argv(&[
        "heapsnap",
        "build",
        "input.heapsnapshot",
        "--outdir",
        "out",
    ]));
    assert!(args.is_ok());
}

#[test]
fn help_parsing_diff() {
    let args = try_parse_from(argv(&[
        "heapsnap",
        "diff",
        "a.heapsnapshot",
        "b.heapsnapshot",
        "--format",
        "json",
    ]));
    assert!(args.is_ok());
}

#[test]
fn help_parsing_dominator() {
    let args = try_parse_from(argv(&[
        "heapsnap",
        "dominator",
        "input.heapsnapshot",
        "--id",
        "123",
    ]));
    assert!(args.is_ok());
}

#[test]
fn help_parsing_detail() {
    let args = try_parse_from(argv(&[
        "heapsnap",
        "detail",
        "input.heapsnapshot",
        "--id",
        "123",
    ]));
    assert!(args.is_ok());
}

#[test]
fn help_parsing_serve() {
    let args = try_parse_from(argv(&[
        "heapsnap",
        "serve",
        "input.heapsnapshot",
        "--port",
        "7878",
    ]));
    assert!(args.is_ok());
}

#[test]
fn parsing_rejects_an_unknown_subcommand() {
    let args = try_parse_from(argv(&["heapsnap", "explode", "input.heapsnapshot"]));
    assert!(matches!(
        args,
        Err(heapsnap::error::SnapshotError::InvalidData { .. })
    ));
}
