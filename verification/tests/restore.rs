//! Reading an index, and the paths and links that it may name.

use orc_app::error::CliError;
use orc_app::persist::restore::{
    check_link_target, join_path, mirrored_roots, name_the_layer, safe_join, IndexBuilder,
    IndexDir, IndexFile, IndexParser, IndexSymlink, LineCutter, PointIndex, RestoreError,
    MAX_INDEX_LINE, MAX_PATH_ARENA,
};
use orc_app::persist::scatter::{range_end, Placed};
use orc_app::persist::seal::SealError;
use orc_app::persist::stream::StreamError;
use orc_app::persist::tree::{
    Entry, EntryRef, IndexHeader, IndexWriter, Kind, LayerRef, TreeError, INDEX_VERSION,
    MAX_PATH_LEN,
};

fn header() -> IndexHeader {
    IndexHeader {
        v: INDEX_VERSION,
        app: "sys/sys/app".to_owned(),
        created_at: 0,
        layers: vec![LayerRef {
            digest: "sha256:0".to_owned(),
            size: 0,
        }],
    }
}

/// Runs `entries` through the reader behind a minimal header.
fn parse_entries(entries: &[Entry]) -> Result<PointIndex, RestoreError> {
    let lines: Vec<Result<Entry, String>> = entries.iter().map(|entry| Ok(entry.clone())).collect();
    PointIndex::read(Some(Ok(header())), &lines, false)
}

fn entry(path: &str, kind: Kind) -> Entry {
    Entry {
        p: path.to_owned(),
        k: kind,
        s: 0,
        m: 0,
        c: 0,
        mode: 0,
        t: None,
        r: None,
    }
}

#[test]
fn a_path_that_escapes_the_destination_is_refused() {
    let root = "/tmp/app.restoring";
    for path in [
        "../etc/passwd",
        "a/../../b",
        "/etc/passwd",
        "c:/windows",
        "a//b",
        "",
        "a/./b",
        "a\\b",
    ] {
        assert!(
            safe_join(root, path).is_err(),
            "{path:?} must not be joinable"
        );
    }
    assert_eq!(
        safe_join(root, "var/lib/pg/base").expect("safe"),
        "/tmp/app.restoring/var/lib/pg/base"
    );
    assert_eq!(join_path("", "x"), "x");
    assert_eq!(join_path("/", "x"), "/x");
}

/// An index may not name one path twice with two kinds, and the paths ascend.
#[test]
fn an_index_that_names_a_path_twice_is_refused() {
    let file = |path: &str| Entry {
        p: path.to_owned(),
        k: Kind::File,
        s: 0,
        m: 0,
        c: 0,
        mode: 0o7777,
        t: None,
        r: Some(EntryRef { l: 0, o: 0, n: 0 }),
    };
    let link = |path: &str, target: &str| Entry {
        p: path.to_owned(),
        k: Kind::Symlink,
        s: 0,
        m: 0,
        c: 0,
        mode: 0,
        t: Some(target.to_owned()),
        r: None,
    };

    let err = parse_entries(&[file("x"), link("x", "target")])
        .err()
        .expect("duplicate");
    assert!(
        matches!(err, RestoreError::Index(TreeError::OutOfOrder { .. })),
        "{err:?}"
    );
    assert!(parse_entries(&[file("x"), file("x")]).is_err());
    assert!(parse_entries(&[file("b"), file("a")]).is_err());
    // Ascending is accepted.
    let index = parse_entries(&[file("a"), file("b"), link("c", "a")])
        .ok()
        .expect("sorted");
    assert_eq!(index.file_count(), 2);
    assert_eq!(index.symlinks().len(), 1);
    assert_eq!(index.reference("b"), Some(EntryRef { l: 0, o: 0, n: 0 }));
    assert_eq!(index.reference("c"), None);
    assert_eq!(index.header().app, "sys/sys/app");
}

#[test]
fn the_index_parser_holds_every_cap_it_declares() {
    // One line, with no newline anywhere, cannot be accumulated without bound.
    let mut cutter = LineCutter::new();
    let lines = cutter.feed(b"{\"v\":1,\"app\":\"a\",\"created_at\":0,\"layers\":[]}\n");
    assert_eq!(lines.len(), 1);
    assert!(cutter.feed(&vec![b'x'; MAX_INDEX_LINE + 1]).is_empty());
    assert!(cutter.is_overlong());
    assert!(cutter.finish().is_none());
    assert!(
        matches!(
            PointIndex::read(Some(Ok(header())), &vec![], true),
            Err(RestoreError::LineTooLong)
        ),
        "a line over {MAX_INDEX_LINE} bytes must be refused"
    );
    // And in pieces, none of which is over the cap on its own.
    let mut cutter = LineCutter::new();
    cutter.feed(b"{\"v\":1,\"app\":\"a\",\"created_at\":0,\"layers\":[]}\n");
    for _ in 0..=(MAX_INDEX_LINE / 1024) {
        cutter.feed(&vec![b'y'; 1024]);
    }
    assert!(cutter.is_overlong());

    // A path over the per-path cap is refused, whatever its kind.
    let long = "a".repeat(MAX_PATH_LEN + 1);
    for kind in [Kind::File, Kind::Dir, Kind::Symlink] {
        let err = parse_entries(&[Entry {
            p: long.clone(),
            k: kind,
            s: 0,
            m: 0,
            c: 0,
            mode: 0,
            t: Some("t".to_owned()),
            r: Some(EntryRef { l: 0, o: 0, n: 0 }),
        }])
        .err()
        .expect("long path");
        assert!(matches!(err, RestoreError::PathTooLong), "{kind:?}: {err:?}");
    }

    // So is a symlink target over it.
    let err = parse_entries(&[Entry {
        p: "link".to_owned(),
        k: Kind::Symlink,
        s: 0,
        m: 0,
        c: 0,
        mode: 0,
        t: Some("t".repeat(MAX_PATH_LEN + 1)),
        r: None,
    }])
    .err()
    .expect("long target");
    assert!(matches!(err, RestoreError::UnsafeLinkTarget(_)), "{err:?}");
}

/// Symlinks and directories count against the entry cap and the path budget, not only files.
#[test]
fn every_kind_of_entry_is_charged_against_the_caps() {
    let mut parser = IndexParser::new(0);
    parser.files.push(IndexFile {
        path: String::new(),
        layer: 0,
        offset: 0,
        len: 0,
        mtime_ns: 0,
        mode: 0,
    });
    parser.dirs.push(IndexDir {
        path: String::new(),
        mtime_ns: 0,
        mode: 0,
    });
    parser.symlinks.push(IndexSymlink {
        path: String::new(),
        target: String::new(),
        mtime_ns: 0,
    });
    assert_eq!(parser.entries(), 3, "every kind counts against the cap");

    // The path budget covers dirs and symlink targets, not just the files.
    let mut parser = IndexParser::new(0);
    parser.charged = MAX_PATH_ARENA;
    assert!(matches!(
        parser.entry(&entry("d", Kind::Dir)),
        Err(RestoreError::PathsTooLarge)
    ));
    let mut parser = IndexParser::new(0);
    parser.charged = MAX_PATH_ARENA - 1;
    assert!(
        matches!(
            parser.entry(&Entry {
                p: "l".to_owned(),
                k: Kind::Symlink,
                s: 0,
                m: 0,
                c: 0,
                mode: 0,
                t: Some("target".to_owned()),
                r: None,
            }),
            Err(RestoreError::PathsTooLarge)
        ),
        "the symlink's target must be charged too"
    );
}

/// A target is followed from where the link sits, and anything that leaves the tree from there is
/// refused.
#[test]
fn a_symlink_target_that_leaves_the_tree_is_refused() {
    for (link, target) in [
        ("link", "/etc/shadow"),
        ("link", "/"),
        ("link", "../outside"),
        ("a/link", "../../outside"),
        ("a/b/link", "../../../outside"),
        ("link", "c:/windows"),
        ("link", "c:\\windows"),
        ("link", "\\\\host\\share"),
        ("link", "\\\\?\\c:\\x"),
        ("link", "\\\\.\\pipe\\x"),
        ("link", "a\\b"),
        ("link", "file:stream"),
        ("link", "with\0nul"),
        ("link", ""),
    ] {
        assert!(
            check_link_target(link, target).is_err(),
            "{link} -> {target:?} must be refused"
        );
    }
    for (link, target) in [
        ("link", "sibling"),
        ("a/link", "../conf/x"),
        ("a/b/link", "../../conf/x"),
        ("a/link", "b/../c"),
        ("link", "./here"),
        ("a/b/link", "../x/../../y"),
    ] {
        check_link_target(link, target)
            .unwrap_or_else(|err| panic!("{link} -> {target:?} must be allowed: {err:?}"));
    }
}

/// A range past the end of the number line is a refusal, not a wrap.
#[test]
fn a_layer_range_that_would_overflow_is_refused() {
    let record = Placed {
        offset: u64::MAX - 1,
        len: 4,
    };
    assert!(matches!(
        range_end(&record, "sha256:x"),
        Err(RestoreError::LayerRange { .. })
    ));
    assert_eq!(
        range_end(
            &Placed { offset: 10, len: 5 },
            "sha256:x"
        )
        .ok()
        .expect("in range"),
        15
    );
}

#[test]
fn an_index_without_a_header_or_of_another_version_is_refused() {
    assert!(matches!(
        PointIndex::read(None, &vec![], false),
        Err(RestoreError::Index(TreeError::NoHeader))
    ));
    assert!(matches!(
        PointIndex::read(Some(Err("oops".to_owned())), &vec![], false),
        Err(RestoreError::Index(TreeError::BadHeader(m))) if m == "oops"
    ));
    let mut later = header();
    later.v = INDEX_VERSION + 1;
    assert!(matches!(
        PointIndex::read(Some(Ok(later)), &vec![], false),
        Err(RestoreError::Index(TreeError::UnsupportedVersion(v))) if v == INDEX_VERSION + 1
    ));
}

#[test]
fn an_entry_that_places_nothing_is_refused() {
    let err = parse_entries(&[entry("f", Kind::File)]).err().expect("no place");
    assert!(matches!(err, RestoreError::Unplaced(ref p) if p == "f"), "{err:?}");

    let mut dangling = entry("f", Kind::File);
    dangling.r = Some(EntryRef { l: 1, o: 0, n: 0 });
    let err = parse_entries(&[dangling]).err().expect("no layer");
    assert!(
        matches!(err, RestoreError::DanglingLayer(ref p, 1) if p == "f"),
        "{err:?}"
    );

    let err = parse_entries(&[entry("../x", Kind::Dir)]).err().expect("unsafe");
    assert!(matches!(err, RestoreError::UnsafePath(ref p) if p == "../x"));
    assert_eq!(
        err.message(),
        "app data index entry \"../x\" is not a path that can be restored inside the app tree"
    );
}

#[test]
fn lines_do_not_depend_on_how_the_document_arrives() {
    let document = b"one\n\ntwo\nthree";
    let mut whole = LineCutter::new();
    let mut lines = whole.feed(document);
    lines.extend(whole.finish());
    let mut cut = LineCutter::new();
    let mut pieces = Vec::new();
    for byte in document {
        pieces.extend(cut.feed(&[*byte]));
    }
    pieces.extend(cut.finish());
    assert_eq!(lines, pieces);
    assert_eq!(lines, [b"one".to_vec(), b"two".to_vec(), b"three".to_vec()]);
}

#[test]
fn a_layer_that_no_key_opens_is_named() {
    let err = name_the_layer(
        RestoreError::Stream(StreamError::Seal(SealError::Unauthentic)),
        2,
        3,
        "sha256:d",
    );
    assert!(
        matches!(err, RestoreError::LayerUnauthentic { number: 2, total: 3, ref digest } if digest == "sha256:d")
    );
    let err = name_the_layer(RestoreError::LineTooLong, 1, 1, "sha256:d");
    assert!(matches!(err, RestoreError::LineTooLong));
}

#[test]
fn a_restore_error_becomes_a_command_error() {
    let err = RestoreError::Io {
        message: "there".to_owned(),
        exists: true,
    };
    assert!(matches!(err.into_cli(), CliError::Conflict(m) if m == "there"));
    let err = RestoreError::Registry(CliError::Auth("no".to_owned()));
    assert!(matches!(err.into_cli(), CliError::Auth(m) if m == "no"));
    let err = RestoreError::Task("gone".to_owned());
    assert!(
        matches!(err.into_cli(), CliError::Operational(m) if m == "app data restore task failed: gone")
    );
}

#[test]
fn roots_are_mirrored_or_refused() {
    let roots = mirrored_roots(&vec!["/var/lib/pg".to_owned(), "/etc".to_owned()])
        .ok()
        .expect("absolute");
    assert_eq!(roots, ["var/lib/pg", "etc"]);
    assert!(matches!(
        mirrored_roots(&vec!["relative".to_owned()]),
        Err(RestoreError::Index(TreeError::NotMirrorable(p))) if p == "relative"
    ));
}

#[test]
fn written_lines_are_read_back() {
    let mut writer = IndexWriter::new(&header(), b"{\"v\":1}");
    writer.push(&entry("a", Kind::Dir), b"{\"p\":\"a\"}").expect("first");
    writer.push(&entry("a/b", Kind::Dir), b"{\"p\":\"a/b\"}").expect("second");
    let (document, entries) = writer.finish();
    assert_eq!(entries, 2);
    for cut in [1, 7, 9, document.len()] {
        let mut cutter = LineCutter::new();
        let mut lines = Vec::new();
        for part in document.chunks(cut) {
            lines.extend(cutter.feed(part));
        }
        assert!(!cutter.is_overlong());
        assert_eq!(cutter.finish(), None);
        assert_eq!(
            lines,
            vec![
                b"{\"v\":1}".to_vec(),
                b"{\"p\":\"a\"}".to_vec(),
                b"{\"p\":\"a/b\"}".to_vec()
            ]
        );
    }
}

/// An index that is read line by line comes to what it comes to as a whole.
#[test]
fn an_index_is_read_line_by_line() {
    let mut builder = IndexBuilder::new();
    assert!(!builder.has_failed());
    builder.take_header(Ok(header()));
    builder.take_entry(&Ok(entry("a", Kind::Dir)));
    builder.take_entry(&Ok(entry("a/b", Kind::Dir)));
    let index = builder.finish(false).ok().expect("index");
    let paths: Vec<&str> = index.dirs().iter().map(|dir| dir.path.as_str()).collect();
    assert_eq!(paths, ["a", "a/b"]);

    let mut builder = IndexBuilder::new();
    builder.take_header(Ok(header()));
    builder.take_entry(&Ok(entry("b", Kind::Dir)));
    builder.take_entry(&Err("no json".to_owned()));
    assert!(builder.has_failed());
    builder.take_entry(&Ok(entry("a", Kind::Dir)));
    assert!(matches!(
        builder.finish(true),
        Err(RestoreError::Index(TreeError::BadEntry { line: 3, source })) if source == "no json"
    ));

    let mut builder = IndexBuilder::new();
    builder.take_header(Ok(header()));
    assert!(matches!(builder.finish(true), Err(RestoreError::LineTooLong)));
    assert!(matches!(IndexBuilder::new().finish(true), Err(RestoreError::LineTooLong)));
    assert!(matches!(
        IndexBuilder::new().finish(false),
        Err(RestoreError::Index(TreeError::NoHeader))
    ));
    let mut builder = IndexBuilder::new();
    builder.take_header(Err("no json".to_owned()));
    assert!(builder.has_failed());
    assert!(matches!(
        builder.finish(false),
        Err(RestoreError::Index(TreeError::BadHeader(m))) if m == "no json"
    ));
}

#[test]
fn parents_come_before_children() {
    let index = parse_entries(&[
        entry("a", Kind::Dir),
        entry("a/b", Kind::Dir),
        entry("a/b/c", Kind::Dir),
        entry("b", Kind::Dir),
    ])
    .expect("in order");
    let paths: Vec<&str> = index.dirs().iter().map(|dir| dir.path.as_str()).collect();
    assert_eq!(paths, vec!["a", "a/b", "a/b/c", "b"]);
    assert!(parse_entries(&[entry("a/b", Kind::Dir), entry("a", Kind::Dir)]).is_err());
}
