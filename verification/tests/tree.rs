//! The index of a captured tree: writing, reading, walking and comparing.

use std::collections::BTreeMap;

use orc_app::persist::capture::{CaptureWalk, WalkAction};
use orc_app::persist::tree::{
    ctime_ns, diff, join_rel, len_in_bytes, link_target_is_safe, mirror, mode_of, sub_path,
    system_time_ns, visit_child, visit_root, Child, Entry, EntryRef, IndexHeader, IndexReader,
    IndexWriter, Kind, LayerRef, TreeError, Visit, WalkEntry, Walked, INDEX_VERSION,
};
use serde_json::Value;

fn header() -> IndexHeader {
    IndexHeader {
        v: INDEX_VERSION,
        app: "postgres".to_owned(),
        created_at: 1_700_000_000,
        layers: vec![
            LayerRef {
                digest: "sha256:aa".to_owned(),
                size: 10,
            },
            LayerRef {
                digest: "sha256:bb".to_owned(),
                size: 20,
            },
        ],
    }
}

fn file_entry(path: &str, size: u64, mtime: i64, layer: u32) -> Entry {
    Entry {
        p: path.to_owned(),
        k: Kind::File,
        s: size,
        m: mtime,
        c: 5,
        mode: 0o644,
        t: None,
        r: Some(EntryRef {
            l: layer,
            o: 0,
            n: size,
        }),
    }
}

/// The lines of a document: the first as a header, the others as entries.
fn read(document: &str) -> Result<(IndexReader, Vec<Entry>), TreeError> {
    let mut lines = document.lines();
    let first = lines.next().map(|line| {
        let value: Value = serde_json::from_str(line).map_err(|err| err.to_string())?;
        Ok(IndexHeader {
            v: u32::try_from(value["v"].as_u64().unwrap_or(0)).unwrap_or(0),
            app: value["app"].as_str().unwrap_or_default().to_owned(),
            created_at: value["created_at"].as_i64().unwrap_or(0),
            layers: value["layers"]
                .as_array()
                .map(|layers| {
                    layers
                        .iter()
                        .map(|layer| LayerRef {
                            digest: layer["digest"].as_str().unwrap_or_default().to_owned(),
                            size: layer["size"].as_u64().unwrap_or(0),
                        })
                        .collect()
                })
                .unwrap_or_default(),
        })
    });
    let mut reader = IndexReader::open(first)?;
    let mut entries = Vec::new();
    for line in lines {
        if let Some(entry) = reader.next(line, entry_of(line)) {
            entries.push(entry?);
        }
    }
    Ok((reader, entries))
}

fn entry_of(line: &str) -> Result<Entry, String> {
    let value: Value = serde_json::from_str(line).map_err(|err| err.to_string())?;
    Ok(Entry {
        p: value["p"].as_str().ok_or("no path")?.to_owned(),
        k: match value["k"].as_str() {
            Some("f") => Kind::File,
            Some("d") => Kind::Dir,
            _ => Kind::Symlink,
        },
        s: value["s"].as_u64().unwrap_or(0),
        m: value["m"].as_i64().unwrap_or(0),
        c: value["c"].as_i64().unwrap_or(0),
        mode: u32::try_from(value["mode"].as_u64().unwrap_or(0)).unwrap_or(0),
        t: value["t"].as_str().map(str::to_owned),
        r: value["r"].as_object().map(|reference| EntryRef {
            l: u32::try_from(reference["l"].as_u64().unwrap_or(0)).unwrap_or(0),
            o: reference["o"].as_u64().unwrap_or(0),
            n: reference["n"].as_u64().unwrap_or(0),
        }),
    })
}

fn line_of(entry: &Entry) -> String {
    let kind = match entry.k {
        Kind::File => "f",
        Kind::Dir => "d",
        Kind::Symlink => "l",
    };
    let target = match &entry.t {
        Some(target) => format!(",\"t\":\"{target}\""),
        None => String::new(),
    };
    let reference = match &entry.r {
        Some(r) => format!(",\"r\":{{\"l\":{},\"o\":{},\"n\":{}}}", r.l, r.o, r.n),
        None => String::new(),
    };
    format!(
        "{{\"p\":\"{}\",\"k\":\"{kind}\",\"s\":{},\"m\":{},\"c\":{},\"mode\":{}{target}{reference}}}",
        entry.p, entry.s, entry.m, entry.c, entry.mode
    )
}

const HEADER_LINE: &str = "{\"v\":1,\"app\":\"postgres\",\"created_at\":1700000000,\"layers\":[{\"digest\":\"sha256:aa\",\"size\":10},{\"digest\":\"sha256:bb\",\"size\":20}]}";

#[test]
fn index_round_trips_through_the_writer_and_reader() {
    let header = header();
    let entries = vec![
        Entry {
            p: "var".to_owned(),
            k: Kind::Dir,
            s: 0,
            m: 7,
            c: 8,
            mode: 0o755,
            t: None,
            r: None,
        },
        file_entry("var/data", 12, 99, 1),
        Entry {
            p: "var/link".to_owned(),
            k: Kind::Symlink,
            s: 0,
            m: 3,
            c: 4,
            mode: 0o777,
            t: Some("data".to_owned()),
            r: None,
        },
    ];
    let mut writer = IndexWriter::new(&header, HEADER_LINE.as_bytes());
    for entry in &entries {
        writer.push(entry, line_of(entry).as_bytes()).expect("push");
    }
    let (bytes, count) = writer.finish();
    assert_eq!(count, 3);

    let document = String::from_utf8(bytes).expect("text");
    let (reader, found) = read(&document).ok().expect("open");
    assert_eq!(reader.header(), &header);
    assert_eq!(found, entries);
    assert_eq!(reader.into_header(), header);
}

#[test]
fn the_writer_refuses_an_out_of_order_entry() {
    let mut writer = IndexWriter::new(&header(), HEADER_LINE.as_bytes());
    writer.push(&file_entry("b", 1, 1, 0), b"{}").expect("push");
    let err = writer
        .push(&file_entry("a", 1, 1, 0), b"{}")
        .expect_err("refused");
    assert!(err.message().contains("sorted order"), "{err:?}");
    // A repeat of the same path is out of order too: the sort is strict.
    let err = writer
        .push(&file_entry("b", 1, 1, 0), b"{}")
        .expect_err("refused");
    assert!(err.message().contains("sorted order"), "{err:?}");
    assert_eq!(writer.finish().1, 1);
}

#[test]
fn the_writer_refuses_a_reference_the_header_does_not_carry() {
    let mut writer = IndexWriter::new(&header(), HEADER_LINE.as_bytes());
    let err = writer
        .push(&file_entry("a", 1, 1, 7), b"{}")
        .expect_err("refused");
    assert!(err.message().contains("references layer 7"), "{err:?}");
}

#[test]
fn the_reader_tolerates_unknown_keys_and_refuses_a_future_version() {
    let document = "{\"v\":1,\"app\":\"a\",\"created_at\":1,\"layers\":[],\"future\":9}\n\
         {\"p\":\"x\",\"k\":\"f\",\"s\":3,\"m\":4,\"tomorrow\":true}\n";
    let (_, entries) = read(document).ok().expect("open");
    assert_eq!(entries.len(), 1);
    assert_eq!(entries[0].s, 3);

    let future = "{\"v\":2,\"app\":\"a\",\"created_at\":1,\"layers\":[]}\n";
    let Err(err) = read(future) else {
        panic!("a future version must be refused")
    };
    assert!(err.message().contains("version 2"), "{err:?}");
    assert_eq!(read("").err(), Some(TreeError::NoHeader));
    assert!(matches!(read("nonsense").err(), Some(TreeError::BadHeader(_))));
}

#[test]
fn blank_lines_hold_no_entry() {
    let (mut reader, _) = read(HEADER_LINE).ok().expect("open");
    assert_eq!(reader.next("  ", entry_of("  ")), None);
    assert_eq!(
        reader.next("{", Err("cut off".to_owned())),
        Some(Err(TreeError::BadEntry { line: 3, source: "cut off".to_owned() }))
    );
    let entry = file_entry("a", 1, 1, 0);
    assert_eq!(reader.next(&line_of(&entry), Ok(entry.clone())), Some(Ok(entry)));
}

#[test]
fn mirroring_matches_the_graft() {
    assert_eq!(mirror("/var/lib/pg").expect("unix"), "var/lib/pg");
    assert_eq!(
        mirror("c:/jenkins-agent").expect("windows"),
        "c/jenkins-agent"
    );
    assert!(mirror("relative").is_err());
    assert_eq!(mirror("C:/").expect("a whole drive"), "C/");
    for refused in ["foo/bar:/baz", ":/x", "cd:/x", "c:x", "1:/x", ""] {
        assert!(mirror(refused).is_err(), "{refused}");
    }
}

fn child(name: &str, kind: Option<Kind>) -> Child {
    Child {
        name: name.to_owned(),
        kind,
        len: 6,
        mtime_ns: 3,
        ctime_ns: 4,
        mode: 0o100_644,
        target: None,
        source: format!("/data/{name}"),
    }
}

/// A file system in memory: what stands at each path.
struct Disk(BTreeMap<String, Child>);

impl Disk {
    fn put(&mut self, path: &str, kind: Option<Kind>, len: u64, target: Option<&str>) {
        let (parent, name) = path.rsplit_once('/').unwrap_or(("", path));
        if !parent.is_empty() && !self.0.contains_key(parent) {
            self.put(parent, Some(Kind::Dir), 4096, None);
        }
        let mut child = child(name, kind);
        child.len = len;
        child.target = target.map(str::to_owned);
        child.source = path.to_owned();
        self.0.insert(path.to_owned(), child);
    }

    fn write(&mut self, path: &str, body: &str) {
        self.put(path, Some(Kind::File), body.len() as u64, None);
    }

    fn link(&mut self, path: &str, target: &str) {
        self.put(path, Some(Kind::Symlink), 9, Some(target));
    }

    /// Walks the disk. Every directory that is listed is put down.
    fn walk(
        &self,
        roots: &[&str],
        holes: &[&str],
        filter: &dyn Fn(&str) -> bool,
        listed: &mut Vec<String>,
    ) -> Result<Walked, TreeError> {
        let owned = |paths: &[&str]| paths.iter().map(|path| (*path).to_owned()).collect();
        let mut walk = CaptureWalk::new(&owned(roots), &owned(holes))?;
        loop {
            match walk.next() {
                WalkAction::Done => return Ok(walk.finish()),
                WalkAction::Stat(path) => walk.root(self.0.get(&path)),
                WalkAction::List(path) => {
                    for (at, child) in &self.0 {
                        if at.rsplit_once('/').map_or("", |(parent, _)| parent) != path {
                            continue;
                        }
                        let filtered = filter(&walk.within(&child.name));
                        if !walk.leaves_out(&child.name, filtered) {
                            walk.found(child, filtered);
                        }
                    }
                    walk.listed();
                    listed.push(path);
                }
            }
        }
    }

    fn walked(&self, roots: &[&str], holes: &[&str], filter: &dyn Fn(&str) -> bool) -> Vec<String> {
        self.walk(roots, holes, filter, &mut Vec::new())
            .expect("walk")
            .entries
            .into_iter()
            .map(|entry| entry.path)
            .collect()
    }
}

/// One mirrored subtree per root, with what stands in the hole still there.
fn graft_shaped_tree() -> Disk {
    let mut disk = Disk(BTreeMap::new());
    disk.write("var/lib/pg/base/1/1234", "row data");
    disk.write("var/lib/pg/base/1/1234.bkp", "backup");
    disk.write("var/lib/pg/postgresql.conf", "config");
    disk.write("var/lib/pg/pg_wal/000001", "write ahead");
    disk.write("srv/app/state.db", "state");
    disk
}

fn unfiltered(_: &str) -> bool {
    false
}

#[test]
fn walking_a_graft_shaped_tree_skips_holes_and_filters() {
    let disk = graft_shaped_tree();
    let backups = |within: &str| within.ends_with(".bkp");
    let mut listed = Vec::new();
    let walked = disk
        .walk(&["/var/lib/pg", "/srv/app"], &["/var/lib/pg/pg_wal"], &backups, &mut listed)
        .expect("walk");
    assert_eq!(walked.skipped_symlinks, 0);
    assert_eq!(
        walked.entries.iter().map(|entry| entry.path.as_str()).collect::<Vec<_>>(),
        [
            "srv/app",
            "srv/app/state.db",
            "var/lib/pg",
            "var/lib/pg/base",
            "var/lib/pg/base/1",
            "var/lib/pg/base/1/1234",
            "var/lib/pg/postgresql.conf",
        ]
    );
    listed.sort();
    assert_eq!(
        listed,
        ["srv/app", "var/lib/pg", "var/lib/pg/base", "var/lib/pg/base/1"],
        "nothing looks into the hole"
    );
}

#[test]
fn a_filter_is_matched_within_its_root_not_against_the_mirrored_path() {
    let disk = graft_shaped_tree();
    // Whatever stands directly in a directory of that name, below the root.
    let directly_in = |dir: &'static str| {
        move |within: &str| within.rsplit_once('/').is_some_and(|(parent, _)| parent == dir)
    };
    let holes = ["/var/lib/pg/pg_wal"];
    assert_eq!(
        disk.walked(&["/var/lib/pg"], &holes, &directly_in("base")),
        ["var/lib/pg", "var/lib/pg/base", "var/lib/pg/postgresql.conf"]
    );
    // The same pattern written against the mirrored path matches nothing.
    assert!(
        disk.walked(&["/var/lib/pg"], &holes, &directly_in("var/lib/pg"))
            .contains(&"var/lib/pg/base/1/1234".to_owned()),
        "a mirrored-path pattern must not match"
    );
}

#[test]
fn walking_records_sizes_and_a_missing_root_is_not_an_error() {
    let disk = graft_shaped_tree();
    let entries = disk
        .walk(
            &["/var/lib/pg", "/opt/never-written"],
            &["/var/lib/pg/pg_wal"],
            &unfiltered,
            &mut Vec::new(),
        )
        .expect("walk")
        .entries;
    let conf = entries
        .iter()
        .find(|entry| entry.path == "var/lib/pg/postgresql.conf")
        .expect("conf");
    assert_eq!(conf.kind, Kind::File);
    assert_eq!(conf.size, 6);
    assert!(conf.mtime_ns > 0);
    assert!(!entries.iter().any(|entry| entry.path.starts_with("opt")));
    let root = entries.iter().find(|entry| entry.path == "var/lib/pg").expect("root");
    assert_eq!(root.size, 0, "a directory has no size");
    assert_eq!(root.target, None);
}

/// A root that is no directory adds nothing, and neither does what is no file at all.
#[test]
fn only_directories_are_walked() {
    let mut disk = graft_shaped_tree();
    disk.put("srv/app/socket", None, 0, None);
    assert_eq!(
        disk.walked(&["/srv/app", "/var/lib/pg/postgresql.conf"], &[], &unfiltered),
        ["srv/app", "srv/app/state.db"]
    );
}

#[test]
fn a_path_that_cannot_be_mirrored_stops_a_walk() {
    let disk = graft_shaped_tree();
    let stop = |roots: &[&str], holes: &[&str]| {
        disk.walk(roots, holes, &unfiltered, &mut Vec::new()).expect_err("refused")
    };
    assert_eq!(
        stop(&["/srv/app", "a"], &["/x", "b", "c"]),
        TreeError::NotMirrorable("b".to_owned())
    );
    assert_eq!(
        stop(&["/srv/app", "a"], &["/x"]),
        TreeError::NotMirrorable("a".to_owned())
    );
}

#[test]
fn one_thing_is_decided_on_by_itself() {
    let holes = vec!["var/lib/pg/pg_wal".to_owned()];
    assert_eq!(
        visit_child("var/lib/pg", &holes, false, &child("pg_wal", Some(Kind::Dir))),
        Visit::Skip
    );
    assert_eq!(
        visit_child("var/lib/pg", &holes, true, &child("1234.bkp", Some(Kind::File))),
        Visit::Skip
    );
    assert_eq!(
        visit_child("var/lib/pg", &holes, false, &child("socket", None)),
        Visit::Skip
    );
    let Visit::Take(conf) =
        visit_child("var/lib/pg", &holes, false, &child("postgresql.conf", Some(Kind::File)))
    else {
        panic!("a plain file is recorded")
    };
    assert_eq!(conf.path, "var/lib/pg/postgresql.conf");
    assert_eq!(conf.kind, Kind::File);
    assert_eq!(conf.size, 6);
    assert_eq!(conf.mode, 0o644);
    let root = visit_root("var/lib/pg", &child("pg", Some(Kind::Dir))).expect("a directory");
    assert_eq!(root.path, "var/lib/pg");
    assert_eq!(root.size, 0);
    assert!(visit_root("var/lib/pg", &child("pg", Some(Kind::File))).is_none());
}

#[test]
fn a_symlink_is_recorded_by_its_target_and_never_followed() {
    let mut disk = Disk(BTreeMap::new());
    disk.write("srv/app/real/file", "body");
    disk.link("srv/app/link", "real");
    let mut listed = Vec::new();
    let entries = disk
        .walk(&["/srv/app"], &[], &unfiltered, &mut listed)
        .expect("walk")
        .entries;
    let link = entries
        .iter()
        .find(|entry| entry.path == "srv/app/link")
        .expect("link");
    assert_eq!(link.kind, Kind::Symlink);
    assert_eq!(link.target.as_deref(), Some("real"));
    // Not followed: the target's contents appear once, under `real`.
    assert_eq!(
        entries.iter().filter(|entry| entry.path.ends_with("/file")).count(),
        1
    );
    assert_eq!(listed, ["srv/app", "srv/app/real"]);
    let mut slashed = child("link", Some(Kind::Symlink));
    slashed.target = Some("real\\dir".to_owned());
    let Visit::Take(found) = visit_child("srv/app", &vec![], false, &slashed) else {
        panic!("the link is recorded")
    };
    assert_eq!(found.target.as_deref(), Some("real/dir"));
}

#[test]
fn a_symlink_a_restore_would_refuse_is_left_out_of_the_walk_and_counted() {
    let mut disk = Disk(BTreeMap::new());
    disk.write("srv/app/real/file", "body");
    disk.link("srv/app/localtime", "/usr/share/zoneinfo/UTC");
    disk.link("srv/app/link", "real");
    let walked = disk
        .walk(&["/srv/app"], &[], &unfiltered, &mut Vec::new())
        .expect("walk");
    assert_eq!(walked.skipped_symlinks, 1);
    assert!(
        !walked.entries.iter().any(|entry| entry.path == "srv/app/localtime"),
        "the absolute link must not reach the index"
    );
    assert_eq!(
        walked.entries.iter().map(|entry| entry.path.as_str()).collect::<Vec<_>>(),
        ["srv/app", "srv/app/link", "srv/app/real", "srv/app/real/file"]
    );
    for entry in &walked.entries {
        if entry.kind == Kind::Symlink {
            assert!(link_target_is_safe(
                &entry.path,
                entry.target.as_deref().unwrap_or_default()
            ));
        }
    }
}

/// A link that a restore would refuse is left out and counted.
#[test]
fn a_symlink_out_of_the_tree_is_skipped_whatever_shape_it_takes() {
    let mut disk = Disk(BTreeMap::new());
    for (name, target) in [
        ("absolute", "/etc/shadow"),
        ("climbing", "../../../outside"),
        ("windows", "c:/windows"),
        ("unc", "\\\\host\\share"),
    ] {
        disk.link(&format!("srv/app/{name}"), target);
    }
    let walked = disk
        .walk(&["/srv/app"], &[], &unfiltered, &mut Vec::new())
        .expect("walk");
    assert_eq!(walked.skipped_symlinks, 4);
    assert_eq!(
        walked.entries.len(),
        1,
        "only the root directory survives: {:?}",
        walked.entries
    );
    let unreadable = child("link", Some(Kind::Symlink));
    assert_eq!(
        visit_child("srv/app", &vec![], false, &unreadable),
        Visit::SkipLink
    );
    assert!(link_target_is_safe("srv/app/link", "real"));
    assert!(!link_target_is_safe("srv/app/link", "/real"));
}

fn walk_entry(path: &str, size: u64, mtime: i64) -> WalkEntry {
    WalkEntry {
        path: path.to_owned(),
        kind: Kind::File,
        size,
        mtime_ns: mtime,
        ctime_ns: 0,
        mode: 0o644,
        target: None,
        source: path.to_owned(),
    }
}

#[test]
fn a_walk_is_sorted_byte_wise_over_whole_paths() {
    let mut disk = Disk(BTreeMap::new());
    disk.write("srv/app/a/b", "x");
    disk.write("srv/app/a.txt", "y");
    // '.' (0x2E) sorts before '/' (0x2F), so `a.txt` precedes `a/b`.
    assert_eq!(
        disk.walked(&["/srv/app"], &[], &unfiltered),
        ["srv/app", "srv/app/a", "srv/app/a.txt", "srv/app/a/b"]
    );
}

#[test]
fn diff_carries_unchanged_files_and_re_reads_changed_ones() {
    let header = header();
    let previous = vec![
        file_entry("a", 10, 100, 0),
        file_entry("b", 20, 200, 1),
        file_entry("c", 30, 300, 1),
    ];
    let current = vec![
        walk_entry("a", 10, 100), // unchanged
        walk_entry("b", 20, 201), // touched: mtime moved
        walk_entry("c", 31, 300), // grew
        walk_entry("d", 5, 5),    // new
    ];
    let planned = diff(&header, &previous, None, current).expect("diff");
    let carried: Vec<bool> = planned.iter().map(|item| item.carried.is_some()).collect();
    assert_eq!(carried, [true, false, false, false]);
    let first = planned[0].carried.as_ref().expect("carried");
    assert_eq!(first.layer.digest, "sha256:aa");
    assert_eq!(first.len, 10);
}

#[test]
fn diff_ignores_ctime_and_entries_the_walk_no_longer_sees() {
    let header = header();
    let mut previous_entry = file_entry("a", 10, 100, 0);
    previous_entry.c = 42;
    let previous = vec![
        file_entry("0-gone", 1, 1, 0),
        previous_entry,
        file_entry("z-gone", 1, 1, 0),
    ];
    let mut current = walk_entry("a", 10, 100);
    current.ctime_ns = 999;
    let planned = diff(&header, &previous, None, vec![current]).expect("diff");
    assert_eq!(planned.len(), 1);
    assert!(planned[0].carried.is_some(), "ctime is advisory");
}

#[test]
fn diff_never_carries_a_directory_or_a_reference_free_entry() {
    let header = header();
    let mut reference_free = file_entry("a", 10, 100, 0);
    reference_free.r = None;
    let mut directory = walk_entry("d", 0, 7);
    directory.kind = Kind::Dir;
    let previous = vec![
        reference_free,
        Entry {
            p: "d".to_owned(),
            k: Kind::Dir,
            s: 0,
            m: 7,
            c: 0,
            mode: 0o755,
            t: None,
            r: None,
        },
    ];
    let planned = diff(
        &header,
        &previous,
        None,
        vec![walk_entry("a", 10, 100), directory],
    )
    .expect("diff");
    assert!(planned.iter().all(|item| item.carried.is_none()));
}

#[test]
fn a_broken_previous_index_stops_the_comparison_where_it_is_needed() {
    let header = header();
    let previous = vec![file_entry("a", 10, 100, 0)];
    let broken = || {
        Some(TreeError::BadEntry {
            line: 3,
            source: "cut".to_owned(),
        })
    };
    assert!(diff(&header, &previous, broken(), vec![walk_entry("a", 10, 100)]).is_ok());
    let err = diff(&header, &previous, broken(), vec![walk_entry("b", 1, 1)]).expect_err("broken");
    assert_eq!(err.message(), "app data index line 3 is malformed: cut");
    let dangling = vec![file_entry("a", 10, 100, 9)];
    let err = diff(&header, &dangling, None, vec![walk_entry("a", 10, 100)]).expect_err("dangling");
    assert_eq!(err, TreeError::DanglingLayer("a".to_owned(), 9));
}

#[test]
fn paths_and_times_are_taken_as_they_are() {
    assert_eq!(join_rel("", "a"), "a");
    assert_eq!(join_rel("a", "b"), "a/b");
    assert_eq!(sub_path("a//b/"), ["a", "b"]);
    assert_eq!(len_in_bytes("\u{e4}x"), 3);
    assert_eq!(mode_of(0o107_644), 0o7644);
    assert_eq!(system_time_ns(false, 5), 5);
    assert_eq!(system_time_ns(true, 5), -5);
    assert_eq!(system_time_ns(false, u128::MAX), i64::MAX);
    assert_eq!(system_time_ns(true, u128::MAX), i64::MIN);
    assert_eq!(ctime_ns(2, 7), 2_000_000_007);
    assert_eq!(ctime_ns(i64::MAX, 7), i64::MAX);
    assert_eq!(ctime_ns(i64::MIN, 0), i64::MIN);
}
