//! The steps of a restore and the order in which layers are read.

use orc_app::persist::archive::{
    file_header, head_entries, mode_or, places_of, seconds,
    symlink_entries, ArchiveStats, ArchiveStep, Archiver, CutAction, Cutter, LayerDigest, TarKind,
    DEFAULT_DIR_MODE, DEFAULT_FILE_MODE,
};
use orc_app::persist::materialize::{
    check_parent, filetime_ticks, layer_passes, metadata_to_apply, restoring_name,
    time_parts, Found, RestoreStep, RestoredPoint, Restorer,
};
use orc_app::persist::restore::{PointIndex, RestoreError, RestoreStats};
use orc_app::persist::restoring::{RestoreAction, Restoring};
use orc_app::persist::scatter::{is_ascending, Placed, Scatter};
use orc_app::persist::seal::SealError;
use orc_app::persist::stream::{digest_bytes, StreamError};
use orc_app::persist::tree::{
    Entry, EntryRef, IndexHeader, Kind, LayerRef, WalkEntry, INDEX_VERSION,
};

fn file(path: &str, layer: u32, offset: u64, len: u64) -> Entry {
    Entry {
        p: path.to_owned(),
        k: Kind::File,
        s: len,
        m: 1_600_000_000_123_456_789,
        c: 0,
        mode: 0o640,
        t: None,
        r: Some(EntryRef {
            l: layer,
            o: offset,
            n: len,
        }),
    }
}

fn index(entries: Vec<Entry>) -> PointIndex {
    let header = IndexHeader {
        v: INDEX_VERSION,
        app: "sys/sys/app".to_owned(),
        created_at: 7,
        layers: vec![
            LayerRef {
                digest: "sha256:0".to_owned(),
                size: 0,
            },
            LayerRef {
                digest: "sha256:1".to_owned(),
                size: 0,
            },
            LayerRef {
                digest: "sha256:2".to_owned(),
                size: 0,
            },
        ],
    };
    PointIndex::read(
        Some(Ok(header)),
        &entries.into_iter().map(Ok).collect(),
        false,
    )
    .ok()
    .expect("index")
}

fn sample() -> PointIndex {
    index(vec![
        file("a", 2, 10, 5),
        file("b", 0, 0, 3),
        Entry {
            p: "d".to_owned(),
            k: Kind::Dir,
            s: 0,
            m: 5_000_000_000,
            c: 0,
            mode: 0o4755,
            t: None,
            r: None,
        },
        file("d/e", 2, 0, 4),
        file("d/f", 0, 3, 0),
        Entry {
            p: "l".to_owned(),
            k: Kind::Symlink,
            s: 0,
            m: -1,
            c: 0,
            mode: 0,
            t: Some("a".to_owned()),
            r: None,
        },
    ])
}

#[test]
fn layers_are_read_once_in_header_order_by_offset() {
    let index = sample();
    let passes = layer_passes(&index);
    assert_eq!(passes.len(), 2, "nothing references the second layer");
    assert_eq!(passes[0].layer, 0);
    assert_eq!(passes[0].positions, [1]);
    assert_eq!(passes[1].layer, 2);
    assert_eq!(passes[1].positions, [2, 0], "by ascending offset");
    let places = places_of(&index, &passes[1]);
    assert_eq!(
        places,
        [
            Placed { offset: 0, len: 4 },
            Placed { offset: 10, len: 5 }
        ]
    );
    assert!(is_ascending(&places));
}

#[test]
fn links_come_after_everything_that_writes() {
    let index = sample();
    let steps = Restorer::steps(&index, 2);
    assert_eq!(
        steps,
        [
            RestoreStep::MakeDir(0),
            RestoreStep::CreateEmpty(3),
            RestoreStep::ReadLayer(0),
            RestoreStep::ReadLayer(1),
            RestoreStep::FileMetadata(0),
            RestoreStep::FileMetadata(1),
            RestoreStep::FileMetadata(2),
            RestoreStep::FileMetadata(3),
            RestoreStep::MakeLink(0),
            RestoreStep::LinkTime(0),
            RestoreStep::DirMetadata(0),
        ]
    );
}

#[test]
fn metadata_is_never_written_through_a_link() {
    let through = metadata_to_apply(Found::Symlink, 1_500_000_000_000_000_000, 0o7777);
    assert_eq!(through.mode, None);
    assert_eq!(through.mtime_ns, None);
    let file = metadata_to_apply(Found::Other, 5, 0o6755);
    assert_eq!(file.mode, Some(0o755), "no special bit comes back");
    assert_eq!(file.mtime_ns, Some(5));
    let none = metadata_to_apply(Found::Nothing, 5, 0o644);
    assert_eq!(none.mode, None);
    assert_eq!(none.mtime_ns, None);
}

#[test]
fn times_are_split_for_the_platform() {
    assert_eq!(
        time_parts(1_600_000_000_123_456_789),
        (1_600_000_000, 123_456_789)
    );
    assert_eq!(time_parts(-1), (-1, 999_999_999));
    assert_eq!(filetime_ticks(0), 116_444_736_000_000_000);
    assert_eq!(filetime_ticks(100), 116_444_736_000_000_001);
}

#[test]
fn a_parent_must_be_a_directory() {
    assert!(check_parent("a/b", true).is_ok());
    assert!(matches!(
        check_parent("a/b", false),
        Err(RestoreError::BadParent(p)) if p == "a/b"
    ));
    assert_eq!(restoring_name("app"), "app.restoring");
}

/// An observer is told each layer that is read, with the bytes of those before it, and in the end
/// everything has been counted.
#[test]
fn a_restore_tells_of_its_layers_and_counts_them() {
    let mut restoring = Restoring::new(&sample());
    let mut told = Vec::new();
    let mut taken = 0;
    loop {
        match restoring.next() {
            RestoreAction::Done => break,
            RestoreAction::ReadLayer { pass, number, total, bytes } => {
                told.push((pass, number, total, bytes, restoring.pass(pass).layer));
                let written = if number == 1 { 3 } else { 9 };
                assert!(!restoring.accepts(written + 1));
                assert!(restoring.accepts(written));
                if number == 2 {
                    let err = restoring.layer_error(
                        RestoreError::Stream(StreamError::Seal(SealError::Unauthentic)),
                        "sha256:2",
                    );
                    assert!(matches!(
                        err,
                        RestoreError::LayerUnauthentic { number: 2, total: 2, digest }
                            if digest == "sha256:2"
                    ));
                }
                restoring.layer_read(written);
            }
            _ => {
                assert!(!restoring.accepts(0));
                restoring.took();
            }
        }
        taken += 1;
    }
    assert_eq!(told, [(0, 1, 2, 0, 0), (1, 2, 2, 3, 2)]);
    assert_eq!(taken, 11);
    assert_eq!(
        restoring.finish(),
        RestoreStats {
            files: 4,
            dirs: 1,
            symlinks: 1,
            bytes: 12,
            layers: 2,
        }
    );
}

/// The pieces that a file gets are its range, however the layer arrives.
#[test]
fn a_layer_is_scattered_to_its_files() {
    let plan = || {
        vec![
            Placed { offset: 2, len: 3 },
            Placed { offset: 5, len: 1 },
            Placed { offset: 9, len: 2 },
        ]
    };
    let layer: Vec<u8> = (0..12).collect();
    for chunk in [1usize, 2, 3, 5, 12] {
        let mut scatter = Scatter::new("sha256:x", plan());
        let mut files: Vec<Vec<u8>> = vec![Vec::new(); 3];
        let mut created = vec![0; 3];
        for bytes in layer.chunks(chunk) {
            for piece in scatter.feed(bytes.len()) {
                if piece.create {
                    created[piece.file] += 1;
                }
                files[piece.file].extend_from_slice(&bytes[piece.start..piece.end]);
            }
        }
        assert_eq!(scatter.finish().ok(), Some(6));
        assert_eq!(files, [vec![2, 3, 4], vec![5], vec![9, 10]]);
        assert_eq!(created, [1, 1, 1]);
    }
    // A layer that ends early is refused.
    let mut scatter = Scatter::new("sha256:x", plan());
    scatter.feed(10);
    assert!(matches!(
        scatter.finish(),
        Err(RestoreError::LayerShort { read: 10, needed: 11, .. })
    ));
    assert!(!is_ascending(&vec![
        Placed { offset: 5, len: 3 },
        Placed { offset: 2, len: 1 }
    ]));
}

#[test]
fn a_restored_tree_is_recorded_as_unchanged() {
    let restored = RestoredPoint::new(
        "/tmp/app.restoring".to_owned(),
        RestoreStats {
            files: 4,
            dirs: 1,
            symlinks: 1,
            bytes: 12,
            layers: 2,
        },
        sample(),
    );
    assert_eq!(restored.root(), "/tmp/app.restoring");
    assert_eq!(restored.stats().bytes, 12);
    assert_eq!(restored.index().file_count(), 4);
    let found = |path: &str, size: u64| WalkEntry {
        path: path.to_owned(),
        kind: Kind::File,
        size,
        mtime_ns: 9,
        ctime_ns: 11,
        mode: 0o600,
        target: None,
        source: path.to_owned(),
    };
    let (header, entries) = restored.seed_index(&vec![found("a", 5), found("new", 1)]);
    assert_eq!(header.app, "sys/sys/app");
    assert_eq!(header.layers.len(), 3);
    assert_eq!(entries.len(), 2);
    assert_eq!(entries[0].p, "a");
    assert_eq!(entries[0].m, 9);
    assert_eq!(entries[0].r, Some(EntryRef { l: 2, o: 10, n: 5 }));
    assert_eq!(entries[1].r, None);
}

#[test]
fn an_archive_goes_through_its_steps() {
    let index = sample();
    let mut archive = Archiver::new(&index);
    assert_eq!(archive.step(), ArchiveStep::WriteHead);
    let head = head_entries(&index);
    assert_eq!(head.len(), 2);
    assert_eq!(head[0].kind, TarKind::Directory);
    assert_eq!(head[0].path, "d");
    assert_eq!(head[0].mode, 0o755);
    assert_eq!(head[0].mtime, 5);
    assert_eq!(head[1].kind, TarKind::Regular);
    assert_eq!(head[1].path, "d/f");
    assert_eq!(head[1].mtime, 1_600_000_000);
    archive.wrote_head();
    assert_eq!(
        archive.step(),
        ArchiveStep::ReadLayer {
            pass: 0,
            number: 1,
            total: 2,
            bytes: 0
        }
    );
    assert_eq!(archive.pass(0).positions, [1]);
    assert!(archive.accepts(3, 1));
    assert!(!archive.accepts(4, 1), "more than the layer's files hold");
    assert!(!archive.accepts(3, 2), "more files than the layer has");
    archive.read_layer(3, 1);
    assert_eq!(
        archive.step(),
        ArchiveStep::ReadLayer {
            pass: 1,
            number: 2,
            total: 2,
            bytes: 3
        }
    );
    assert!(archive.accepts(9, 2));
    archive.read_layer(9, 2);
    assert!(!archive.accepts(0, 0), "every layer is read");
    assert_eq!(archive.step(), ArchiveStep::WriteLinks);
    let links = symlink_entries(&index);
    assert_eq!(links.len(), 1);
    assert_eq!(links[0].target.as_deref(), Some("a"));
    assert_eq!(links[0].mtime, 0, "a time before the epoch is the epoch");
    let stats = archive.wrote_links();
    assert_eq!(
        stats,
        ArchiveStats {
            files: 4,
            dirs: 1,
            symlinks: 1,
            bytes: 12,
            layers: 2
        }
    );
    assert_eq!(archive.step(), ArchiveStep::Finished);
    assert_eq!(stats.files as usize, index.file_count());
}

#[test]
fn a_tar_entry_has_a_mode_and_seconds() {
    assert_eq!(mode_or(0, DEFAULT_FILE_MODE), 0o644);
    assert_eq!(mode_or(0, DEFAULT_DIR_MODE), 0o755);
    assert_eq!(mode_or(0o7640, DEFAULT_FILE_MODE), 0o640);
    assert_eq!(seconds(1_999_999_999), 1);
    assert_eq!(seconds(-5), 0);
    let entry = file_header(&sample().files()[0]);
    assert_eq!(entry.path, "a");
    assert_eq!(entry.size, 5);
}

#[test]
fn a_layer_is_cut_into_files() {
    let plan = vec![Placed { offset: 2, len: 3 }, Placed { offset: 7, len: 1 }];
    let mut cutter = Cutter::new("sha256:x", plan);
    assert_eq!(cutter.action(), CutAction::Skip(2));
    cutter.skipped(2);
    assert_eq!(cutter.action(), CutAction::Append(0));
    cutter.appended(0);
    assert_eq!(cutter.action(), CutAction::Skip(2));
    cutter.skipped(2);
    assert_eq!(cutter.action(), CutAction::Append(1));
    cutter.appended(0);
    assert_eq!(cutter.action(), CutAction::Drain);
    assert_eq!(cutter.verdict(None, false).ok(), Some((4, 2)));

    // The decoder's own failure is the one that is reported.
    let mut cutter = Cutter::new("sha256:x", vec![Placed { offset: 0, len: 4 }]);
    cutter.appended(2);
    assert!(matches!(
        cutter.verdict(Some(StreamError::MissingToc), false),
        Err(RestoreError::Stream(StreamError::MissingToc))
    ));
    let mut cutter = Cutter::new("sha256:x", vec![Placed { offset: 0, len: 4 }]);
    cutter.appended(2);
    assert!(matches!(
        cutter.verdict(Some(StreamError::MissingToc), true),
        Err(RestoreError::LayerShort { .. })
    ));
}

#[test]
fn a_layers_bytes_must_hash_to_its_digest() {
    let digest = digest_bytes(b"layer");
    let bare = digest.trim_start_matches("sha256:");
    for expected in [digest.as_str(), bare] {
        let mut layer = LayerDigest::new(expected);
        layer.take(b"la");
        layer.take(b"");
        layer.take(b"yer");
        assert_eq!(layer.verdict(), Ok(()));
        let mut other = LayerDigest::new(expected);
        other.take(b"other");
        assert_eq!(
            other.verdict().expect_err("mismatch"),
            format!(
                "app data layer bytes hash to {}, the point names {digest}",
                digest_bytes(b"other")
            )
        );
    }
    assert!(LayerDigest::new(&digest).verdict().is_err(), "nothing was read");
}
