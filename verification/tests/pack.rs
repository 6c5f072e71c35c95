//! Planning layers and assigning references.

use orc_app::persist::pack::{
    assign_refs, plan_layers, planned_bytes, BuiltLayer, LayerKind, OWN_LAYER_MIN_BYTES,
    PACK_CUT_BYTES,
};
use orc_app::persist::scatter::{Placed, Scatter};
use orc_app::persist::tree::{
    Carried, EntryRef, IndexHeader, IndexWriter, Kind, LayerRef, Planned, WalkEntry,
};

fn planned_file(path: &str, len: u64, carried: Option<Carried>) -> Planned {
    Planned {
        entry: WalkEntry {
            path: path.to_owned(),
            kind: Kind::File,
            size: len,
            mtime_ns: 1,
            ctime_ns: 2,
            mode: 0o644,
            target: None,
            source: path.to_owned(),
        },
        carried,
    }
}

fn layer(digest: &str) -> LayerRef {
    LayerRef {
        digest: digest.to_owned(),
        size: 1,
    }
}

#[test]
fn small_files_pack_in_path_order_and_cut_at_the_boundary() {
    // Each file is under the own-layer threshold, and 32 of them fill a pack exactly.
    let each = PACK_CUT_BYTES / 32;
    assert!(each < OWN_LAYER_MIN_BYTES, "the files must be pack-sized");
    let planned: Vec<Planned> = (0..70)
        .map(|index| planned_file(&format!("f{index:03}"), each, None))
        .collect();
    let layers = plan_layers(&planned);
    assert_eq!(layers.len(), 3);
    assert_eq!(layers[0].files.len(), 32);
    assert_eq!(layers[0].bytes, PACK_CUT_BYTES);
    assert_eq!(layers[1].files.len(), 32);
    // The tail is emitted short.
    assert_eq!(layers[2].files.len(), 6);
    assert!(layers.iter().all(|layer| layer.kind == LayerKind::Pack));
    // Offsets tile each pack's plaintext exactly.
    for layer in &layers {
        let mut cursor = 0;
        for file in &layer.files {
            assert_eq!(file.offset, cursor);
            cursor += file.len;
        }
        assert_eq!(cursor, layer.bytes);
    }
    assert_eq!(planned_bytes(&layers), 70 * each);
}

#[test]
fn a_big_file_gets_its_own_layer_without_fragmenting_the_pack() {
    let planned = vec![
        planned_file("a", 100, None),
        planned_file("big", OWN_LAYER_MIN_BYTES, None),
        planned_file("b", 200, None),
    ];
    let layers = plan_layers(&planned);
    assert_eq!(layers.len(), 2);
    assert_eq!(layers[0].kind, LayerKind::Whole);
    assert_eq!(layers[0].files[0].path, "big");
    assert_eq!(layers[1].kind, LayerKind::Pack);
    assert_eq!(
        layers[1]
            .files
            .iter()
            .map(|file| file.path.as_str())
            .collect::<Vec<_>>(),
        ["a", "b"],
        "the small files stay in one run, in path order"
    );
    assert_eq!(layers[1].files[1].offset, 100);
}

#[test]
fn a_file_one_byte_under_the_threshold_still_packs() {
    let layers = plan_layers(&vec![planned_file("a", OWN_LAYER_MIN_BYTES - 1, None)]);
    assert_eq!(layers[0].kind, LayerKind::Pack);
}

#[test]
fn carried_files_and_non_files_are_never_planned() {
    let mut directory = planned_file("d", 0, None);
    directory.entry.kind = Kind::Dir;
    let planned = vec![
        planned_file(
            "carried",
            OWN_LAYER_MIN_BYTES * 2,
            Some(Carried {
                layer: layer("sha256:old"),
                offset: 0,
                len: OWN_LAYER_MIN_BYTES * 2,
            }),
        ),
        directory,
    ];
    assert!(plan_layers(&planned).is_empty());
}

#[test]
fn refs_carry_previous_layers_forward_in_first_reference_order() {
    let planned = vec![
        planned_file(
            "a",
            10,
            Some(Carried {
                layer: layer("sha256:old"),
                offset: 40,
                len: 10,
            }),
        ),
        planned_file("b", 20, None),
        planned_file(
            "c",
            30,
            Some(Carried {
                layer: layer("sha256:old"),
                offset: 50,
                len: 30,
            }),
        ),
    ];
    let plans = plan_layers(&planned);
    let built = vec![BuiltLayer {
        plan: plans[0].clone(),
        layer: layer("sha256:new"),
    }];
    let (layers, entries) = assign_refs(&planned, &built).expect("refs");
    assert_eq!(
        layers.iter().map(|l| l.digest.as_str()).collect::<Vec<_>>(),
        ["sha256:old", "sha256:new"],
        "the header lists layers in first-reference order"
    );
    assert_eq!(entries[0].r, Some(EntryRef { l: 0, o: 40, n: 10 }));
    assert_eq!(entries[1].r, Some(EntryRef { l: 1, o: 0, n: 20 }));
    assert_eq!(entries[2].r, Some(EntryRef { l: 0, o: 50, n: 30 }));
}

#[test]
fn a_layer_nothing_references_is_dropped_and_a_converged_one_appears_once() {
    let planned = vec![
        planned_file(
            "a",
            10,
            Some(Carried {
                layer: layer("sha256:same"),
                offset: 0,
                len: 10,
            }),
        ),
        planned_file("b", 20, None),
    ];
    // The freshly sealed pack converged with the layer `a` already lives in.
    let built = vec![BuiltLayer {
        plan: plan_layers(&planned)[0].clone(),
        layer: layer("sha256:same"),
    }];
    let (layers, entries) = assign_refs(&planned, &built).expect("refs");
    assert_eq!(layers.len(), 1);
    assert_eq!(entries[1].r.expect("ref").l, 0);
}

#[test]
fn a_changed_file_in_no_built_layer_is_a_planning_error() {
    let planned = vec![planned_file("a", 10, None)];
    let err = assign_refs(&planned, &vec![]).expect_err("refused");
    assert!(err.message().contains("planned into no layer"), "{err:?}");
}

#[test]
fn directories_and_symlinks_carry_no_reference() {
    let mut directory = planned_file("d", 0, None);
    directory.entry.kind = Kind::Dir;
    let mut link = planned_file("l", 0, None);
    link.entry.kind = Kind::Symlink;
    link.entry.target = Some("d".to_owned());
    let planned = vec![directory, link];
    let (layers, entries) = assign_refs(&planned, &vec![]).expect("refs");
    assert!(layers.is_empty());
    assert!(entries.iter().all(|entry| entry.r.is_none()));
    assert_eq!(entries[1].t.as_deref(), Some("d"));
}

#[test]
fn a_packed_file_is_read_back() {
    let contents: Vec<Vec<u8>> = vec![b"first".to_vec(), Vec::new(), b"second one".to_vec(), b"3".to_vec()];
    let planned: Vec<Planned> = contents
        .iter()
        .enumerate()
        .map(|(index, bytes)| planned_file(&format!("f{index}"), bytes.len() as u64, None))
        .collect();
    let layers = plan_layers(&planned);
    assert_eq!(layers.len(), 1);
    let plaintext: Vec<u8> = layers[0]
        .files
        .iter()
        .flat_map(|file| contents[file.path[1..].parse::<usize>().expect("number")].clone())
        .collect();
    assert_eq!(plaintext.len() as u64, layers[0].bytes);
    let places: Vec<Placed> = layers[0]
        .files
        .iter()
        .map(|file| Placed { offset: file.offset, len: file.len })
        .collect();
    let mut scatter = Scatter::new("sha256:layer", places);
    let mut read: Vec<Vec<u8>> = vec![Vec::new(); layers[0].files.len()];
    for part in plaintext.chunks(4) {
        for piece in scatter.feed(part.len()) {
            read[piece.file].extend_from_slice(&part[piece.start..piece.end]);
        }
    }
    assert_eq!(scatter.finish().expect("complete"), layers[0].bytes);
    for (file, bytes) in layers[0].files.iter().zip(read) {
        assert_eq!(bytes, contents[file.path[1..].parse::<usize>().expect("number")]);
    }
}

#[test]
fn assigned_entries_can_be_written() {
    let mut directory = planned_file("d", 0, None);
    directory.entry.kind = Kind::Dir;
    let planned = vec![planned_file("a", 10, None), directory, planned_file("d/b", 20, None)];
    let built = vec![BuiltLayer {
        plan: plan_layers(&planned)[0].clone(),
        layer: layer("sha256:new"),
    }];
    let (layers, entries) = assign_refs(&planned, &built).expect("refs");
    let header = IndexHeader { v: 1, app: "app".to_owned(), created_at: 0, layers };
    let mut writer = IndexWriter::new(&header, b"h");
    for entry in &entries {
        writer.push(entry, entry.p.as_bytes()).expect("in order");
    }
    assert_eq!(writer.finish(), (b"h\na\nd\nd/b\n".to_vec(), 3));
}

/// Only the last layer may be a pack short of the cut, and the layers carry every changed byte.
#[test]
fn the_layers_carry_the_changed_bytes() {
    let carried = Carried { layer: layer("sha256:old"), offset: 0, len: 9 };
    let mut planned = vec![planned_file("0", 9, Some(carried))];
    for n in 1u64..60 {
        let len = if n % 7 == 0 { OWN_LAYER_MIN_BYTES + n } else { (n * 991_337) % OWN_LAYER_MIN_BYTES };
        planned.push(planned_file(&format!("{n:02}"), len, None));
    }
    let layers = plan_layers(&planned);
    let (last, closed) = layers.split_last().expect("layers");
    assert!(closed.iter().any(|layer| layer.kind == LayerKind::Pack));
    for layer in closed {
        assert!(layer.kind == LayerKind::Whole || layer.bytes >= PACK_CUT_BYTES);
    }
    assert_eq!(last.kind, LayerKind::Pack);
    let changed: u64 = planned.iter().skip(1).map(|item| item.entry.size).sum();
    assert_eq!(planned_bytes(&layers), changed);
}

/// The header lists the layers in the order in which the entries first reference them.
#[test]
fn layers_are_listed_as_they_are_first_referenced() {
    let carried = |digest: &str| {
        Some(Carried { layer: layer(digest), offset: 0, len: 1 })
    };
    let planned = vec![
        planned_file("a", 1, carried("sha256:b")),
        planned_file("b", 1, carried("sha256:a")),
        planned_file("c", 1, carried("sha256:b")),
        planned_file("d", 1, carried("sha256:c")),
    ];
    let (layers, entries) = assign_refs(&planned, &Vec::new()).expect("refs");
    let digests: Vec<&str> = layers.iter().map(|layer| layer.digest.as_str()).collect();
    assert_eq!(digests, ["sha256:b", "sha256:a", "sha256:c"]);
    let numbers: Vec<u32> = entries.iter().filter_map(|entry| entry.r).map(|r| r.l).collect();
    assert_eq!(numbers, [0, 1, 0, 2]);
}
