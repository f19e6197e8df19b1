use kosmora::{
    collect_physical_directory_children, ErrorKind, FailureCause, KosmoraINodeInteroperable,
    KosmoraINodeType, KosmoraImporter, PhysicalEntry, PhysicalFailure, PhysicalKind, WalkEvent,
};

fn dir(depth: usize, name: &str) -> WalkEvent {
    WalkEvent::Entry(PhysicalEntry {
        depth,
        name: name.to_string(),
        kind: PhysicalKind::Directory,
        data: Vec::new(),
    })
}

fn file(depth: usize, name: &str, data: &[u8]) -> WalkEvent {
    WalkEvent::Entry(PhysicalEntry {
        depth,
        name: name.to_string(),
        kind: PhysicalKind::File,
        data: data.to_vec(),
    })
}

fn failure(depth: usize, cause: FailureCause, detail: &str) -> WalkEvent {
    WalkEvent::Failure(PhysicalFailure { depth, cause, detail: detail.to_string() })
}

fn sample_walk() -> Vec<WalkEvent> {
    vec![
        dir(0, "project"),
        file(1, "README", b"read me"),
        dir(1, "src"),
        file(2, "main.rs", b"fn main() {}"),
        dir(2, "nested"),
        file(3, "archive.tar.gz", &[0, 159, 146, 150]),
        file(1, "Cargo.toml", b"[package]"),
        dir(1, "empty"),
    ]
}

#[test]
fn an_import_mirrors_the_walk() {
    let fs = collect_physical_directory_children(sample_walk(), 16).unwrap();
    assert_eq!(fs.len(), 8);
    assert_eq!(fs.file_count(), 4);
    let names: Vec<String> = (0..8).map(|i| fs.get(i).unwrap().name().clone()).collect();
    assert_eq!(
        names,
        vec!["project", "README", "src", "main.rs", "nested", "archive.tar.gz", "Cargo.toml", "empty"]
    );
    let parents: Vec<Option<usize>> = (0..8).map(|i| fs.parent(i)).collect();
    assert_eq!(
        parents,
        vec![None, Some(0), Some(0), Some(2), Some(2), Some(4), Some(0), Some(0)]
    );
    match fs.root().inode() {
        KosmoraINodeType::Directory(d) => assert_eq!(d.children(), &vec![1, 2, 6, 7]),
        KosmoraINodeType::File(_) => panic!("the root is a directory"),
    }
    assert_eq!(fs.read_upwards(5), vec![4, 2, 0]);
}

#[test]
fn imported_files_keep_their_bytes() {
    let fs = collect_physical_directory_children(sample_walk(), 16).unwrap();
    let expected: Vec<(usize, &[u8])> = vec![
        (1, b"read me"),
        (3, b"fn main() {}"),
        (5, &[0, 159, 146, 150]),
        (6, b"[package]"),
    ];
    for (place, bytes) in expected {
        match fs.get(place).unwrap().inode() {
            KosmoraINodeType::File(f) => {
                assert_eq!(f.data().as_slice(), bytes);
                assert_eq!(f.metadata().size(), bytes.len());
            }
            KosmoraINodeType::Directory(_) => panic!("a file was walked"),
        }
    }
}

#[test]
fn imported_files_get_their_extension_from_their_name() {
    let fs = collect_physical_directory_children(sample_walk(), 16).unwrap();
    let extension = |place: usize| match fs.get(place).unwrap().inode() {
        KosmoraINodeType::File(f) => f.metadata().extension().cloned(),
        KosmoraINodeType::Directory(_) => panic!("a file was walked"),
    };
    assert_eq!(extension(1), None);
    assert_eq!(extension(5), Some("gz".to_string()));
    assert_eq!(extension(3), Some("rs".to_string()));
}

#[test]
fn a_single_file_is_a_tree_of_one_node() {
    let fs = collect_physical_directory_children(vec![file(0, "lonely.txt", b"x")], 0).unwrap();
    assert_eq!(fs.len(), 1);
    assert!(fs.root().inode().is_file());
    assert_eq!(fs.file_count(), 1);
}

#[test]
fn a_missing_path_is_not_found() {
    let walk = vec![failure(0, FailureCause::Missing, "No such file or directory (os error 2)")];
    let e = collect_physical_directory_children(walk, 16).unwrap_err();
    assert_eq!(e.kind(), &ErrorKind::NotFound);
    let e = collect_physical_directory_children(Vec::new(), 16).unwrap_err();
    assert_eq!(e.kind(), &ErrorKind::NotFound);
    let e = KosmoraImporter::new(16).finish().unwrap_err();
    assert_eq!(e.kind(), &ErrorKind::NotFound);
}

#[test]
fn a_failure_below_the_start_is_an_io_error() {
    let walk = vec![dir(0, "d"), failure(1, FailureCause::Missing, "gone")];
    let e = collect_physical_directory_children(walk, 16).unwrap_err();
    assert_eq!(e.kind(), &ErrorKind::IoError("gone".to_string()));
    let walk = vec![dir(0, "d"), file(1, "a", b""), failure(1, FailureCause::Io, "permission denied")];
    let e = collect_physical_directory_children(walk, 16).unwrap_err();
    assert_eq!(e.kind(), &ErrorKind::IoError("permission denied".to_string()));
    assert_eq!(e.label(), "permission denied");
    let walk = vec![failure(0, FailureCause::Io, "permission denied")];
    let e = collect_physical_directory_children(walk, 16).unwrap_err();
    assert_eq!(e.kind(), &ErrorKind::IoError("permission denied".to_string()));
}

#[test]
fn a_loop_is_a_cycle() {
    let walk = vec![dir(0, "d"), failure(1, FailureCause::Loop, "loop")];
    let e = collect_physical_directory_children(walk, 16).unwrap_err();
    assert_eq!(e.kind(), &ErrorKind::CycleDetected);
}

#[test]
fn an_entry_that_lies_too_deep_is_a_cycle() {
    let walk = vec![dir(0, "a"), dir(1, "b"), dir(2, "c"), file(3, "d", b"")];
    let e = collect_physical_directory_children(walk, 2).unwrap_err();
    assert_eq!(e.kind(), &ErrorKind::CycleDetected);
    let walk = vec![dir(0, "a"), dir(1, "b"), dir(2, "c"), file(3, "d", b"")];
    assert!(collect_physical_directory_children(walk, 3).is_ok());
}

#[test]
fn what_is_neither_file_nor_directory_is_unsupported() {
    let other = WalkEvent::Entry(PhysicalEntry {
        depth: 1,
        name: "socket".to_string(),
        kind: PhysicalKind::Other,
        data: Vec::new(),
    });
    let e = collect_physical_directory_children(vec![dir(0, "d"), other], 16).unwrap_err();
    assert_eq!(e.kind(), &ErrorKind::UnsupportedPathType);
}

#[test]
fn two_entries_of_one_name_in_one_directory_are_refused() {
    let walk = vec![dir(0, "d"), file(1, "x", b"1"), dir(1, "sub"), file(1, "x", b"2")];
    let e = collect_physical_directory_children(walk, 16).unwrap_err();
    assert_eq!(e.kind(), &ErrorKind::DuplicateName);
    let walk = vec![dir(0, "d"), file(1, "x", b"1"), dir(1, "sub"), file(2, "x", b"2")];
    assert!(collect_physical_directory_children(walk, 16).is_ok());
}

#[test]
fn an_entry_without_a_directory_above_it_is_refused() {
    for walk in [
        vec![file(1, "x", b"")],
        vec![dir(0, "d"), file(2, "x", b"")],
        vec![dir(0, "d"), file(1, "x", b""), file(2, "y", b"")],
        vec![dir(0, "d"), dir(0, "e")],
        vec![file(0, "f", b""), file(1, "x", b"")],
    ] {
        let e = collect_physical_directory_children(walk, 16).unwrap_err();
        assert_eq!(e.kind(), &ErrorKind::NotFound);
    }
}

#[test]
fn a_cancelled_import_leaves_nothing() {
    let importer = KosmoraImporter::new(16);
    let importer = importer.accept(dir(0, "d")).unwrap();
    let importer = importer.accept(file(1, "x", b"")).unwrap();
    let e = importer.accept(WalkEvent::Cancelled).unwrap_err();
    assert_eq!(e.kind(), &ErrorKind::Cancelled);
}

#[test]
fn the_first_refused_event_decides() {
    let walk = vec![
        dir(0, "d"),
        failure(1, FailureCause::Io, "first"),
        failure(1, FailureCause::Loop, "second"),
    ];
    let e = collect_physical_directory_children(walk, 16).unwrap_err();
    assert_eq!(e.kind(), &ErrorKind::IoError("first".to_string()));
}

#[test]
fn events_can_be_handed_over_one_by_one() {
    let mut importer = KosmoraImporter::new(16);
    for event in sample_walk() {
        importer = importer.accept(event).unwrap();
    }
    let streamed = importer.finish().unwrap();
    let batch = collect_physical_directory_children(sample_walk(), 16).unwrap();
    assert_eq!(streamed, batch);
}

#[test]
fn a_record_of_a_walk_becomes_a_tree() {
    let fs = sample_walk().to_kosmora_inode().unwrap();
    assert_eq!(fs.len(), 8);
    let fs = sample_walk().collect_directory_children().unwrap();
    assert_eq!(fs.file_count(), 4);
    let e = vec![file(0, "lonely.txt", b"x")].collect_directory_children().unwrap_err();
    assert_eq!(e.kind(), &ErrorKind::UnsupportedPathType);
    assert!(vec![file(0, "lonely.txt", b"x")].to_kosmora_inode().is_ok());
}
