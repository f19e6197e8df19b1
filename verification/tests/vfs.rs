use kosmora::{
    collect_physical_directory_children, ErrorKind, KosmoraFs, KosmoraINodeType,
    KosmoraPackageBuilder, KosmoraPathBuf, KosmoraVfs, MountSource, PhysicalEntry, PhysicalKind,
    WalkEvent,
};

fn dir(depth: usize, name: &str) -> WalkEvent {
    WalkEvent::Entry(PhysicalEntry {
        depth,
        name: name.to_string(),
        kind: PhysicalKind::Directory,
        data: Vec::new(),
    })
}

fn file(depth: usize, name: &str, data: &[u8]) -> WalkEvent {
    WalkEvent::Entry(PhysicalEntry {
        depth,
        name: name.to_string(),
        kind: PhysicalKind::File,
        data: data.to_vec(),
    })
}

fn target_tree() -> KosmoraFs {
    let walk = vec![dir(0, "target"), dir(1, "debug"), file(2, "app", b"\x7fELF"), file(1, "log", b"ok")];
    collect_physical_directory_children(walk, 8).unwrap()
}

fn names(list: &[&str]) -> Vec<String> {
    list.iter().map(|s| s.to_string()).collect()
}

#[test]
fn create_fs() {
    let mut vfs = KosmoraVfs::new();
    vfs.add_directory("./target", "/target").unwrap();
    let finalizer = vfs.take_staged().begin("".to_string()).unwrap();
    let fs = finalizer.mount(Some(target_tree())).unwrap().finish().unwrap();
    let id = vfs.add_package(fs).unwrap();
    assert_eq!(id, 0);
    assert_eq!(vfs.len(), 1);
    let package = vfs.package(id).unwrap();
    assert_eq!(package.id(), 0);
    let target = package.root().get_child(0, "target").unwrap();
    let debug = package.root().get_child(target, "debug").unwrap();
    assert!(package.root().get_child(debug, "app").is_some());
    assert!(vfs.package(1).is_none());
}

#[test]
fn navigation_is_resolved_on_request() {
    let resolve = |s: &str| KosmoraPathBuf::from_str(s).unwrap().resolve();
    assert_eq!(resolve("/a/./b/../c"), names(&["a", "c"]));
    assert_eq!(resolve("a/b/../../.."), Vec::<String>::new());
    assert_eq!(resolve("../a"), names(&["a"]));
    assert_eq!(resolve("/"), Vec::<String>::new());
    assert_eq!(resolve("x//y/"), names(&["x", "y"]));
}

#[test]
fn staging_records_and_touches_nothing() {
    let mut builder = KosmoraPackageBuilder::new();
    builder.stage_new_directory("/docs").unwrap();
    builder.stage_add_directory("./target", "/bin/./target").unwrap();
    builder.stage_add_file("/etc/hosts", "etc/hosts").unwrap();
    let staged = builder.staged();
    assert_eq!(staged.len(), 3);
    assert_eq!(staged[0].source(), &MountSource::NewDirectory);
    assert_eq!(staged[0].target(), &names(&["docs"]));
    assert_eq!(staged[1].source(), &MountSource::Directory("./target".to_string()));
    assert_eq!(staged[1].target(), &names(&["bin", "target"]));
    assert_eq!(staged[2].source(), &MountSource::File("/etc/hosts".to_string()));
    assert_eq!(staged[2].target(), &names(&["etc", "hosts"]));
}

#[test]
fn a_forbidden_character_is_refused_at_staging() {
    let mut builder = KosmoraPackageBuilder::new();
    builder.stage_new_directory("/docs").unwrap();
    let e = builder.stage_add_file("C:/x", "/a|b").unwrap_err();
    assert_eq!(e.kind(), &ErrorKind::InvalidPath(vec!['|']));
    assert_eq!(builder.staged().len(), 1);
}

#[test]
fn the_last_staged_operation_wins() {
    let mut builder = KosmoraPackageBuilder::new();
    builder.stage_add_file("one", "/a/x").unwrap();
    builder.stage_new_directory("/b").unwrap();
    builder.stage_add_file("two", "/a/./x").unwrap();
    let staged = builder.staged();
    assert_eq!(staged.len(), 2);
    assert_eq!(staged[0].target(), &names(&["b"]));
    assert_eq!(staged[1].source(), &MountSource::File("two".to_string()));
    assert_eq!(staged[1].target(), &names(&["a", "x"]));
}

#[test]
fn a_place_below_a_staged_file_is_a_collision() {
    let mut builder = KosmoraPackageBuilder::new();
    builder.stage_add_file("one", "/a").unwrap();
    builder.stage_new_directory("/b").unwrap();
    assert!(!builder.conflicts());
    builder.stage_add_directory("two", "/a/below").unwrap();
    assert!(builder.conflicts());
    let e = builder.begin("".to_string()).unwrap_err();
    assert_eq!(e.kind(), &ErrorKind::DuplicateName);

    let mut builder = KosmoraPackageBuilder::new();
    builder.stage_new_directory("/a/below/deeper").unwrap();
    builder.stage_add_file("one", "/a").unwrap();
    assert!(builder.conflicts());

    let mut builder = KosmoraPackageBuilder::new();
    builder.stage_add_directory("one", "/a").unwrap();
    builder.stage_add_file("two", "/a/below").unwrap();
    builder.stage_add_file("three", "/ab").unwrap();
    assert!(!builder.conflicts());
}

#[test]
fn mount_points_are_done_in_their_order() {
    let mut builder = KosmoraPackageBuilder::new();
    builder.stage_new_directory("/docs/api").unwrap();
    builder.stage_add_directory("./target", "/build/out").unwrap();
    builder.stage_add_file("./LICENSE", "/docs/LICENSE.txt").unwrap();
    let finalizer = builder.begin("pkg".to_string()).unwrap();

    assert_eq!(finalizer.next_mount().unwrap().source(), &MountSource::NewDirectory);
    let finalizer = finalizer.mount(None).unwrap();
    assert_eq!(
        finalizer.next_mount().unwrap().source(),
        &MountSource::Directory("./target".to_string())
    );
    let finalizer = finalizer.mount(Some(target_tree())).unwrap();
    assert_eq!(finalizer.next_mount().unwrap().target(), &names(&["docs", "LICENSE.txt"]));
    let license = collect_physical_directory_children(vec![file(0, "LICENSE", b"MIT")], 8).unwrap();
    let finalizer = finalizer.mount(Some(license)).unwrap();
    assert!(finalizer.next_mount().is_none());
    let fs = finalizer.finish().unwrap();

    assert_eq!(fs.root().name(), "pkg");
    let docs = fs.get_child(0, "docs").unwrap();
    assert!(fs.get_child(docs, "api").is_some());
    let build = fs.get_child(0, "build").unwrap();
    let out = fs.get_child(build, "out").unwrap();
    assert!(fs.get_child(out, "log").is_some());
    assert_eq!(fs.get_child(build, "target"), None);
    let license = fs.get_child(docs, "LICENSE.txt").unwrap();
    match fs.get(license).unwrap().inode() {
        KosmoraINodeType::File(f) => {
            assert_eq!(f.data(), &b"MIT".to_vec());
            assert_eq!(f.metadata().extension().unwrap(), "txt");
        }
        KosmoraINodeType::Directory(_) => panic!("the licence is a file"),
    }
    assert_eq!(fs.file_count(), 3);
}

#[test]
fn a_mount_point_needs_what_it_asks_for() {
    let stage = |physical_is_file: bool| {
        let mut builder = KosmoraPackageBuilder::new();
        if physical_is_file {
            builder.stage_add_file("p", "/a").unwrap();
        } else {
            builder.stage_add_directory("p", "/a").unwrap();
        }
        builder.begin("".to_string()).unwrap()
    };
    let single = || collect_physical_directory_children(vec![file(0, "f", b"")], 8).unwrap();

    assert_eq!(stage(true).mount(None).unwrap_err().kind(), &ErrorKind::NotFound);
    assert_eq!(
        stage(true).mount(Some(target_tree())).unwrap_err().kind(),
        &ErrorKind::UnsupportedPathType
    );
    assert_eq!(
        stage(false).mount(Some(single())).unwrap_err().kind(),
        &ErrorKind::UnsupportedPathType
    );
    assert!(stage(true).mount(Some(single())).is_ok());
    assert!(stage(false).mount(Some(target_tree())).is_ok());
}

#[test]
fn the_root_cannot_be_mounted_over() {
    let mut builder = KosmoraPackageBuilder::new();
    builder.stage_add_directory("p", "/").unwrap();
    let e = builder.begin("".to_string()).unwrap().mount(Some(target_tree())).unwrap_err();
    assert_eq!(e.kind(), &ErrorKind::DuplicateName);
}

#[test]
fn a_taken_place_is_a_collision() {
    let mut builder = KosmoraPackageBuilder::new();
    builder.stage_add_directory("p", "/a/target").unwrap();
    builder.stage_add_file("q", "/a/target/log").unwrap();
    let finalizer = builder.begin("".to_string()).unwrap().mount(Some(target_tree())).unwrap();
    let single = collect_physical_directory_children(vec![file(0, "f", b"")], 8).unwrap();
    let e = finalizer.mount(Some(single)).unwrap_err();
    assert_eq!(e.kind(), &ErrorKind::DuplicateName);
}

#[test]
fn finishing_early_calls_the_package_off() {
    let mut builder = KosmoraPackageBuilder::new();
    builder.stage_new_directory("/a").unwrap();
    let finalizer = builder.begin("".to_string()).unwrap();
    assert_eq!(finalizer.finish().unwrap_err().kind(), &ErrorKind::Cancelled);
    let finalizer = KosmoraPackageBuilder::new().begin("".to_string()).unwrap();
    assert_eq!(finalizer.mount(None).unwrap_err().kind(), &ErrorKind::NotFound);
    let fs = KosmoraPackageBuilder::new().begin("only".to_string()).unwrap().finish().unwrap();
    assert_eq!(fs.len(), 1);
}

#[test]
fn a_namespace_stages_for_its_next_package() {
    let mut vfs = KosmoraVfs::new();
    vfs.create_directory("/empty").unwrap();
    vfs.add_file("./a.txt", "/files/a.txt").unwrap();
    assert!(vfs.add_directory("./x", "/bad?").is_err());
    let staged = vfs.take_staged();
    assert_eq!(staged.staged().len(), 2);
    assert_eq!(vfs.take_staged().staged().len(), 0);
    let first = vfs.add_package(target_tree()).unwrap();
    let second = vfs.add_package(target_tree()).unwrap();
    assert_eq!((first, second), (0, 1));
    assert_eq!(vfs.package(second).unwrap().id(), 1);
    let single = collect_physical_directory_children(vec![file(0, "f", b"")], 8).unwrap();
    assert_eq!(vfs.add_package(single).unwrap_err().kind(), &ErrorKind::UnsupportedPathType);
    assert_eq!(vfs.len(), 2);
}

#[test]
fn a_package_is_finalized_in_one_go() {
    let mut builder = KosmoraPackageBuilder::new();
    builder.stage_new_directory("/docs").unwrap();
    builder.stage_add_directory("./target", "/build").unwrap();
    builder.stage_new_directory("/docs/api").unwrap();
    let fs = builder.finalize("pkg".to_string(), vec![None, Some(target_tree())]).unwrap();
    let docs = fs.get_child(0, "docs").unwrap();
    assert!(fs.get_child(docs, "api").is_some());
    let build = fs.get_child(0, "build").unwrap();
    assert!(fs.get_child(build, "debug").is_some());
    assert_eq!(fs.file_count(), 2);

    let mut builder = KosmoraPackageBuilder::new();
    builder.stage_add_directory("./target", "/build").unwrap();
    let e = builder.finalize("pkg".to_string(), Vec::new()).unwrap_err();
    assert_eq!(e.kind(), &ErrorKind::NotFound);

    let mut builder = KosmoraPackageBuilder::new();
    builder.stage_add_file("f", "/a").unwrap();
    builder.stage_new_directory("/a/b").unwrap();
    let e = builder.finalize("pkg".to_string(), Vec::new()).unwrap_err();
    assert_eq!(e.kind(), &ErrorKind::DuplicateName);
}
