use kosmora::{
    create_kosmora_directory, create_kosmora_file, ErrorKind, KosmoraDirectory, KosmoraFile,
    KosmoraFileMetadata, KosmoraFsBuilder, KosmoraINodeType,
};

fn file(name: &str, content: &[u8]) -> KosmoraFile {
    KosmoraFile::with_content(name.to_string(), content.to_vec())
}

#[test]
fn a_name_without_a_dot_has_no_extension() {
    let metadata = KosmoraFileMetadata::new("README".to_string(), 12);
    assert_eq!(metadata.name(), "README");
    assert_eq!(metadata.extension(), None);
    assert_eq!(metadata.size(), 12);
}

#[test]
fn the_extension_follows_the_last_dot() {
    let metadata = KosmoraFileMetadata::new("archive.tar.gz".to_string(), 0);
    assert_eq!(metadata.extension(), Some(&"gz".to_string()));
    assert_eq!(KosmoraFileMetadata::new(".bashrc".to_string(), 0).extension().unwrap(), "bashrc");
    assert_eq!(KosmoraFileMetadata::new("trailing.".to_string(), 0).extension().unwrap(), "");
    assert_eq!(KosmoraFileMetadata::new("a.b".to_string(), 0).extension().unwrap(), "b");
    assert_eq!(KosmoraFileMetadata::new("".to_string(), 0).extension(), None);
}

#[test]
fn a_file_is_as_long_as_its_content() {
    let f = file("notes.txt", b"hello");
    assert_eq!(f.metadata().size(), 5);
    assert_eq!(f.metadata().name(), "notes.txt");
    assert_eq!(f.metadata().extension().unwrap(), "txt");
    assert_eq!(f.data(), &b"hello".to_vec());
    let g = KosmoraFile::new(KosmoraFileMetadata::new("notes.txt".to_string(), 5), b"hello".to_vec());
    assert_eq!(f, g);
    assert_eq!(g.into_data(), b"hello".to_vec());
}

#[test]
fn nodes_are_made_from_their_parts() {
    let f = create_kosmora_file("a.rs".to_string(), Some(3), vec![1, 2, 3]);
    assert_eq!(f.parent(), Some(3));
    assert_eq!(f.name(), "a.rs");
    assert!(f.inode().is_file());
    assert!(!f.inode().is_directory());
    assert_eq!(f.inode().to_string(), "File");
    match f.into_inode() {
        KosmoraINodeType::File(file) => assert_eq!(file.metadata().size(), 3),
        KosmoraINodeType::Directory(_) => panic!("a file was made"),
    }

    let d = create_kosmora_directory("src".to_string(), None, vec![1, 2]);
    assert_eq!(d.parent(), None);
    assert_eq!(d.name(), "src");
    assert!(d.inode().is_directory());
    assert_eq!(d.inode().to_string(), "Directory");
    match d.inode() {
        KosmoraINodeType::Directory(directory) => assert_eq!(directory.children(), &vec![1, 2]),
        KosmoraINodeType::File(_) => panic!("a directory was made"),
    }
    let plain = KosmoraDirectory::new("x".to_string(), vec![7]);
    assert_eq!(plain.children(), &vec![7]);
    assert_eq!(plain.into_name(), "x");
}

#[test]
fn a_second_child_of_the_same_name_is_refused() {
    let mut builder = KosmoraFsBuilder::new();
    let root = builder.add_directory(None, "root".to_string()).unwrap();
    assert_eq!(root, 0);
    assert_eq!(builder.add_file(Some(root), file("x", b"1")).unwrap(), 1);
    let e = builder.add_file(Some(root), file("x", b"2")).unwrap_err();
    assert_eq!(e.kind(), &ErrorKind::DuplicateName);
    let e = builder.add_directory(Some(root), "x".to_string()).unwrap_err();
    assert_eq!(e.kind(), &ErrorKind::DuplicateName);
    assert_eq!(builder.len(), 2);
    assert_eq!(builder.add_file(Some(root), file("y", b"2")).unwrap(), 2);
    let fs = builder.build().unwrap();
    assert_eq!(fs.len(), 3);
    assert_eq!(fs.file_count(), 2);
}

#[test]
fn the_same_name_may_stand_in_two_directories() {
    let mut builder = KosmoraFsBuilder::new();
    builder.add_directory(None, "root".to_string()).unwrap();
    let a = builder.add_directory(Some(0), "a".to_string()).unwrap();
    let b = builder.add_directory(Some(0), "b".to_string()).unwrap();
    assert!(builder.add_file(Some(a), file("x", b"")).is_ok());
    assert!(builder.add_file(Some(b), file("x", b"")).is_ok());
    assert_eq!(builder.get_child(a, "x"), Some(3));
    assert_eq!(builder.get_child(b, "x"), Some(4));
}

#[test]
fn a_parent_must_be_a_directory_that_is_there() {
    let mut builder = KosmoraFsBuilder::new();
    let e = builder.add_file(Some(0), file("x", b"")).unwrap_err();
    assert_eq!(e.kind(), &ErrorKind::NotFound);
    builder.add_directory(None, "root".to_string()).unwrap();
    let x = builder.add_file(Some(0), file("x", b"")).unwrap();
    let e = builder.add_file(Some(x), file("y", b"")).unwrap_err();
    assert_eq!(e.kind(), &ErrorKind::UnsupportedPathType);
    let e = builder.add_file(Some(9), file("y", b"")).unwrap_err();
    assert_eq!(e.kind(), &ErrorKind::NotFound);
    let e = builder.add_directory(None, "other".to_string()).unwrap_err();
    assert_eq!(e.kind(), &ErrorKind::DuplicateName);
}

#[test]
fn a_builder_without_nodes_builds_nothing() {
    let e = KosmoraFsBuilder::new().build().unwrap_err();
    assert_eq!(e.kind(), &ErrorKind::NotFound);
}

#[test]
fn a_tree_answers_for_its_nodes() {
    let mut builder = KosmoraFsBuilder::new();
    builder.add_directory(None, "root".to_string()).unwrap();
    let docs = builder.add_directory(Some(0), "docs".to_string()).unwrap();
    let readme = builder.add_file(Some(docs), file("README", b"read me")).unwrap();
    let deep = builder.add_directory(Some(docs), "deep".to_string()).unwrap();
    let leaf = builder.add_file(Some(deep), file("leaf.txt", b"")).unwrap();
    let fs = builder.build().unwrap();

    assert_eq!(fs.root().name(), "root");
    assert_eq!(fs.root().parent(), None);
    assert_eq!(fs.get_child(0, "docs"), Some(docs));
    assert_eq!(fs.get_child(0, "README"), None);
    assert_eq!(fs.get_child(docs, "README"), Some(readme));
    assert_eq!(fs.get_child(readme, "README"), None);
    assert_eq!(fs.get_child(99, "README"), None);
    assert_eq!(fs.parent(leaf), Some(deep));
    assert_eq!(fs.parent(0), None);
    assert_eq!(fs.parent(99), None);
    assert_eq!(fs.read_upwards(leaf), vec![deep, docs, 0]);
    assert_eq!(fs.read_upwards(0), Vec::<usize>::new());
    assert_eq!(fs.read_upwards(99), Vec::<usize>::new());
    assert!(fs.get(5).is_none());
    match fs.get(readme).unwrap().inode() {
        KosmoraINodeType::File(f) => {
            assert_eq!(f.data(), &b"read me".to_vec());
            assert_eq!(f.metadata().extension(), None);
        }
        KosmoraINodeType::Directory(_) => panic!("README is a file"),
    }
    match fs.get(docs).unwrap().inode() {
        KosmoraINodeType::Directory(d) => assert_eq!(d.children(), &vec![readme, deep]),
        KosmoraINodeType::File(_) => panic!("docs is a directory"),
    }
    assert_eq!(fs.file_count(), 2);
}

#[test]
fn directories_are_opened_once() {
    let mut builder = KosmoraFsBuilder::new();
    builder.add_directory(None, "root".to_string()).unwrap();
    let (builder, a) = builder.open_directory(0, "a".to_string()).unwrap();
    let (builder, again) = builder.open_directory(0, "a".to_string()).unwrap();
    assert_eq!(a, again);
    let (mut builder, c) =
        builder.open_directories(0, vec!["a".to_string(), "b".to_string(), "c".to_string()]).unwrap();
    assert_eq!(c, 3);
    assert_eq!(builder.len(), 4);
    builder.add_file(Some(c), file("f", b"")).unwrap();
    let e = builder.open_directories(0, vec!["a".to_string(), "b".to_string(), "c".to_string(), "f".to_string(), "g".to_string()]).unwrap_err();
    assert_eq!(e.kind(), &ErrorKind::DuplicateName);
}

#[test]
fn a_tree_is_grafted_below_a_directory() {
    let mut sub = KosmoraFsBuilder::new();
    sub.add_directory(None, "target".to_string()).unwrap();
    sub.add_file(Some(0), file("a.bin", b"abc")).unwrap();
    let inner = sub.add_directory(Some(0), "inner".to_string()).unwrap();
    sub.add_file(Some(inner), file("b.bin", b"de")).unwrap();
    let sub = sub.build().unwrap();

    let mut builder = KosmoraFsBuilder::new();
    builder.add_directory(None, "".to_string()).unwrap();
    builder.add_file(Some(0), file("first", b"")).unwrap();
    let fs = builder.graft(0, "assets".to_string(), sub).unwrap().build().unwrap();

    assert_eq!(fs.len(), 6);
    let assets = fs.get_child(0, "assets").unwrap();
    assert_eq!(assets, 2);
    assert_eq!(fs.get_child(0, "target"), None);
    assert_eq!(fs.get_child(assets, "a.bin"), Some(3));
    let inner = fs.get_child(assets, "inner").unwrap();
    let b = fs.get_child(inner, "b.bin").unwrap();
    assert_eq!(fs.read_upwards(b), vec![inner, assets, 0]);
    match fs.get(b).unwrap().inode() {
        KosmoraINodeType::File(f) => assert_eq!(f.data(), &b"de".to_vec()),
        KosmoraINodeType::Directory(_) => panic!("b.bin is a file"),
    }
    assert_eq!(fs.file_count(), 3);
}

#[test]
fn a_graft_takes_the_name_that_it_is_given() {
    let mut sub = KosmoraFsBuilder::new();
    sub.add_file(None, file("physical.txt", b"xyz")).unwrap();
    let sub = sub.build().unwrap();
    let mut builder = KosmoraFsBuilder::new();
    builder.add_directory(None, "".to_string()).unwrap();
    builder.add_file(Some(0), file("taken", b"")).unwrap();
    let builder = builder.graft(0, "virtual.md".to_string(), sub).unwrap();
    let fs = builder.build().unwrap();
    let place = fs.get_child(0, "virtual.md").unwrap();
    match fs.get(place).unwrap().inode() {
        KosmoraINodeType::File(f) => {
            assert_eq!(f.metadata().extension().unwrap(), "md");
            assert_eq!(f.data(), &b"xyz".to_vec());
        }
        KosmoraINodeType::Directory(_) => panic!("a file was grafted"),
    }

    let mut sub = KosmoraFsBuilder::new();
    sub.add_file(None, file("other", b"")).unwrap();
    let mut builder = KosmoraFsBuilder::new();
    builder.add_directory(None, "".to_string()).unwrap();
    builder.add_file(Some(0), file("taken", b"")).unwrap();
    let e = builder.graft(0, "taken".to_string(), sub.build().unwrap()).unwrap_err();
    assert_eq!(e.kind(), &ErrorKind::DuplicateName);
}
