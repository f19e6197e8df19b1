use kosmora::{format_path_components, ErrorKind, KosmoraPathBuf, PathComponent};

#[test]
fn test_absolute_path_components() {
    let path = match KosmoraPathBuf::from_str("/usr/bin") {
        Ok(path) => path,
        Err(e) => panic!("{}", e.to_string()),
    };
    let expected_components = vec![
        PathComponent::Root,
        PathComponent::Ident("usr".to_string()),
        PathComponent::Ident("bin".to_string()),
    ];
    println!("{}", path.to_string());
    assert!(path.is_absolute());
    assert_eq!(path.components(), &expected_components);
}

#[test]
fn test_relative_path_components() {
    let path = match KosmoraPathBuf::from_str("folder/subfolder") {
        Ok(path) => path,
        Err(e) => panic!("{}", e.to_string()),
    };
    let expected_components = vec![
        PathComponent::Ident("folder".to_string()),
        PathComponent::Ident("subfolder".to_string()),
    ];
    assert!(!path.is_absolute());
    assert_eq!(path.components(), &expected_components);
}

#[test]
fn test_special_path_components() {
    match KosmoraPathBuf::from_str("folder/./subfolder/../file.txt") {
        Ok(path) => {
            let expected_components = vec![
                PathComponent::Ident("folder".to_string()),
                PathComponent::Current,
                PathComponent::Ident("subfolder".to_string()),
                PathComponent::Parent,
                PathComponent::Ident("file.txt".to_string()),
            ];
            assert!(!path.is_absolute());
            assert_eq!(path.components(), &expected_components);
        }
        Err(e) => {
            panic!("{}", e.to_string())
        }
    }
}

#[test]
fn test_path_output() {
    let input = "folder/./subfolder/../file.txt";
    let path = match KosmoraPathBuf::from_str(input) {
        Ok(path) => path,
        Err(e) => panic!("{}", e.to_string()),
    };
    let output = path.to_string();
    assert_eq!(input, output);
}

#[test]
fn test_invalid_path() {
    let input = "C:\\folder/./subfolder/../file.txt";
    match KosmoraPathBuf::from_str(input) {
        Ok(path) => {
            panic!("Expected an error but got path: {}", path.to_string());
        }
        Err(e) => {
            println!("{}", e.to_string());
            println!("You passed, congratulations")
        }
    }
}

#[test]
fn invalid_path_reports_the_colon() {
    let e = KosmoraPathBuf::from_str("C:\\folder/./subfolder/../file.txt").unwrap_err();
    assert_eq!(e.kind(), &ErrorKind::InvalidPath(vec![':']));
    assert_eq!(e.label(), "The inputted path contains invalid characters");
    assert_eq!(e.message().unwrap(), "Invalid characters found: [':']");
    assert!(e.source().is_none());
}

#[test]
fn invalid_path_reports_every_forbidden_character_once() {
    let e = KosmoraPathBuf::from_str("a*b/c?d:e*f|<>\"x:").unwrap_err();
    assert_eq!(e.kind(), &ErrorKind::InvalidPath(vec!['*', '?', ':', '|', '<', '>', '"']));
    assert_eq!(
        e.message().unwrap(),
        "Invalid characters found: ['*', '?', ':', '|', '<', '>', '\"']"
    );
}

#[test]
fn separators_are_never_reported() {
    let path = KosmoraPathBuf::from_str("a\\b/c").unwrap();
    let expected = vec![
        PathComponent::Ident("a".to_string()),
        PathComponent::Ident("b".to_string()),
        PathComponent::Ident("c".to_string()),
    ];
    assert_eq!(path.components(), &expected);
    assert_eq!(path.to_string(), "a/b/c");
}

#[test]
fn navigation_is_not_resolved() {
    let path = KosmoraPathBuf::from_str("folder/./subfolder/../file.txt").unwrap();
    assert_ne!(path.to_string(), "folder/file.txt");
    assert_eq!(path.components().len(), 5);
}

#[test]
fn round_trip_of_plain_paths() {
    for input in ["a", "a/b", "a/./b", "../a", "./a/../b.txt", "/usr/bin", "/a", "x.y/z"] {
        let path = KosmoraPathBuf::from_str(input).unwrap();
        assert_eq!(path.to_string(), input);
    }
}

#[test]
fn navigation_at_the_end_keeps_its_slash() {
    assert_eq!(KosmoraPathBuf::from_str("a/..").unwrap().to_string(), "a/../");
    assert_eq!(KosmoraPathBuf::from_str(".").unwrap().to_string(), "./");
}

#[test]
fn empty_segments_are_skipped() {
    let path = KosmoraPathBuf::from_str("a//b/").unwrap();
    let expected =
        vec![PathComponent::Ident("a".to_string()), PathComponent::Ident("b".to_string())];
    assert!(!path.is_absolute());
    assert_eq!(path.components(), &expected);
    assert_eq!(path.to_string(), "a/b");
}

#[test]
fn absolute_paths_begin_with_the_only_root() {
    for input in ["/", "/a", "//a//b", "\\a", "/./.."] {
        let path = KosmoraPathBuf::from_str(input).unwrap();
        assert!(path.is_absolute());
        assert_eq!(path.components()[0], PathComponent::Root);
        assert!(path.components().iter().skip(1).all(|c| *c != PathComponent::Root));
    }
}

#[test]
fn the_empty_string_has_one_empty_segment() {
    let path = KosmoraPathBuf::from_str("").unwrap();
    assert!(path.is_absolute());
    assert_eq!(path.components(), &vec![PathComponent::Root]);
    assert_eq!(path.to_string(), "/");
}

#[test]
fn a_new_path_is_relative_and_empty() {
    let path = KosmoraPathBuf::new();
    assert!(!path.is_absolute());
    assert!(path.components().is_empty());
    assert_eq!(path.to_string(), "");
    assert_eq!(path, KosmoraPathBuf::default());
}

#[test]
fn a_borrowed_path_renders_like_its_owner() {
    let path = KosmoraPathBuf::from_str("/usr/./bin").unwrap();
    let borrowed = path.as_kpath();
    assert_eq!(borrowed.to_string(), "/usr/./bin");
    assert_eq!(&*borrowed, &path);
    assert!(borrowed.is_absolute());
    assert_eq!(borrowed.components().len(), 4);
}

#[test]
fn components_render_with_their_slashes() {
    let components = vec![
        PathComponent::Root,
        PathComponent::Parent,
        PathComponent::Current,
        PathComponent::Ident("a".to_string()),
        PathComponent::Ident("b".to_string()),
    ];
    assert_eq!(format_path_components(&components), "/.././a/b");
    assert_eq!(format_path_components(&vec![PathComponent::<String>::Parent]), "../");
    assert_eq!(format_path_components(&Vec::<PathComponent<String>>::new()), "");
}

#[test]
fn a_path_converts_to_a_host_path() {
    let path = KosmoraPathBuf::from_str("folder\\file.txt").unwrap();
    let host: std::path::PathBuf = path.into();
    assert_eq!(host, std::path::PathBuf::from("folder/file.txt"));
}
