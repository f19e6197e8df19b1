use kosmora::{Error, ErrorKind};

#[test]
fn a_fresh_error_is_labelled_after_its_kind() {
    let e = Error::new(ErrorKind::InvalidPath(vec![]));
    assert_eq!(e.label(), "Invalid Path");
    assert_eq!(e.message().unwrap(), "The path you entered was invalid.");
    assert!(e.source().is_none());
    assert_eq!(e.to_string(), "Invalid Path: The path you entered was invalid.\n\tDetails: The path you entered was invalid.\n");
}

#[test]
fn an_io_error_carries_the_text_of_its_cause() {
    let e = Error::new(ErrorKind::IoError("permission denied".to_string()));
    assert_eq!(e.kind(), &ErrorKind::IoError("permission denied".to_string()));
    assert_eq!(e.label(), "permission denied");
    assert_eq!(e.to_string(), "permission denied: permission denied\n\tDetails: permission denied\n");
}

#[test]
fn every_kind_has_a_label_and_a_sentence() {
    let kinds = vec![
        (ErrorKind::NotFound, "Not Found", "The path does not exist."),
        (
            ErrorKind::UnsupportedPathType,
            "Unsupported Path Type",
            "The path is neither a file nor a directory.",
        ),
        (
            ErrorKind::DuplicateName,
            "Duplicate Name",
            "The directory already has a child of that name.",
        ),
        (ErrorKind::CycleDetected, "Cycle Detected", "The walk ran into a cycle."),
        (ErrorKind::Cancelled, "Cancelled", "The operation was cancelled."),
    ];
    for (kind, label, sentence) in kinds {
        assert_eq!(kind.label(), label);
        assert_eq!(kind.to_string(), sentence);
    }
}

#[test]
fn message_and_source_replace_what_was_there() {
    let cause = Error::new(ErrorKind::NotFound);
    let e = Error::new(ErrorKind::Cancelled).with_message("stopped by the user").with_source(cause);
    assert_eq!(e.message().unwrap(), "stopped by the user");
    assert_eq!(e.source().unwrap().kind(), &ErrorKind::NotFound);
    assert_eq!(
        e.to_string(),
        "Cancelled: The operation was cancelled.\n\tDetails: stopped by the user\n\tCaused by: Not Found: The path does not exist.\n\tDetails: The path does not exist.\n\n"
    );
}

#[test]
fn the_trace_of_a_single_error() {
    let e = Error::new(ErrorKind::NotFound);
    assert_eq!(
        e.pretty_print(),
        "\x1b[31mNot Found\x1b[0m: \x1b[34mThe path does not exist.\x1b[0m\n    Details: \x1b[33mThe path does not exist.\x1b[0m\n"
    );
}

#[test]
fn the_trace_indents_each_cause() {
    let inner = Error::from_parts(ErrorKind::NotFound, "c".to_string(), None, None);
    let middle = Error::from_parts(ErrorKind::Cancelled, "b".to_string(), None, Some(inner));
    let outer = Error::from_parts(
        ErrorKind::DuplicateName,
        "a".to_string(),
        Some("d".to_string()),
        Some(middle),
    );
    let expected = [
        "\x1b[31ma\x1b[0m: \x1b[34mThe directory already has a child of that name.\x1b[0m\n",
        "    Details: \x1b[33md\x1b[0m\n",
        "    Caused by:\n",
        "└── \x1b[31mb\x1b[0m: \x1b[34mThe operation was cancelled.\x1b[0m\n",
        "    Caused by:\n",
        "   └── \x1b[31mc\x1b[0m: \x1b[34mThe path does not exist.\x1b[0m\n",
    ]
    .concat();
    assert_eq!(outer.pretty_print(), expected);
}
