//! The typed error of the library and its two renderings: a short chained
//! text and a coloured, indented trace.

use crate::text::repeated;
use vstd::prelude::*;

verus! {

/// What went wrong.
#[derive(Debug, PartialEq, Eq)]
#[non_exhaustive]
pub enum ErrorKind {
    /// A read or a stat failed; the text is that of the underlying failure.
    IoError(String),
    /// A path held forbidden characters: each of them once, in the order in
    /// which they first occur.
    InvalidPath(Vec<char>),
    /// The target path does not exist.
    NotFound,
    /// The target is neither a file nor a directory.
    UnsupportedPathType,
    /// Two children of one directory would share a name.
    DuplicateName,
    /// The walk met a cycle, or went deeper than it was allowed to.
    CycleDetected,
    /// The caller called the operation off.
    Cancelled,
}

/// The mathematical value of an [`ErrorKind`].
pub enum ErrorKindView {
    IoError(Seq<char>),
    InvalidPath(Seq<char>),
    NotFound,
    UnsupportedPathType,
    DuplicateName,
    CycleDetected,
    Cancelled,
}

impl View for ErrorKind {
    type V = ErrorKindView;

    open spec fn view(&self) -> ErrorKindView {
        match *self {
            ErrorKind::IoError(text) => ErrorKindView::IoError(text@),
            ErrorKind::InvalidPath(chars) => ErrorKindView::InvalidPath(chars@),
            ErrorKind::NotFound => ErrorKindView::NotFound,
            ErrorKind::UnsupportedPathType => ErrorKindView::UnsupportedPathType,
            ErrorKind::DuplicateName => ErrorKindView::DuplicateName,
            ErrorKind::CycleDetected => ErrorKindView::CycleDetected,
            ErrorKind::Cancelled => ErrorKindView::Cancelled,
        }
    }
}

impl ErrorKindView {
    /// The sentence that describes the kind.
    pub open spec fn text(self) -> Seq<char> {
        match self {
            ErrorKindView::IoError(text) => text,
            ErrorKindView::InvalidPath(_) => "The path you entered was invalid."@,
            ErrorKindView::NotFound => "The path does not exist."@,
            ErrorKindView::UnsupportedPathType => "The path is neither a file nor a directory."@,
            ErrorKindView::DuplicateName => "The directory already has a child of that name."@,
            ErrorKindView::CycleDetected => "The walk ran into a cycle."@,
            ErrorKindView::Cancelled => "The operation was cancelled."@,
        }
    }

    /// The short label that a fresh error of the kind gets.
    pub open spec fn label(self) -> Seq<char> {
        match self {
            ErrorKindView::IoError(text) => text,
            ErrorKindView::InvalidPath(_) => "Invalid Path"@,
            ErrorKindView::NotFound => "Not Found"@,
            ErrorKindView::UnsupportedPathType => "Unsupported Path Type"@,
            ErrorKindView::DuplicateName => "Duplicate Name"@,
            ErrorKindView::CycleDetected => "Cycle Detected"@,
            ErrorKindView::Cancelled => "Cancelled"@,
        }
    }
}

impl ErrorKind {
    /// The sentence that describes the kind.
    pub fn to_string(&self) -> (out: String)
        ensures
            out@ == self@.text(),
    {
        match self {
            ErrorKind::IoError(text) => text.clone(),
            ErrorKind::InvalidPath(_) => String::from_str("The path you entered was invalid."),
            ErrorKind::NotFound => String::from_str("The path does not exist."),
            ErrorKind::UnsupportedPathType => String::from_str(
                "The path is neither a file nor a directory.",
            ),
            ErrorKind::DuplicateName => String::from_str(
                "The directory already has a child of that name.",
            ),
            ErrorKind::CycleDetected => String::from_str("The walk ran into a cycle."),
            ErrorKind::Cancelled => String::from_str("The operation was cancelled."),
        }
    }

    /// The short label that a fresh error of the kind gets.
    pub fn label(&self) -> (out: String)
        ensures
            out@ == self@.label(),
    {
        match self {
            ErrorKind::IoError(text) => text.clone(),
            ErrorKind::InvalidPath(_) => String::from_str("Invalid Path"),
            ErrorKind::NotFound => String::from_str("Not Found"),
            ErrorKind::UnsupportedPathType => String::from_str("Unsupported Path Type"),
            ErrorKind::DuplicateName => String::from_str("Duplicate Name"),
            ErrorKind::CycleDetected => String::from_str("Cycle Detected"),
            ErrorKind::Cancelled => String::from_str("Cancelled"),
        }
    }
}

/// An error: its kind, a label, an optional detail message and an optional
/// cause, which is an error again.
#[derive(Debug, PartialEq, Eq)]
pub struct Error {
    kind: ErrorKind,
    label: String,
    msg: Option<String>,
    source: Option<Box<Error>>,
}

/// The mathematical value of an [`Error`].
pub struct ErrorView {
    pub kind: ErrorKindView,
    pub label: Seq<char>,
    pub msg: Option<Seq<char>>,
    pub source: Option<Box<ErrorView>>,
}

impl Error {
    /// The value of the error, with the values of its causes below it.
    pub closed spec fn model(&self) -> ErrorView
        decreases self,
    {
        ErrorView {
            kind: self.kind@,
            label: self.label@,
            msg: match self.msg {
                Some(m) => Some(m@),
                None => None,
            },
            source: match self.source {
                Some(s) => Some(Box::new(s.model())),
                None => None,
            },
        }
    }
}

impl View for Error {
    type V = ErrorView;

    open spec fn view(&self) -> ErrorView {
        self.model()
    }
}

/// The escape sequence that switches the terminal to red.
pub open spec fn red() -> Seq<char> {
    "\x1b[31m"@
}

/// The escape sequence that switches the terminal to blue.
pub open spec fn blue() -> Seq<char> {
    "\x1b[34m"@
}

/// The escape sequence that switches the terminal to yellow.
pub open spec fn yellow() -> Seq<char> {
    "\x1b[33m"@
}

/// The escape sequence that ends a colour.
pub open spec fn reset() -> Seq<char> {
    "\x1b[0m"@
}

/// What stands before the first line of an error at nesting level `level`:
/// three spaces for each level beyond the first.
pub open spec fn indent(level: nat) -> Seq<char> {
    if level > 0 {
        repeated("   "@, (level - 1) as nat)
    } else {
        Seq::empty()
    }
}

/// The mark that ties a nested error to the one it caused.
pub open spec fn branch(level: nat, is_last: bool) -> Seq<char> {
    if level > 0 {
        if is_last {
            "└── "@
        } else {
            "├── "@
        }
    } else {
        Seq::empty()
    }
}

/// The error that a failure of the given kind is first reported as: labelled
/// after the kind, with the kind's sentence as its details, without a cause.
pub open spec fn fresh_error(kind: ErrorKindView) -> ErrorView {
    ErrorView { kind, label: kind.label(), msg: Some(kind.text()), source: None }
}

impl ErrorView {
    /// The short rendering: a line with label and kind, a line with the
    /// details if there are any, and a line that holds the cause's own
    /// rendering if there is one.
    pub open spec fn text(self) -> Seq<char>
        decreases self,
    {
        self.label + ": "@ + self.kind.text() + "\n"@ + (match self.msg {
            Some(details) => "\tDetails: "@ + details + "\n"@,
            None => Seq::empty(),
        }) + (match self.source {
            Some(cause) => "\tCaused by: "@ + cause.text() + "\n"@,
            None => Seq::empty(),
        })
    }

    /// The first line of the trace: the label in red, the kind in blue.
    pub open spec fn pretty_head(self, level: nat, is_last: bool) -> Seq<char> {
        indent(level) + branch(level, is_last) + red() + self.label + reset() + ": "@ + blue()
            + self.kind.text() + reset() + "\n"@
    }

    /// The line of the trace that holds the details, in yellow.
    pub open spec fn pretty_details(self, level: nat) -> Seq<char> {
        match self.msg {
            Some(details) => indent(level) + "    "@ + "Details: "@ + yellow() + details + reset()
                + "\n"@,
            None => Seq::empty(),
        }
    }

    /// The trace of an error at nesting level `level`: its head, its details,
    /// and under "Caused by:" the trace of its cause one level deeper.
    pub open spec fn pretty(self, level: nat, is_last: bool) -> Seq<char>
        decreases self,
    {
        self.pretty_head(level, is_last) + self.pretty_details(level) + (match self.source {
            Some(cause) => indent(level) + "    Caused by:"@ + "\n"@ + cause.pretty(level + 1, true),
            None => Seq::empty(),
        })
    }
}

impl Error {
    /// A fresh error of the given kind: labelled after the kind, with the
    /// kind's sentence as its details, and without a cause.
    pub fn new(kind: ErrorKind) -> (out: Self)
        ensures
            out@ == fresh_error(kind@),
    {
        let default_msg = kind.to_string();
        let label = kind.label();
        Self { kind, label, msg: Some(default_msg), source: None }
    }

    /// An error made of the four parts given.
    pub fn from_parts(
        kind: ErrorKind,
        label: String,
        msg: Option<String>,
        source: Option<Error>,
    ) -> (out: Self)
        ensures
            out@.kind == kind@,
            out@.label == label@,
            out@.msg == (match msg {
                Some(m) => Some(m@),
                None => None,
            }),
            out@.source == (match source {
                Some(s) => Some(Box::new(s@)),
                None => None,
            }),
    {
        let source = match source {
            Some(s) => Some(Box::new(s)),
            None => None,
        };
        Self { kind, label, msg, source }
    }

    /// The same error with `message` as its details.
    pub fn with_message(self, message: &str) -> (out: Self)
        ensures
            out@ == (ErrorView { msg: Some(message@), ..self@ }),
    {
        let mut out = self;
        out.msg = Some(String::from_str(message));
        out
    }

    /// The same error with `source` as its cause.
    pub fn with_source(self, source: Error) -> (out: Self)
        ensures
            out@ == (ErrorView { source: Some(Box::new(source@)), ..self@ }),
    {
        let mut out = self;
        out.source = Some(Box::new(source));
        out
    }

    /// The kind of the error.
    pub fn kind(&self) -> (out: &ErrorKind)
        ensures
            out@ == self@.kind,
    {
        &self.kind
    }

    /// The label of the error.
    pub fn label(&self) -> (out: &String)
        ensures
            out@ == self@.label,
    {
        &self.label
    }

    /// The details of the error, if it has any.
    pub fn message(&self) -> (out: Option<&String>)
        ensures
            match out {
                Some(m) => self@.msg == Some(m@),
                None => self@.msg is None,
            },
    {
        match &self.msg {
            Some(m) => Some(m),
            None => None,
        }
    }

    /// The cause of the error, if it has one.
    pub fn source(&self) -> (out: Option<&Error>)
        ensures
            match out {
                Some(s) => self@.source == Some(Box::new(s@)),
                None => self@.source is None,
            },
    {
        match &self.source {
            Some(s) => Some(&**s),
            None => None,
        }
    }

    /// The short rendering of the error and of its causes.
    pub fn to_string(&self) -> (out: String)
        ensures
            out@ == self@.text(),
        decreases self,
    {
        let mut out = self.label.clone();
        out.append(": ");
        let kind = self.kind.to_string();
        out.append(kind.as_str());
        out.append("\n");
        if let Some(details) = &self.msg {
            out.append("\tDetails: ");
            out.append(details.as_str());
            out.append("\n");
        }
        if let Some(cause) = &self.source {
            out.append("\tCaused by: ");
            let inner = cause.to_string();
            out.append(inner.as_str());
            out.append("\n");
        }
        out
    }

    /// The coloured trace of the error and of its causes, each cause one
    /// level deeper than the error it led to.
    pub fn pretty_print(&self) -> (out: String)
        ensures
            out@ == self@.pretty(0, true),
    {
        let margin = String::new();
        Self::print_error(self, &margin, Ghost(0), false, true)
    }

    /// The first line of the trace of `err`, behind the indentation `margin`.
    fn print_head(err: &Error, margin: &String, Ghost(level): Ghost<nat>, nested: bool, is_last: bool) -> (out: String)
        requires
            margin@ == indent(level),
            nested == (level > 0),
        ensures
            out@ == err@.pretty_head(level, is_last),
    {
        let mut out = margin.clone();
        if nested {
            if is_last {
                out.append("└── ");
            } else {
                out.append("├── ");
            }
        } else {
            assert(out@ + Seq::<char>::empty() == out@);
        }
        assert(out@ == indent(level) + branch(level, is_last));
        out.append("\x1b[31m");
        out.append(err.label.as_str());
        out.append("\x1b[0m");
        out.append(": ");
        out.append("\x1b[34m");
        let kind = err.kind.to_string();
        out.append(kind.as_str());
        out.append("\x1b[0m");
        out.append("\n");
        out
    }

    /// The line of the trace of `err` that holds its details, if it has any.
    fn print_details(err: &Error, margin: &String, Ghost(level): Ghost<nat>) -> (out: String)
        requires
            margin@ == indent(level),
        ensures
            out@ == err@.pretty_details(level),
    {
        match &err.msg {
            Some(details) => {
                let mut out = margin.clone();
                out.append("    ");
                out.append("Details: ");
                out.append("\x1b[33m");
                out.append(details.as_str());
                out.append("\x1b[0m");
                out.append("\n");
                out
            },
            None => String::new(),
        }
    }

    /// The trace of `err` at nesting level `level`. The level is handed over
    /// as the indentation that belongs to it.
    fn print_error(
        err: &Error,
        margin: &String,
        Ghost(level): Ghost<nat>,
        nested: bool,
        is_last: bool,
    ) -> (out: String)
        requires
            margin@ == indent(level),
            nested == (level > 0),
        ensures
            out@ == err@.pretty(level, is_last),
        decreases err,
    {
        let mut out = Self::print_head(err, margin, Ghost(level), nested, is_last);
        let details = Self::print_details(err, margin, Ghost(level));
        out.append(details.as_str());
        match &err.source {
            Some(cause) => {
                let mut deeper = margin.clone();
                if nested {
                    deeper.append("   ");
                }
                let inner = Self::print_error(cause, &deeper, Ghost(level + 1), true, true);
                let mut tail = margin.clone();
                tail.append("    Caused by:");
                tail.append("\n");
                tail.append(inner.as_str());
                out.append(tail.as_str());
            },
            None => {
                assert(out@ + Seq::<char>::empty() == out@);
            },
        }
        out
    }
}

} // verus!
