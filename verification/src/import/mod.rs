//! The importer: it turns what a depth-first walk of a physical directory
//! reports, entry by entry, into a tree of nodes.
//!
//! The walk itself is the caller's part. It reports every entry with its
//! depth below the starting point, parents before their children, and the
//! importer decides what becomes of each report. Symbolic links are meant to
//! be followed by the walk; a link that leads back into its own ancestors is
//! reported as a loop and ends the import, as does any entry that lies
//! deeper than the importer was told to go.

pub mod laws;

use crate::error::{fresh_error, Error, ErrorKind, ErrorKindView, ErrorView};
use crate::inode::{file_of, INodeTypeView, INodeView, KosmoraFile};
use crate::tree::{
    attach_fault, attached, empty_directory, has_child_named, is_directory_at,
    lemma_attached_well_formed, tree_well_formed, KosmoraFs, KosmoraFsBuilder,
};
use vstd::prelude::*;

verus! {

/// What the host says an entry is.
#[derive(Debug, Clone, Copy, PartialEq, Eq)]
pub enum PhysicalKind {
    File,
    Directory,
    /// Neither of the two: a device, a socket, a link that leads nowhere.
    Other,
}

/// One entry that the walk has visited.
#[derive(Debug, PartialEq, Eq)]
pub struct PhysicalEntry {
    /// How far below the starting point the entry lies; the starting point
    /// itself has depth 0.
    pub depth: usize,
    /// The last component of the entry's path.
    pub name: String,
    pub kind: PhysicalKind,
    /// The whole content of a file; empty for anything else.
    pub data: Vec<u8>,
}

/// The mathematical value of a [`PhysicalEntry`].
pub struct EntryView {
    pub depth: usize,
    pub name: Seq<char>,
    pub kind: PhysicalKind,
    pub data: Seq<u8>,
}

impl View for PhysicalEntry {
    type V = EntryView;

    open spec fn view(&self) -> EntryView {
        EntryView { depth: self.depth, name: self.name@, kind: self.kind, data: self.data@ }
    }
}

/// Why the walk could not report an entry.
#[derive(Debug, Clone, Copy, PartialEq, Eq)]
pub enum FailureCause {
    /// There is nothing at the path.
    Missing,
    /// A link leads back to a directory that the walk is inside of.
    Loop,
    /// Listing, stat or read failed.
    Io,
}

/// A failure of the walk.
#[derive(Debug, PartialEq, Eq)]
pub struct PhysicalFailure {
    /// The depth of the entry that could not be reported.
    pub depth: usize,
    pub cause: FailureCause,
    /// The text of the underlying failure.
    pub detail: String,
}

/// The mathematical value of a [`PhysicalFailure`].
pub struct FailureView {
    pub depth: usize,
    pub cause: FailureCause,
    pub detail: Seq<char>,
}

impl View for PhysicalFailure {
    type V = FailureView;

    open spec fn view(&self) -> FailureView {
        FailureView { depth: self.depth, cause: self.cause, detail: self.detail@ }
    }
}

/// What the walk hands to the importer.
#[derive(Debug, PartialEq, Eq)]
pub enum WalkEvent {
    /// The walk has visited an entry.
    Entry(PhysicalEntry),
    /// The walk has failed on an entry.
    Failure(PhysicalFailure),
    /// The caller has called the import off.
    Cancelled,
}

/// The mathematical value of a [`WalkEvent`].
pub enum EventView {
    Entry(EntryView),
    Failure(FailureView),
    Cancelled,
}

impl View for WalkEvent {
    type V = EventView;

    open spec fn view(&self) -> EventView {
        match *self {
            WalkEvent::Entry(entry) => EventView::Entry(entry@),
            WalkEvent::Failure(failure) => EventView::Failure(failure@),
            WalkEvent::Cancelled => EventView::Cancelled,
        }
    }
}

/// The events of `events`, each by its value.
pub open spec fn event_views(events: Seq<WalkEvent>) -> Seq<EventView> {
    events.map_values(|event: WalkEvent| event@)
}

/// The mathematical value of a [`KosmoraImporter`]: the nodes made so far,
/// the places of the directories that the walk is inside of, outermost
/// first, and the greatest depth that the importer accepts.
pub struct ImporterView {
    pub nodes: Seq<INodeView>,
    pub stack: Seq<usize>,
    pub max_depth: usize,
}

impl ImporterView {
    /// The nodes are a tree, and the open directories are directories of it.
    pub open spec fn well_formed(self) -> bool {
        &&& tree_well_formed(self.nodes)
        &&& self.nodes.len() <= usize::MAX
        &&& forall|k: int|
            0 <= k < self.stack.len() ==> is_directory_at(self.nodes, #[trigger] self.stack[k] as int)
    }
}

/// The importer before its first event.
pub open spec fn fresh_importer(max_depth: usize) -> ImporterView {
    ImporterView { nodes: Seq::empty(), stack: Seq::empty(), max_depth }
}

/// The error that a failure of the walk ends the import with: a loop is a
/// cycle, a starting point that is missing is not found, and everything else
/// is an I/O error that carries the text of the failure.
pub open spec fn failure_error(failure: FailureView) -> ErrorView {
    match failure.cause {
        FailureCause::Loop => fresh_error(ErrorKindView::CycleDetected),
        FailureCause::Missing => if failure.depth == 0 {
            fresh_error(ErrorKindView::NotFound)
        } else {
            fresh_error(ErrorKindView::IoError(failure.detail))
        },
        FailureCause::Io => fresh_error(ErrorKindView::IoError(failure.detail)),
    }
}

/// Why the importer refuses an entry, if it does. In this order: the entry
/// lies too deep; it is neither file nor directory; there is no open
/// directory at the depth above it to hold it; that directory has a child
/// of its name already.
pub open spec fn entry_fault(st: ImporterView, entry: EntryView) -> Option<ErrorKindView> {
    if entry.depth > st.max_depth {
        Some(ErrorKindView::CycleDetected)
    } else if entry.kind is Other {
        Some(ErrorKindView::UnsupportedPathType)
    } else if st.nodes.len() == 0 {
        if entry.depth == 0 {
            None
        } else {
            Some(ErrorKindView::NotFound)
        }
    } else if entry.depth == 0 || entry.depth > st.stack.len() {
        Some(ErrorKindView::NotFound)
    } else if has_child_named(st.nodes, st.stack[entry.depth - 1] as int, entry.name) {
        Some(ErrorKindView::DuplicateName)
    } else {
        None
    }
}

/// The error that an event ends the import with, if it does.
pub open spec fn event_fault(st: ImporterView, event: EventView) -> Option<ErrorView> {
    match event {
        EventView::Entry(entry) => match entry_fault(st, entry) {
            Some(kind) => Some(fresh_error(kind)),
            None => None,
        },
        EventView::Failure(failure) => Some(failure_error(failure)),
        EventView::Cancelled => Some(fresh_error(ErrorKindView::Cancelled)),
    }
}

/// The place of the directory that holds an entry: the open directory one
/// level above it. The starting point has none.
pub open spec fn entry_parent(st: ImporterView, entry: EntryView) -> Option<usize> {
    if entry.depth == 0 {
        None
    } else {
        Some(st.stack[entry.depth - 1])
    }
}

/// The node that an entry becomes: a file with the entry's name and
/// content, or a directory that has no children yet.
pub open spec fn entry_node(entry: EntryView, parent: Option<usize>) -> INodeView {
    if entry.kind is File {
        INodeView { inode: INodeTypeView::File(file_of(entry.name, entry.data)), parent }
    } else {
        empty_directory(entry.name, parent)
    }
}

/// The importer after an entry that it accepts: the entry's node is
/// attached, the directories at the entry's depth and below are closed, and
/// the entry is open if it is a directory.
pub open spec fn advance(st: ImporterView, entry: EntryView) -> ImporterView {
    let outer = st.stack.take(entry.depth as int);
    ImporterView {
        nodes: attached(st.nodes, entry_node(entry, entry_parent(st, entry))),
        stack: if entry.kind is Directory {
            outer.push(st.nodes.len() as usize)
        } else {
            outer
        },
        max_depth: st.max_depth,
    }
}

/// Accepting an entry keeps the importer well-formed.
pub proof fn lemma_advance_well_formed(st: ImporterView, entry: EntryView)
    requires
        st.well_formed(),
        st.nodes.len() < usize::MAX,
        entry_fault(st, entry) is None,
    ensures
        attach_fault(st.nodes, entry_parent(st, entry), entry.name) is None,
        advance(st, entry).well_formed(),
{
    let parent = entry_parent(st, entry);
    let node = entry_node(entry, parent);
    if entry.depth > 0 {
        assert(is_directory_at(st.nodes, st.stack[entry.depth - 1] as int));
    }
    lemma_attached_well_formed(st.nodes, node);
    let next = advance(st, entry);
    assert forall|k: int| 0 <= k < next.stack.len() implies is_directory_at(
        next.nodes,
        #[trigger] next.stack[k] as int,
    ) by {
        if k < entry.depth {
            assert(is_directory_at(st.nodes, st.stack[k] as int));
        }
    }
}

/// The state of the importer after the events `events`, or the error that
/// the first refused event ended the import with.
pub open spec fn walk_outcome(st: ImporterView, events: Seq<EventView>) -> Result<
    ImporterView,
    ErrorView,
>
    decreases events.len(),
{
    if events.len() == 0 {
        Ok(st)
    } else {
        match walk_outcome(st, events.drop_last()) {
            Err(e) => Err(e),
            Ok(before) => match event_fault(before, events.last()) {
                Some(e) => Err(e),
                None => Ok(advance(before, events.last()->Entry_0)),
            },
        }
    }
}

/// What an import of the walk `events` gives: the tree of the entries, or
/// the error of the first event that is refused. A walk without entries has
/// found nothing.
pub open spec fn import_outcome(events: Seq<EventView>, max_depth: usize) -> Result<
    Seq<INodeView>,
    ErrorView,
> {
    match walk_outcome(fresh_importer(max_depth), events) {
        Err(e) => Err(e),
        Ok(st) => if st.nodes.len() == 0 {
            Err(fresh_error(ErrorKindView::NotFound))
        } else {
            Ok(st.nodes)
        },
    }
}

/// The error that a failure of the walk ends the import with.
pub fn error_of_failure(failure: PhysicalFailure) -> (out: Error)
    ensures
        out@ == failure_error(failure@),
{
    match failure.cause {
        FailureCause::Loop => Error::new(ErrorKind::CycleDetected),
        FailureCause::Missing => if failure.depth == 0 {
            Error::new(ErrorKind::NotFound)
        } else {
            Error::new(ErrorKind::IoError(failure.detail))
        },
        FailureCause::Io => Error::new(ErrorKind::IoError(failure.detail)),
    }
}

/// The importer. It takes the events of a walk one by one; the first event
/// that it refuses ends the import, and nothing of the tree is left.
#[derive(Debug, PartialEq, Eq)]
pub struct KosmoraImporter {
    builder: KosmoraFsBuilder,
    stack: Vec<usize>,
    max_depth: usize,
}

impl View for KosmoraImporter {
    type V = ImporterView;

    closed spec fn view(&self) -> ImporterView {
        ImporterView { nodes: self.builder@, stack: self.stack@, max_depth: self.max_depth }
    }
}

impl KosmoraImporter {
    /// What holds of every value of the type.
    #[verifier::type_invariant]
    pub open spec fn valid(self) -> bool {
        self@.well_formed()
    }

    /// An importer that has seen no event and that accepts entries down to
    /// the depth `max_depth`.
    pub fn new(max_depth: usize) -> (out: Self)
        ensures
            out@ == fresh_importer(max_depth),
    {
        let builder = KosmoraFsBuilder::new();
        let out = Self { builder, stack: Vec::new(), max_depth };
        assert(out@.nodes =~= Seq::empty());
        out
    }

    /// Takes the next event of the walk. An entry that nothing speaks
    /// against joins the tree; anything else ends the import with its error.
    pub fn accept(self, event: WalkEvent) -> (out: Result<Self, Error>)
        ensures
            self@.well_formed(),
            match out {
                Ok(next) => event_fault(self@, event@) is None && next@ == advance(
                    self@,
                    event@->Entry_0,
                ),
                Err(e) => event_fault(self@, event@) == Some(e@),
            },
    {
        proof {
            use_type_invariant(&self);
        }
        match event {
            WalkEvent::Cancelled => Err(Error::new(ErrorKind::Cancelled)),
            WalkEvent::Failure(failure) => Err(error_of_failure(failure)),
            WalkEvent::Entry(entry) => self.accept_entry(entry),
        }
    }

    /// Takes an entry that the walk has visited.
    fn accept_entry(self, entry: PhysicalEntry) -> (out: Result<Self, Error>)
        ensures
            match out {
                Ok(next) => entry_fault(self@, entry@) is None && next@ == advance(self@, entry@),
                Err(e) => entry_fault(self@, entry@) == Some(e@.kind) && e@ == fresh_error(
                    e@.kind,
                ),
            },
    {
        proof {
            use_type_invariant(&self);
        }
        let ghost st = self@;
        let mut builder = self.builder;
        let mut stack = self.stack;
        let max_depth = self.max_depth;
        let count = builder.len();
        if entry.depth > max_depth {
            return Err(Error::new(ErrorKind::CycleDetected));
        }
        if let PhysicalKind::Other = entry.kind {
            return Err(Error::new(ErrorKind::UnsupportedPathType));
        }
        let parent = if count == 0 {
            if entry.depth != 0 {
                return Err(Error::new(ErrorKind::NotFound));
            }
            None
        } else {
            if entry.depth == 0 || entry.depth > stack.len() {
                return Err(Error::new(ErrorKind::NotFound));
            }
            Some(stack[entry.depth - 1])
        };
        proof {
            if entry.depth > 0 {
                assert(is_directory_at(st.nodes, st.stack[entry.depth - 1] as int));
            }
        }
        let depth = entry.depth;
        let opens = match entry.kind {
            PhysicalKind::Directory => true,
            _ => false,
        };
        let result = if opens {
            builder.add_directory(parent, entry.name)
        } else {
            builder.add_file(parent, KosmoraFile::with_content(entry.name, entry.data))
        };
        match result {
            Err(e) => Err(e),
            Ok(place) => {
                stack.truncate(depth);
                if opens {
                    stack.push(place);
                }
                proof {
                    assert(count < usize::MAX) by {
                        assert(builder@.len() == count + 1);
                    }
                    lemma_advance_well_formed(st, entry@);
                    assert(stack@ == advance(st, entry@).stack);
                }
                Ok(Self { builder, stack, max_depth })
            },
        }
    }

    /// Ends the import and hands out the tree. An importer that has
    /// accepted no entry has found nothing.
    pub fn finish(self) -> (out: Result<KosmoraFs, Error>)
        ensures
            match out {
                Ok(fs) => self@.nodes.len() > 0 && fs@ == self@.nodes,
                Err(e) => self@.nodes.len() == 0 && e@ == fresh_error(ErrorKindView::NotFound),
            },
    {
        self.builder.build()
    }
}

/// Imports a whole walk: the tree of its entries, or the error of the first
/// event that speaks against one. No entry may lie deeper than `max_depth`.
pub fn collect_physical_directory_children(events: Vec<WalkEvent>, max_depth: usize) -> (out: Result<
    KosmoraFs,
    Error,
>)
    ensures
        match out {
            Ok(fs) => import_outcome(event_views(events@), max_depth) == Ok::<
                Seq<INodeView>,
                ErrorView,
            >(fs@),
            Err(e) => import_outcome(event_views(events@), max_depth) == Err::<
                Seq<INodeView>,
                ErrorView,
            >(e@),
        },
{
    let ghost walk = event_views(events@);
    let mut importer = KosmoraImporter::new(max_depth);
    for event in it: events
        invariant
            it.seq() == events@,
            walk == event_views(events@),
            walk_outcome(fresh_importer(max_depth), walk.take(it.index())) == Ok::<
                ImporterView,
                ErrorView,
            >(importer@),
    {
        proof {
            assert(walk.take(it.index() + 1).drop_last() == walk.take(it.index()));
            assert(walk.take(it.index() + 1).last() == event@);
        }
        match importer.accept(event) {
            Ok(next) => {
                importer = next;
            },
            Err(e) => {
                proof {
                    lemma_outcome_stays_refused(
                        fresh_importer(max_depth),
                        walk,
                        it.index() + 1,
                    );
                }
                return Err(e);
            },
        }
    }
    proof {
        assert(walk.take(walk.len() as int) == walk);
    }
    importer.finish()
}

/// Once an event has been refused, the events behind it change nothing.
pub proof fn lemma_outcome_stays_refused(st: ImporterView, events: Seq<EventView>, n: int)
    requires
        0 <= n <= events.len(),
        walk_outcome(st, events.take(n)) is Err,
    ensures
        walk_outcome(st, events) == walk_outcome(st, events.take(n)),
    decreases events.len(),
{
    if n < events.len() {
        assert(events.drop_last().take(n) == events.take(n));
        lemma_outcome_stays_refused(st, events.drop_last(), n);
    } else {
        assert(events.take(n) == events);
    }
}

/// How deep below its starting point a walk may go where nothing else is
/// said.
pub const DEPTH_LIMIT: usize = 1024;

/// What importing a walk as a directory gives: the tree of the walk, where
/// the starting point is a directory.
pub open spec fn directory_outcome_of(events: Seq<EventView>) -> Result<Seq<INodeView>, ErrorView> {
    match import_outcome(events, DEPTH_LIMIT) {
        Err(e) => Err(e),
        Ok(nodes) => if nodes[0].inode is Directory {
            Ok(nodes)
        } else {
            Err(fresh_error(ErrorKindView::UnsupportedPathType))
        },
    }
}

/// What can be made into a tree of nodes: a record of what was found at a
/// physical path and below it.
pub trait KosmoraINodeInteroperable: Sized {
    /// The walk that the record holds.
    spec fn events(&self) -> Seq<EventView>;

    /// The tree of a directory and of all that lies below it. Anything but
    /// a directory at the starting point is refused.
    fn collect_directory_children(self) -> (out: Result<KosmoraFs, Error>)
        ensures
            match out {
                Ok(fs) => directory_outcome_of(self.events()) == Ok::<Seq<INodeView>, ErrorView>(
                    fs@,
                ),
                Err(e) => directory_outcome_of(self.events()) == Err::<Seq<INodeView>, ErrorView>(
                    e@,
                ),
            },
    ;

    /// The tree of what was found: a single file, or a directory with all
    /// that lies below it.
    fn to_kosmora_inode(self) -> (out: Result<KosmoraFs, Error>)
        ensures
            match out {
                Ok(fs) => import_outcome(self.events(), DEPTH_LIMIT) == Ok::<
                    Seq<INodeView>,
                    ErrorView,
                >(fs@),
                Err(e) => import_outcome(self.events(), DEPTH_LIMIT) == Err::<
                    Seq<INodeView>,
                    ErrorView,
                >(e@),
            },
    ;
}

impl KosmoraINodeInteroperable for Vec<WalkEvent> {
    open spec fn events(&self) -> Seq<EventView> {
        event_views(self@)
    }

    fn collect_directory_children(self) -> (out: Result<KosmoraFs, Error>) {
        match collect_physical_directory_children(self, DEPTH_LIMIT) {
            Err(e) => Err(e),
            Ok(fs) => if fs.root().inode().is_directory() {
                Ok(fs)
            } else {
                Err(Error::new(ErrorKind::UnsupportedPathType))
            },
        }
    }

    fn to_kosmora_inode(self) -> (out: Result<KosmoraFs, Error>) {
        collect_physical_directory_children(self, DEPTH_LIMIT)
    }
}

} // verus!
