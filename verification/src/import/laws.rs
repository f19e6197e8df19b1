//! What holds of an import: the tree mirrors the walk, entry by entry.

use crate::error::{fresh_error, ErrorKindView, ErrorView};
use crate::import::{
    advance, entry_fault, entry_node, entry_parent, fresh_importer, import_outcome,
    lemma_advance_well_formed, lemma_outcome_stays_refused, walk_outcome, EventView,
    ImporterView, PhysicalKind,
};
use crate::inode::{file_of, INodeTypeView, INodeView};
use crate::tree::laws::{files_below, lemma_files_below_root};
use crate::tree::{
    attached, child_in_place, children_at, count_files, has_child_named, hangs_below_parent,
    is_directory_at, name_at, tree_well_formed,
};
use vstd::prelude::*;

verus! {

/// The depth of entry `i` of a walk.
pub open spec fn depth_at(events: Seq<EventView>, i: int) -> int {
    events[i]->Entry_0.depth as int
}

/// Entry `p` of a walk holds entry `i`: it is the nearest entry before `i`
/// that lies one level higher.
pub open spec fn holds_entry(events: Seq<EventView>, p: int, i: int) -> bool {
    &&& 0 <= p < i
    &&& depth_at(events, p) + 1 == depth_at(events, i)
    &&& forall|j: int| p < j < i ==> #[trigger] depth_at(events, j) >= depth_at(events, i)
}

/// Node `i` of the tree is what entry `i` of the walk reports: a file with
/// the entry's name and content, or a directory with its name; and it hangs
/// below the node of the entry that holds the entry in the walk.
pub open spec fn node_mirrors_entry(nodes: Seq<INodeView>, events: Seq<EventView>, i: int) -> bool {
    &&& events[i] matches EventView::Entry(entry)
    &&& match entry.kind {
        PhysicalKind::File => nodes[i].inode == INodeTypeView::File(file_of(entry.name, entry.data)),
        PhysicalKind::Directory => nodes[i].inode is Directory && nodes[i].inode.name()
            == entry.name,
        PhysicalKind::Other => false,
    }
    &&& match nodes[i].parent {
        Some(p) => holds_entry(events, p as int, i),
        None => i == 0 && entry.depth == 0,
    }
}

/// The tree has one node for each entry of the walk, in the order of the
/// walk, and each node is what its entry reports.
pub open spec fn mirrors(nodes: Seq<INodeView>, events: Seq<EventView>) -> bool {
    &&& nodes.len() == events.len()
    &&& forall|i: int| 0 <= i < events.len() ==> #[trigger] node_mirrors_entry(nodes, events, i)
}

/// The open directories of the importer are those that the walk is inside
/// of: the directory at position `k` lies at depth `k`, and every entry
/// behind it lies deeper.
pub open spec fn stack_follows(st: ImporterView, events: Seq<EventView>) -> bool {
    forall|k: int|
        0 <= k < st.stack.len() ==> {
            let j = #[trigger] st.stack[k] as int;
            &&& 0 <= j < events.len()
            &&& depth_at(events, j) == k
            &&& forall|m: int| j < m < events.len() ==> #[trigger] depth_at(events, m) > k
        }
}

/// Whether an event reports a file.
pub open spec fn is_file_entry(event: EventView) -> bool {
    event matches EventView::Entry(entry) && entry.kind is File
}

/// The number of files that a walk reports.
pub open spec fn count_file_entries(events: Seq<EventView>) -> nat {
    events.filter(|event: EventView| is_file_entry(event)).len()
}

/// After a walk that the importer accepts, the nodes mirror the events.
pub proof fn lemma_walk_mirrors(events: Seq<EventView>, max_depth: usize)
    requires
        events.len() <= usize::MAX,
        walk_outcome(fresh_importer(max_depth), events) is Ok,
    ensures
        ({
            let st = walk_outcome(fresh_importer(max_depth), events)->Ok_0;
            &&& st.well_formed()
            &&& st.max_depth == max_depth
            &&& mirrors(st.nodes, events)
            &&& stack_follows(st, events)
        }),
    decreases events.len(),
{
    let st = walk_outcome(fresh_importer(max_depth), events)->Ok_0;
    if events.len() > 0 {
        let shorter = events.drop_last();
        let n = shorter.len() as int;
        lemma_walk_mirrors(shorter, max_depth);
        let before = walk_outcome(fresh_importer(max_depth), shorter)->Ok_0;
        let entry = events.last()->Entry_0;
        assert(events[n] == events.last());
        assert(entry_fault(before, entry) is None);
        lemma_advance_well_formed(before, entry);
        let parent = entry_parent(before, entry);
        let node = entry_node(entry, parent);
        assert(st.nodes == attached(before.nodes, node));
        assert(st.nodes[n] == node);
        assert forall|i: int| 0 <= i < n implies st.nodes[i].parent == before.nodes[i].parent
            && st.nodes[i].inode.name() == before.nodes[i].inode.name() && (
        before.nodes[i].inode is File ==> st.nodes[i].inode == before.nodes[i].inode) && (
        before.nodes[i].inode is Directory ==> st.nodes[i].inode is Directory) by {}
        assert forall|i: int| 0 <= i < events.len() implies #[trigger] node_mirrors_entry(
            st.nodes,
            events,
            i,
        ) by {
            if i < n {
                assert(node_mirrors_entry(before.nodes, shorter, i));
                assert(events[i] == shorter[i]);
                match before.nodes[i].parent {
                    Some(p) => {
                        assert(holds_entry(shorter, p as int, i));
                        assert forall|j: int| p < j < i implies #[trigger] depth_at(events, j)
                            >= depth_at(events, i) by {
                            assert(depth_at(shorter, j) >= depth_at(shorter, i));
                        }
                        assert(depth_at(shorter, p as int) == depth_at(events, p as int));
                    },
                    None => {},
                }
            } else {
                if entry.depth > 0 {
                    let k = entry.depth - 1;
                    let p = before.stack[k] as int;
                    assert(depth_at(shorter, p) == depth_at(events, p));
                    assert forall|j: int| p < j < n implies #[trigger] depth_at(events, j)
                        >= depth_at(events, n) by {
                        assert(depth_at(shorter, j) > k);
                    }
                }
            }
        }
        assert forall|k: int| 0 <= k < st.stack.len() implies ({
            let j = #[trigger] st.stack[k] as int;
            &&& 0 <= j < events.len()
            &&& depth_at(events, j) == k
            &&& forall|m: int| j < m < events.len() ==> #[trigger] depth_at(events, m) > k
        }) by {
            let j = st.stack[k] as int;
            if k < entry.depth {
                assert(j == before.stack[k] as int);
                assert(depth_at(shorter, j) == depth_at(events, j));
                assert forall|m: int| j < m < events.len() implies #[trigger] depth_at(events, m)
                    > k by {
                    if m < n {
                        assert(depth_at(shorter, m) > k);
                    }
                }
            }
        }
    }
}

/// Import fidelity, node by node: the tree that an import gives is a tree,
/// it has one node for each entry of the walk, every file of it has the name
/// and the content that the walk read, and every node hangs below the node
/// of the directory that held its entry.
pub proof fn lemma_import_mirrors(events: Seq<EventView>, max_depth: usize)
    requires
        events.len() <= usize::MAX,
        import_outcome(events, max_depth) is Ok,
    ensures
        tree_well_formed(import_outcome(events, max_depth)->Ok_0),
        mirrors(import_outcome(events, max_depth)->Ok_0, events),
{
    lemma_walk_mirrors(events, max_depth);
}

/// Two rows of equal length in which the files stand at the same places
/// hold equally many files.
proof fn lemma_counts_agree(nodes: Seq<INodeView>, events: Seq<EventView>)
    requires
        nodes.len() == events.len(),
        forall|i: int| 0 <= i < nodes.len() ==> (nodes[i].inode is File <==> is_file_entry(events[i])),
    ensures
        count_files(nodes) == count_file_entries(events),
    decreases nodes.len(),
{
    reveal(Seq::filter);
    if nodes.len() > 0 {
        lemma_counts_agree(nodes.drop_last(), events.drop_last());
    }
}

/// Import fidelity, in numbers: the tree that an import gives holds as many
/// files as the walk has reported.
pub proof fn lemma_import_file_count(events: Seq<EventView>, max_depth: usize)
    requires
        events.len() <= usize::MAX,
        import_outcome(events, max_depth) is Ok,
    ensures
        count_files(import_outcome(events, max_depth)->Ok_0) == count_file_entries(events),
{
    lemma_walk_mirrors(events, max_depth);
    let nodes = import_outcome(events, max_depth)->Ok_0;
    assert forall|i: int| 0 <= i < nodes.len() implies (nodes[i].inode is File <==> is_file_entry(
        events[i],
    )) by {
        assert(node_mirrors_entry(nodes, events, i));
    }
    lemma_counts_agree(nodes, events);
}

/// Import fidelity, directory by directory: counted from the root of the
/// imported tree downwards, each directory as the files that it holds and
/// the files of its subdirectories, the tree holds as many files as the
/// walk has reported.
pub proof fn lemma_import_census(events: Seq<EventView>, max_depth: usize)
    requires
        events.len() <= usize::MAX,
        import_outcome(events, max_depth) is Ok,
    ensures
        files_below(import_outcome(events, max_depth)->Ok_0, 0) == count_file_entries(events),
{
    lemma_walk_mirrors(events, max_depth);
    lemma_import_file_count(events, max_depth);
    lemma_files_below_root(import_outcome(events, max_depth)->Ok_0);
}

/// Missing path: a walk that finds nothing at its starting point, or that
/// reports nothing at all, ends in `NotFound`.
pub proof fn lemma_missing_path(events: Seq<EventView>, max_depth: usize)
    requires
        events.len() == 0 || (events[0] matches EventView::Failure(failure) && failure.depth == 0
            && failure.cause is Missing),
    ensures
        import_outcome(events, max_depth) == Err::<Seq<INodeView>, ErrorView>(
            fresh_error(ErrorKindView::NotFound),
        ),
{
    if events.len() > 0 {
        let first = events.take(1);
        assert(first.drop_last() =~= Seq::empty());
        assert(first.last() == events[0]);
        assert(walk_outcome(fresh_importer(max_depth), first.drop_last()) == Ok::<
            ImporterView,
            ErrorView,
        >(fresh_importer(max_depth)));
        lemma_outcome_stays_refused(fresh_importer(max_depth), events, 1);
    }
}

/// What entry `i` of a walk adds to the depth that the entry behind it may
/// have: one if it is a directory, for it can be gone into.
pub open spec fn opens(events: Seq<EventView>, i: int) -> int {
    if events[i]->Entry_0.kind is Directory {
        1
    } else {
        0
    }
}

/// Entries `h` and `i` of a walk lie in the same directory: they have the
/// same depth, and the walk does not rise above that depth between them.
pub open spec fn siblings(events: Seq<EventView>, h: int, i: int) -> bool {
    &&& 0 <= h < i
    &&& events[h] is Entry
    &&& depth_at(events, h) == depth_at(events, i)
    &&& forall|k: int| h < k < i ==> #[trigger] depth_at(events, k) >= depth_at(events, i)
}

/// Entry `i` of a walk can be taken in after the entries before it: it is a
/// file or a directory; it does not lie deeper than allowed; the first entry
/// has depth 0, and every other entry lies below the starting point and at
/// most one level deeper than the entry before it, and deeper only below a
/// directory; and no entry of the same directory has its name.
pub open spec fn entry_accepted(events: Seq<EventView>, max_depth: usize, i: int) -> bool {
    &&& events[i] matches EventView::Entry(entry)
    &&& !(entry.kind is Other)
    &&& entry.depth <= max_depth
    &&& if i == 0 {
        entry.depth == 0
    } else {
        events[i - 1] is Entry && 1 <= entry.depth <= depth_at(events, i - 1) + opens(events, i - 1)
    }
    &&& forall|h: int| #[trigger]
        siblings(events, h, i) ==> events[h]->Entry_0.name != entry.name
}

/// A walk that an import takes in: it reports at least one entry, and each
/// of its entries can be taken in after those before it.
pub open spec fn walk_accepted(events: Seq<EventView>, max_depth: usize) -> bool {
    &&& events.len() > 0
    &&& forall|i: int| 0 <= i < events.len() ==> #[trigger] entry_accepted(events, max_depth, i)
}

/// Whether an entry can be taken in depends on the entries before it alone.
proof fn lemma_accepted_in_prefix(events: Seq<EventView>, max_depth: usize, i: int)
    requires
        0 <= i < events.len() - 1,
    ensures
        entry_accepted(events, max_depth, i) == entry_accepted(events.drop_last(), max_depth, i),
{
    let shorter = events.drop_last();
    assert(shorter[i] == events[i]);
    if i > 0 {
        assert(shorter[i - 1] == events[i - 1]);
    }
    assert forall|h: int| siblings(events, h, i) == siblings(shorter, h, i) by {
        if 0 <= h < i {
            assert(shorter[h] == events[h]);
            if siblings(events, h, i) {
                assert forall|k: int| h < k < i implies #[trigger] depth_at(shorter, k)
                    >= depth_at(shorter, i) by {
                    assert(depth_at(events, k) >= depth_at(events, i));
                }
            }
            if siblings(shorter, h, i) {
                assert forall|k: int| h < k < i implies #[trigger] depth_at(events, k)
                    >= depth_at(events, i) by {
                    assert(depth_at(shorter, k) >= depth_at(shorter, i));
                }
            }
        }
    }
    assert forall|h: int| siblings(events, h, i) implies shorter[h] == events[h] by {}
}

/// The importer takes in exactly the entries that can be taken in; and as
/// many directories are open after an entry as the entry behind it may be
/// deep.
proof fn lemma_walk_accepts(events: Seq<EventView>, max_depth: usize)
    requires
        events.len() <= usize::MAX,
    ensures
        walk_outcome(fresh_importer(max_depth), events) is Ok <==> (forall|i: int|
            0 <= i < events.len() ==> #[trigger] entry_accepted(events, max_depth, i)),
        walk_outcome(fresh_importer(max_depth), events) matches Ok(st) ==> st.stack.len() == if events.len()
            == 0 {
            0
        } else {
            depth_at(events, events.len() - 1) + opens(events, events.len() - 1)
        },
    decreases events.len(),
{
    if events.len() > 0 {
        let shorter = events.drop_last();
        let n = shorter.len() as int;
        lemma_walk_accepts(shorter, max_depth);
        assert forall|i: int| 0 <= i < n implies entry_accepted(events, max_depth, i)
            == entry_accepted(shorter, max_depth, i) by {
            lemma_accepted_in_prefix(events, max_depth, i);
        }
        assert(events[n] == events.last());
        assert(events =~= shorter.push(events[n]));
        if walk_outcome(fresh_importer(max_depth), shorter) is Ok {
            lemma_walk_mirrors(shorter, max_depth);
            let before = walk_outcome(fresh_importer(max_depth), shorter)->Ok_0;
            assert(forall|i: int| 0 <= i < n ==> #[trigger] entry_accepted(shorter, max_depth, i));
            assert(before.nodes.len() == n);
            match events[n] {
                EventView::Entry(entry) => {
                    if n > 0 {
                        assert(node_mirrors_entry(before.nodes, shorter, n - 1));
                        assert(shorter[n - 1] == events[n - 1]);
                        assert(depth_at(shorter, n - 1) == depth_at(events, n - 1));
                        assert(opens(shorter, n - 1) == opens(events, n - 1));
                        if 1 <= entry.depth <= before.stack.len() {
                            lemma_sibling_names(shorter, events, before, entry);
                        }
                    } else {
                        assert forall|h: int| !#[trigger] siblings(events, h, n) by {}
                    }
                    assert((entry_fault(before, entry) is None) == entry_accepted(
                        events,
                        max_depth,
                        n,
                    ));
                    if entry_fault(before, entry) is None {
                        let next = advance(before, entry);
                        assert(next.stack.len() == entry.depth + opens(events, n));
                    }
                },
                _ => {
                    assert(!entry_accepted(events, max_depth, n));
                },
            }
        } else {
            let i = choose|i: int| 0 <= i < n && !#[trigger] entry_accepted(shorter, max_depth, i);
            assert(!entry_accepted(events, max_depth, i));
        }
    }
}

/// The directory that is to hold an entry has a child of the entry's name
/// exactly where the walk has reported an entry of that name in the same
/// directory before.
proof fn lemma_sibling_names(
    shorter: Seq<EventView>,
    events: Seq<EventView>,
    before: ImporterView,
    entry: crate::import::EntryView,
)
    requires
        shorter.len() > 0,
        shorter.len() < usize::MAX,
        events == shorter.push(EventView::Entry(entry)),
        before.well_formed(),
        mirrors(before.nodes, shorter),
        stack_follows(before, shorter),
        1 <= entry.depth <= before.stack.len(),
    ensures
        has_child_named(before.nodes, before.stack[entry.depth - 1] as int, entry.name) <==> (exists|
            h: int,
        | #[trigger]
            siblings(events, h, shorter.len() as int) && events[h]->Entry_0.name == entry.name),
{
    let n = shorter.len() as int;
    let d = entry.depth as int;
    let nodes = before.nodes;
    let p = before.stack[d - 1] as int;
    assert(depth_at(events, n) == d);
    assert(is_directory_at(nodes, p));
    assert forall|i: int| 0 <= i < n implies events[i] == shorter[i] by {}
    let children = children_at(nodes, p);
    if has_child_named(nodes, p, entry.name) {
        let a = choose|a: int|
            0 <= a < children.len() && name_at(nodes, #[trigger] children[a] as int) == entry.name;
        let c = children[a] as int;
        assert(child_in_place(nodes, p, a));
        assert(node_mirrors_entry(nodes, shorter, c));
        assert(holds_entry(shorter, p, c));
        assert forall|k: int| c < k < n implies #[trigger] depth_at(events, k) >= depth_at(
            events,
            n,
        ) by {
            assert(depth_at(shorter, k) > d - 1);
        }
        assert(siblings(events, c, n));
    }
    if exists|h: int| #[trigger] siblings(events, h, n) && events[h]->Entry_0.name == entry.name {
        let h = choose|h: int| #[trigger]
            siblings(events, h, n) && events[h]->Entry_0.name == entry.name;
        assert(node_mirrors_entry(nodes, shorter, h));
        assert(depth_at(shorter, h) == d);
        assert(depth_at(shorter, p) == d - 1);
        match nodes[h].parent {
            None => {},
            Some(up) => {
                let q = up as int;
                assert(holds_entry(shorter, q, h));
                if p < q {
                    assert(depth_at(shorter, q) > d - 1);
                } else if q < p {
                    if p > h {
                        assert(depth_at(events, p) >= depth_at(events, n));
                    } else {
                        assert(depth_at(shorter, p) >= depth_at(shorter, h));
                    }
                }
                assert(q == p);
                assert(hangs_below_parent(nodes, h));
                let a = choose|a: int| 0 <= a < children.len() && children[a] == h as usize;
                assert(name_at(nodes, children[a] as int) == entry.name);
            },
        }
    }
}

/// When an import succeeds: exactly on the walks whose every entry can be
/// taken in after those before it.
pub proof fn lemma_import_accepts(events: Seq<EventView>, max_depth: usize)
    requires
        events.len() <= usize::MAX,
    ensures
        import_outcome(events, max_depth) is Ok <==> walk_accepted(events, max_depth),
{
    lemma_walk_accepts(events, max_depth);
    if walk_outcome(fresh_importer(max_depth), events) is Ok {
        lemma_walk_mirrors(events, max_depth);
    }
}

} // verus!
