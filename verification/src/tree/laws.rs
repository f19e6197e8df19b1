//! What holds of trees, proved over their model: how the files below a
//! directory are counted, node by node, and what attaching a node does to
//! that count.

use crate::error::ErrorKindView;
use crate::inode::{file_of, DirectoryView, INodeTypeView, INodeView};
use crate::tree::{
    ancestors, attach_fault, attached, child_in_place, children_ascend, children_at, count_files,
    directories_outcome, directory_outcome, graft_node, graft_outcome, has_child_named,
    hangs_below_parent, is_directory_at, lemma_attached_well_formed, lemma_graft_stays_refused,
    name_at, names_differ, tree_well_formed,
};
use vstd::prelude::*;

verus! {

/// The number of files at and below the node at place `i`: one for a file;
/// for a directory, the files at and below each of its children.
pub open spec fn files_below(nodes: Seq<INodeView>, i: int) -> nat
    decreases nodes.len() - i, 1int, 0int,
{
    if 0 <= i < nodes.len() {
        match nodes[i].inode {
            INodeTypeView::File(_) => 1,
            INodeTypeView::Directory(directory) => files_among(
                nodes,
                i,
                directory.children.len() as int,
            ),
        }
    } else {
        0
    }
}

/// The number of files at and below the first `n` children of the directory
/// at place `p`.
pub open spec fn files_among(nodes: Seq<INodeView>, p: int, n: int) -> nat
    decreases nodes.len() - p, 0int, n,
{
    if 0 <= p < nodes.len() && 0 < n <= children_at(nodes, p).len() {
        let c = children_at(nodes, p)[n - 1] as int;
        files_among(nodes, p, n - 1) + if p < c < nodes.len() {
            files_below(nodes, c)
        } else {
            0
        }
    } else {
        0
    }
}

/// Whether the way from the node at place `j` up to the root leads over the
/// node at place `i`, the node itself counted in.
pub open spec fn reaches(nodes: Seq<INodeView>, j: int, i: int) -> bool {
    j == i || ancestors(nodes, j).contains(i as usize)
}

/// The directories above a node: its parent, and the directories above its
/// parent.
pub proof fn lemma_ancestors_step(nodes: Seq<INodeView>, x: int)
    requires
        tree_well_formed(nodes),
        nodes.len() <= usize::MAX,
        0 < x < nodes.len(),
    ensures
        nodes[x].parent is Some,
        nodes[x].parent->0 < x,
        is_directory_at(nodes, nodes[x].parent->0 as int),
        ancestors(nodes, x) == seq![nodes[x].parent->0] + ancestors(
            nodes,
            nodes[x].parent->0 as int,
        ),
{
    assert(hangs_below_parent(nodes, x));
}

/// What lies above a node stands before it in the table.
pub proof fn lemma_ancestors_before(nodes: Seq<INodeView>, x: int, y: usize)
    requires
        tree_well_formed(nodes),
        nodes.len() <= usize::MAX,
        0 <= x < nodes.len(),
        ancestors(nodes, x).contains(y),
    ensures
        y < x,
    decreases x,
{
    if x > 0 {
        lemma_ancestors_step(nodes, x);
        let up = nodes[x].parent->0;
        let rest = ancestors(nodes, up as int);
        let k = choose|k: int| 0 <= k < ancestors(nodes, x).len() && ancestors(nodes, x)[k] == y;
        if k > 0 {
            assert(rest[k - 1] == y);
            lemma_ancestors_before(nodes, up as int, y);
        }
    }
}

/// The way up from any node leads over the root.
pub proof fn lemma_reaches_root(nodes: Seq<INodeView>, x: int)
    requires
        tree_well_formed(nodes),
        nodes.len() <= usize::MAX,
        0 <= x < nodes.len(),
    ensures
        reaches(nodes, x, 0),
    decreases x,
{
    if x > 0 {
        lemma_ancestors_step(nodes, x);
        let up = nodes[x].parent->0;
        lemma_reaches_root(nodes, up as int);
        let whole = ancestors(nodes, x);
        if up == 0 {
            assert(whole[0] == 0usize);
        } else {
            let rest = ancestors(nodes, up as int);
            let k = choose|k: int| 0 <= k < rest.len() && rest[k] == 0usize;
            assert(whole[k + 1] == 0usize);
        }
    }
}

/// What lies above a node on the way up from `p` lies above `p` too.
pub proof fn lemma_reaches_onward(nodes: Seq<INodeView>, p: int, x: int, y: usize)
    requires
        tree_well_formed(nodes),
        nodes.len() <= usize::MAX,
        0 <= p < nodes.len(),
        0 <= x < nodes.len(),
        reaches(nodes, p, x),
        ancestors(nodes, x).contains(y),
    ensures
        ancestors(nodes, p).contains(y),
    decreases p,
{
    if p != x {
        lemma_ancestors_before(nodes, p, x as usize);
        lemma_ancestors_step(nodes, p);
        let up = nodes[p].parent->0;
        let whole = ancestors(nodes, p);
        let rest = ancestors(nodes, up as int);
        let k = choose|k: int| 0 <= k < whole.len() && whole[k] == x as usize;
        if k > 0 {
            assert(rest[k - 1] == x as usize);
        }
        assert(reaches(nodes, up as int, x));
        lemma_reaches_onward(nodes, up as int, x, y);
        let m = choose|m: int| 0 <= m < rest.len() && rest[m] == y;
        assert(whole[m + 1] == y);
    }
}

/// Of two nodes on the way up from `p`, the one that stands first in the
/// table lies above the other.
pub proof fn lemma_way_is_ordered(nodes: Seq<INodeView>, p: int, x: int, y: int)
    requires
        tree_well_formed(nodes),
        nodes.len() <= usize::MAX,
        0 <= p < nodes.len(),
        0 <= y < x < nodes.len(),
        reaches(nodes, p, x),
        reaches(nodes, p, y),
    ensures
        ancestors(nodes, x).contains(y as usize),
    decreases p,
{
    if p != x {
        lemma_ancestors_before(nodes, p, x as usize);
        lemma_ancestors_step(nodes, p);
        let up = nodes[p].parent->0;
        let whole = ancestors(nodes, p);
        let rest = ancestors(nodes, up as int);
        let k = choose|k: int| 0 <= k < whole.len() && whole[k] == x as usize;
        if k > 0 {
            assert(rest[k - 1] == x as usize);
        }
        let m = choose|m: int| 0 <= m < whole.len() && whole[m] == y as usize;
        if m > 0 {
            assert(rest[m - 1] == y as usize);
        }
        lemma_way_is_ordered(nodes, up as int, x, y);
    }
}

/// A directory above `p` has a child on the way up from `p`.
pub proof fn lemma_child_on_way(nodes: Seq<INodeView>, p: int, q: usize) -> (x: int)
    requires
        tree_well_formed(nodes),
        nodes.len() <= usize::MAX,
        0 <= p < nodes.len(),
        ancestors(nodes, p).contains(q),
    ensures
        0 < x < nodes.len(),
        reaches(nodes, p, x),
        nodes[x].parent == Some(q),
    decreases p,
{
    lemma_ancestors_step(nodes, p);
    let up = nodes[p].parent->0;
    if up == q {
        p
    } else {
        let whole = ancestors(nodes, p);
        let rest = ancestors(nodes, up as int);
        let k = choose|k: int| 0 <= k < whole.len() && whole[k] == q;
        assert(rest[k - 1] == q);
        let x = lemma_child_on_way(nodes, up as int, q);
        if x != up as int {
            let m = choose|m: int| 0 <= m < rest.len() && rest[m] == x as usize;
            assert(whole[m + 1] == x as usize);
        } else {
            assert(whole[0] == up);
        }
        x
    }
}

/// How many of the first `m` children of the directory at place `q` lie on
/// the way up from `p`.
pub open spec fn children_on_way(nodes: Seq<INodeView>, p: int, q: int, m: int) -> nat
    decreases m,
{
    if 0 < m <= children_at(nodes, q).len() {
        children_on_way(nodes, p, q, m - 1) + if reaches(
            nodes,
            p,
            children_at(nodes, q)[m - 1] as int,
        ) {
            1nat
        } else {
            0nat
        }
    } else {
        0
    }
}

/// No two children of a directory lie on the way up from one node.
proof fn lemma_one_child_on_way(nodes: Seq<INodeView>, p: int, q: int, a: int, b: int)
    requires
        tree_well_formed(nodes),
        nodes.len() <= usize::MAX,
        0 <= p < nodes.len(),
        is_directory_at(nodes, q),
        0 <= a < children_at(nodes, q).len(),
        0 <= b < children_at(nodes, q).len(),
        a != b,
        reaches(nodes, p, children_at(nodes, q)[a] as int),
    ensures
        !reaches(nodes, p, children_at(nodes, q)[b] as int),
{
    let x = children_at(nodes, q)[a] as int;
    let y = children_at(nodes, q)[b] as int;
    assert(child_in_place(nodes, q, a));
    assert(child_in_place(nodes, q, b));
    if a < b {
        assert(names_differ(nodes, q, a, b));
    } else {
        assert(names_differ(nodes, q, b, a));
    }
    assert(x != y);
    if reaches(nodes, p, y) {
        if y < x {
            lemma_way_is_ordered(nodes, p, x, y);
            lemma_ancestors_step(nodes, x);
            let above = ancestors(nodes, x);
            let k = choose|k: int| 0 <= k < above.len() && above[k] == y as usize;
            if k > 0 {
                assert(ancestors(nodes, q)[k - 1] == y as usize);
                lemma_ancestors_before(nodes, q, y as usize);
            }
        } else {
            lemma_way_is_ordered(nodes, p, y, x);
            lemma_ancestors_step(nodes, y);
            let above = ancestors(nodes, y);
            let k = choose|k: int| 0 <= k < above.len() && above[k] == x as usize;
            if k > 0 {
                assert(ancestors(nodes, q)[k - 1] == x as usize);
                lemma_ancestors_before(nodes, q, x as usize);
            }
        }
    }
}

/// Among the children of a directory, as many lie on the way up from `p`
/// as the directory lies above `p`: one or none.
pub proof fn lemma_children_on_way(nodes: Seq<INodeView>, p: int, q: int, m: int)
    requires
        tree_well_formed(nodes),
        nodes.len() <= usize::MAX,
        0 <= p < nodes.len(),
        is_directory_at(nodes, q),
        0 <= m <= children_at(nodes, q).len(),
    ensures
        children_on_way(nodes, p, q, m) == if exists|k: int|
            0 <= k < m && reaches(nodes, p, #[trigger] children_at(nodes, q)[k] as int) {
            1nat
        } else {
            0nat
        },
    decreases m,
{
    if m > 0 {
        lemma_children_on_way(nodes, p, q, m - 1);
        let children = children_at(nodes, q);
        if reaches(nodes, p, children[m - 1] as int) {
            assert forall|k: int| 0 <= k < m - 1 implies !reaches(
                nodes,
                p,
                #[trigger] children[k] as int,
            ) by {
                lemma_one_child_on_way(nodes, p, q, m - 1, k);
            }
        } else {
            if exists|k: int| 0 <= k < m && reaches(nodes, p, #[trigger] children[k] as int) {
                let k = choose|k: int|
                    0 <= k < m && reaches(nodes, p, #[trigger] children[k] as int);
                assert(k < m - 1);
            }
        }
    }
}

/// A child of a directory lies on the way up from `p` exactly where the
/// directory lies above `p`.
pub proof fn lemma_on_way_below(nodes: Seq<INodeView>, p: int, q: int)
    requires
        tree_well_formed(nodes),
        nodes.len() <= usize::MAX,
        0 <= p < nodes.len(),
        is_directory_at(nodes, q),
    ensures
        (exists|k: int|
            0 <= k < children_at(nodes, q).len() && reaches(
                nodes,
                p,
                #[trigger] children_at(nodes, q)[k] as int,
            )) <==> ancestors(nodes, p).contains(q as usize),
{
    let children = children_at(nodes, q);
    if exists|k: int| 0 <= k < children.len() && reaches(nodes, p, #[trigger] children[k] as int) {
        let k = choose|k: int|
            0 <= k < children.len() && reaches(nodes, p, #[trigger] children[k] as int);
        let x = children[k] as int;
        assert(child_in_place(nodes, q, k));
        lemma_ancestors_step(nodes, x);
        assert(ancestors(nodes, x)[0] == q as usize);
        lemma_reaches_onward(nodes, p, x, q as usize);
    }
    if ancestors(nodes, p).contains(q as usize) {
        let x = lemma_child_on_way(nodes, p, q as usize);
        assert(hangs_below_parent(nodes, x));
        let k = choose|k: int| 0 <= k < children.len() && children[k] == x as usize;
        assert(reaches(nodes, p, children[k] as int));
    }
}

/// What a new node adds to the count at place `i`: one, where the node is a
/// file and `i` lies on the way up from its parent `p`.
pub open spec fn gain(nodes: Seq<INodeView>, p: int, is_file: bool, i: int) -> nat {
    if is_file && reaches(nodes, p, i) {
        1
    } else {
        0
    }
}

/// What attaching a node does to the count of files at and below each
/// node that was there before: the count grows by one on the way from the
/// new node up to the root, where the new node is a file, and nowhere else.
pub proof fn lemma_count_after_attach(nodes: Seq<INodeView>, node: INodeView, i: int)
    requires
        tree_well_formed(nodes),
        nodes.len() <= usize::MAX,
        node.parent is Some,
        attach_fault(nodes, node.parent, node.inode.name()) is None,
        match node.inode {
            INodeTypeView::File(file) => file.well_formed(),
            INodeTypeView::Directory(directory) => directory.children.len() == 0,
        },
        0 <= i < nodes.len(),
    ensures
        files_below(attached(nodes, node), i) == files_below(nodes, i) + gain(
            nodes,
            node.parent->0 as int,
            node.inode is File,
            i,
        ),
    decreases nodes.len() - i, 1int, 0int,
{
    let n = nodes.len() as int;
    let p = node.parent->0 as int;
    let grown = attached(nodes, node);
    let is_file = node.inode is File;
    match nodes[i].inode {
        INodeTypeView::File(_) => {
            if reaches(nodes, p, i) {
                if p != i {
                    lemma_ancestors_before(nodes, p, i as usize);
                    let x = lemma_child_on_way(nodes, p, i as usize);
                    assert(hangs_below_parent(nodes, x));
                }
            }
        },
        INodeTypeView::Directory(directory) => {
            let m = directory.children.len() as int;
            lemma_among_after_attach(nodes, node, i, m);
            lemma_children_on_way(nodes, p, i, m);
            lemma_on_way_below(nodes, p, i);
            if i == p {
                assert(children_at(grown, i) == directory.children.push(n as usize));
                assert(files_among(grown, i, m + 1) == files_among(grown, i, m) + files_below(
                    grown,
                    n,
                ));
                assert(files_below(grown, n) == if is_file {
                    1nat
                } else {
                    0nat
                });
                if ancestors(nodes, p).contains(p as usize) {
                    lemma_ancestors_before(nodes, p, p as usize);
                }
            } else {
                assert(children_at(grown, i) == directory.children);
            }
        },
    }
}

/// What attaching a node does to the count of files at and below the first
/// `m` children of a directory.
pub proof fn lemma_among_after_attach(nodes: Seq<INodeView>, node: INodeView, q: int, m: int)
    requires
        tree_well_formed(nodes),
        nodes.len() <= usize::MAX,
        node.parent is Some,
        attach_fault(nodes, node.parent, node.inode.name()) is None,
        match node.inode {
            INodeTypeView::File(file) => file.well_formed(),
            INodeTypeView::Directory(directory) => directory.children.len() == 0,
        },
        is_directory_at(nodes, q),
        0 <= m <= children_at(nodes, q).len(),
    ensures
        files_among(attached(nodes, node), q, m) == files_among(nodes, q, m) + if node.inode is File {
            children_on_way(nodes, node.parent->0 as int, q, m)
        } else {
            0nat
        },
    decreases nodes.len() - q, 0int, m,
{
    if m > 0 {
        let grown = attached(nodes, node);
        let c = children_at(nodes, q)[m - 1] as int;
        assert(child_in_place(nodes, q, m - 1));
        assert(children_at(grown, q)[m - 1] == children_at(nodes, q)[m - 1]);
        lemma_among_after_attach(nodes, node, q, m - 1);
        lemma_count_after_attach(nodes, node, c);
    }
}

/// The table without its last node: the node is gone from the end of the
/// table and from the end of the children of its parent.
pub open spec fn without_last(nodes: Seq<INodeView>) -> Seq<INodeView> {
    let shorter = nodes.drop_last();
    match nodes.last().parent {
        Some(p) => match shorter[p as int].inode {
            INodeTypeView::Directory(directory) => shorter.update(
                p as int,
                INodeView {
                    inode: INodeTypeView::Directory(
                        DirectoryView {
                            name: directory.name,
                            children: directory.children.drop_last(),
                        },
                    ),
                    parent: shorter[p as int].parent,
                },
            ),
            INodeTypeView::File(_) => shorter,
        },
        None => shorter,
    }
}

/// Every tree of more than one node is a smaller tree to which its last
/// node has been attached.
pub proof fn lemma_last_was_attached(nodes: Seq<INodeView>)
    requires
        tree_well_formed(nodes),
        nodes.len() <= usize::MAX,
        nodes.len() >= 2,
    ensures
        tree_well_formed(without_last(nodes)),
        without_last(nodes).len() == nodes.len() - 1,
        nodes.last().parent is Some,
        attach_fault(without_last(nodes), nodes.last().parent, nodes.last().inode.name()) is None,
        match nodes.last().inode {
            INodeTypeView::File(file) => file.well_formed(),
            INodeTypeView::Directory(directory) => directory.children.len() == 0,
        },
        attached(without_last(nodes), nodes.last()) == nodes,
{
    let n = nodes.len() - 1;
    let last = nodes[n];
    let prev = without_last(nodes);
    assert(hangs_below_parent(nodes, n));
    let p = last.parent->0 as int;
    let children = children_at(nodes, p);
    let at = choose|k: int| 0 <= k < children.len() && children[k] == n as usize;
    assert(at == children.len() - 1) by {
        if at < children.len() - 1 {
            assert(children_ascend(nodes, p, at, children.len() - 1));
            assert(child_in_place(nodes, p, children.len() - 1));
        }
    }
    let fewer = children.drop_last();
    assert(children_at(prev, p) == fewer);
    assert(fewer.push(n as usize) == children);
    if let INodeTypeView::Directory(directory) = last.inode {
        if directory.children.len() > 0 {
            assert(child_in_place(nodes, n, 0));
        }
    }
    assert(attached(prev, last) =~= nodes);
    assert forall|i: int| 0 <= i < n implies name_at(prev, i) == name_at(nodes, i) && prev[i].parent
        == nodes[i].parent && (is_directory_at(prev, i) <==> is_directory_at(nodes, i)) && (i != p
        ==> prev[i] == nodes[i]) by {}
    assert forall|i: int| 0 < i < prev.len() implies #[trigger] hangs_below_parent(prev, i) by {
        assert(hangs_below_parent(nodes, i));
        let q = nodes[i].parent->0 as int;
        let k = choose|k: int|
            0 <= k < children_at(nodes, q).len() && children_at(nodes, q)[k] == i as usize;
        assert(children_at(prev, q)[k] == i as usize);
    }
    assert forall|q: int, a: int|
        is_directory_at(prev, q) && 0 <= a < children_at(prev, q).len() implies #[trigger] child_in_place(
        prev,
        q,
        a,
    ) by {
        assert(child_in_place(nodes, q, a));
        if children_at(nodes, q)[a] == n as usize {
            assert(q == p);
            assert(children_ascend(nodes, p, a, at));
        }
    }
    assert forall|q: int, a: int, b: int|
        is_directory_at(prev, q) && 0 <= a < b < children_at(prev, q).len() implies #[trigger] names_differ(
        prev,
        q,
        a,
        b,
    ) by {
        assert(child_in_place(prev, q, a));
        assert(child_in_place(prev, q, b));
        assert(names_differ(nodes, q, a, b));
    }
    assert forall|q: int, a: int, b: int|
        is_directory_at(prev, q) && 0 <= a < b < children_at(prev, q).len() implies #[trigger] children_ascend(
        prev,
        q,
        a,
        b,
    ) by {
        assert(children_ascend(nodes, q, a, b));
    }
    assert(!has_child_named(prev, p, last.inode.name())) by {
        if has_child_named(prev, p, last.inode.name()) {
            let a = choose|a: int|
                0 <= a < fewer.len() && name_at(prev, #[trigger] fewer[a] as int)
                    == last.inode.name();
            assert(child_in_place(prev, p, a));
            assert(names_differ(nodes, p, a, at));
        }
    }
}

/// Two tables in which the files stand at the same places hold equally
/// many files.
pub proof fn lemma_count_by_kind(a: Seq<INodeView>, b: Seq<INodeView>)
    requires
        a.len() == b.len(),
        forall|i: int| 0 <= i < a.len() ==> (a[i].inode is File <==> b[i].inode is File),
    ensures
        count_files(a) == count_files(b),
    decreases a.len(),
{
    reveal(Seq::filter);
    if a.len() > 0 {
        lemma_count_by_kind(a.drop_last(), b.drop_last());
    }
}

/// The files of a tree are the files at and below its root: counting them
/// directory by directory, each directory as the files among its children
/// and the files of its subdirectories, gives the number of the files in
/// the table.
pub proof fn lemma_files_below_root(nodes: Seq<INodeView>)
    requires
        tree_well_formed(nodes),
        nodes.len() <= usize::MAX,
        nodes.len() > 0,
    ensures
        files_below(nodes, 0) == count_files(nodes),
    decreases nodes.len(),
{
    reveal(Seq::filter);
    if nodes.len() == 1 {
        assert(nodes.drop_last().filter(|node: INodeView| node.inode is File) =~= Seq::empty());
        if let INodeTypeView::Directory(directory) = nodes[0].inode {
            if directory.children.len() > 0 {
                assert(child_in_place(nodes, 0, 0));
            }
        }
    } else {
        let prev = without_last(nodes);
        let last = nodes.last();
        lemma_last_was_attached(nodes);
        lemma_files_below_root(prev);
        lemma_count_after_attach(prev, last, 0);
        lemma_reaches_root(prev, last.parent->0 as int);
        lemma_count_by_kind(prev, nodes.drop_last());
    }
}

/// How many of the first `n` children of the directory at place `p` are
/// files.
pub open spec fn files_held(nodes: Seq<INodeView>, p: int, n: int) -> nat
    decreases n,
{
    if 0 < n <= children_at(nodes, p).len() {
        files_held(nodes, p, n - 1) + if nodes[children_at(nodes, p)[n - 1] as int].inode is File {
            1nat
        } else {
            0nat
        }
    } else {
        0
    }
}

/// The files at and below the directories among the first `n` children of
/// the directory at place `p`.
pub open spec fn files_in_subdirectories(nodes: Seq<INodeView>, p: int, n: int) -> nat
    decreases n,
{
    if 0 < n <= children_at(nodes, p).len() {
        let c = children_at(nodes, p)[n - 1] as int;
        files_in_subdirectories(nodes, p, n - 1) + if nodes[c].inode is Directory {
            files_below(nodes, c)
        } else {
            0nat
        }
    } else {
        0
    }
}

/// The count goes child by child: the files among the first `n` children
/// are the files that the directory holds itself and the files of its
/// subdirectories.
pub proof fn lemma_files_among(nodes: Seq<INodeView>, p: int, n: int)
    requires
        tree_well_formed(nodes),
        is_directory_at(nodes, p),
        0 <= n <= children_at(nodes, p).len(),
    ensures
        files_among(nodes, p, n) == files_held(nodes, p, n) + files_in_subdirectories(nodes, p, n),
    decreases n,
{
    if n > 0 {
        lemma_files_among(nodes, p, n - 1);
        assert(child_in_place(nodes, p, n - 1));
        let c = children_at(nodes, p)[n - 1] as int;
        if nodes[c].inode is File {
            assert(files_below(nodes, c) == 1);
        }
        assert(files_among(nodes, p, n) == files_among(nodes, p, n - 1) + files_below(nodes, c));
    }
}

/// The files at and below a directory are the files that it holds itself
/// and the files at and below each of its subdirectories.
pub proof fn lemma_directory_count(nodes: Seq<INodeView>, p: int)
    requires
        tree_well_formed(nodes),
        is_directory_at(nodes, p),
    ensures
        files_below(nodes, p) == files_held(nodes, p, children_at(nodes, p).len() as int)
            + files_in_subdirectories(nodes, p, children_at(nodes, p).len() as int),
{
    lemma_files_among(nodes, p, children_at(nodes, p).len() as int);
}

/// Node `j` of the grafted tree stands at place `base + j` of the grown
/// table: with its kind and, if it is a file, its content; under the name
/// that the graft was given if it is the root, under its own name if not;
/// and below the new place of its parent.
pub open spec fn graft_in_place(
    grown: Seq<INodeView>,
    sub: Seq<INodeView>,
    base: int,
    parent: usize,
    name: Seq<char>,
    j: int,
) -> bool {
    let node = grown[base + j];
    let wanted = graft_node(sub, j, base, parent, name);
    &&& match sub[j].inode {
        INodeTypeView::File(_) => node.inode == wanted.inode,
        INodeTypeView::Directory(_) => node.inode is Directory && node.inode.name()
            == wanted.inode.name(),
    }
    &&& node.parent == wanted.parent
}

/// What holds of a table into which the first `n` nodes of `sub` have
/// been grafted.
pub open spec fn grafted(
    nodes: Seq<INodeView>,
    sub: Seq<INodeView>,
    parent: usize,
    name: Seq<char>,
    n: int,
    grown: Seq<INodeView>,
) -> bool {
    &&& tree_well_formed(grown)
    &&& grown.len() == nodes.len() + n
    &&& forall|i: int|
        0 <= i < nodes.len() ==> name_at(grown, i) == name_at(nodes, i) && (#[trigger] grown[i]).parent
            == nodes[i].parent && (grown[i].inode is File ==> grown[i] == nodes[i]) && (
        grown[i].inode is Directory <==> nodes[i].inode is Directory)
    &&& forall|j: int|
        0 <= j < n ==> #[trigger] graft_in_place(grown, sub, nodes.len() as int, parent, name, j)
}

/// When a graft succeeds: exactly where its root can be attached. Then
/// every node of the grafted tree has its place in the grown tree, in the
/// order of the grafted tree, and what was in the tree before is still
/// there.
pub proof fn lemma_graft(
    nodes: Seq<INodeView>,
    sub: Seq<INodeView>,
    parent: usize,
    name: Seq<char>,
    n: int,
)
    requires
        tree_well_formed(nodes),
        tree_well_formed(sub),
        nodes.len() + sub.len() <= usize::MAX,
        1 <= n <= sub.len(),
    ensures
        match attach_fault(nodes, Some(parent), name) {
            Some(kind) => graft_outcome(nodes, sub, parent, name, n) == Err::<
                Seq<INodeView>,
                ErrorKindView,
            >(kind),
            None => graft_outcome(nodes, sub, parent, name, n) matches Ok(grown) && grafted(
                nodes,
                sub,
                parent,
                name,
                n,
                grown,
            ),
        },
    decreases n,
{
    let base = nodes.len() as int;
    let node = graft_node(sub, n - 1, base, parent, name);
    if n == 1 {
        assert(graft_outcome(nodes, sub, parent, name, 0) == Ok::<Seq<INodeView>, ErrorKindView>(
            nodes,
        ));
        if attach_fault(nodes, Some(parent), name) is None {
            if let INodeTypeView::File(file) = sub[0].inode {
                lemma_extension_of_file(name, file.data);
            }
            lemma_attached_well_formed(nodes, node);
            let grown = attached(nodes, node);
            assert(graft_in_place(grown, sub, base, parent, name, 0));
        }
    } else {
        lemma_graft(nodes, sub, parent, name, n - 1);
        if attach_fault(nodes, Some(parent), name) is None {
            let before = graft_outcome(nodes, sub, parent, name, n - 1)->Ok_0;
            let j = n - 1;
            assert(hangs_below_parent(sub, j));
            let q = sub[j].parent->0 as int;
            let up = (base + q) as usize;
            assert(graft_in_place(before, sub, base, parent, name, q));
            assert(is_directory_at(before, base + q));
            assert(!has_child_named(before, base + q, node.inode.name())) by {
                if has_child_named(before, base + q, node.inode.name()) {
                    let children = children_at(before, base + q);
                    let a = choose|a: int|
                        0 <= a < children.len() && name_at(before, #[trigger] children[a] as int)
                            == node.inode.name();
                    assert(child_in_place(before, base + q, a));
                    let c = children[a] as int - base;
                    assert(graft_in_place(before, sub, base, parent, name, c));
                    assert(c != 0);
                    assert(hangs_below_parent(sub, c));
                    assert(sub[c].parent == Some(q as usize));
                    let siblings = children_at(sub, q);
                    let x = choose|x: int| 0 <= x < siblings.len() && siblings[x] == c as usize;
                    let y = choose|y: int| 0 <= y < siblings.len() && siblings[y] == j as usize;
                    if x < y {
                        assert(names_differ(sub, q, x, y));
                    } else if y < x {
                        assert(names_differ(sub, q, y, x));
                    }
                }
            }
            lemma_attached_well_formed(before, node);
            let grown = attached(before, node);
            assert forall|i: int| 0 <= i < before.len() implies name_at(grown, i) == name_at(
                before,
                i,
            ) && grown[i].parent == before[i].parent && (before[i].inode is File ==> grown[i]
                == before[i]) && (grown[i].inode is Directory <==> before[i].inode is Directory) by {}
            assert forall|k: int| 0 <= k < n implies #[trigger] graft_in_place(
                grown,
                sub,
                base,
                parent,
                name,
                k,
            ) by {
                if k < j {
                    assert(graft_in_place(before, sub, base, parent, name, k));
                }
            }
        } else {
            lemma_graft_stays_refused(nodes, sub, parent, name, n - 1, n);
        }
    }
}

/// A file made of a name and of content is as long as its content, and its
/// extension is the one that the name gives.
proof fn lemma_extension_of_file(name: Seq<char>, data: Seq<u8>)
    ensures
        file_of(name, data).well_formed(),
{
}

/// Opening directories takes nothing away from the tree.
pub proof fn lemma_directories_grow(nodes: Seq<INodeView>, at: usize, names: Seq<Seq<char>>)
    ensures
        directories_outcome(nodes, at, names) matches Ok(opened) ==> opened.0.len() >= nodes.len(),
    decreases names.len(),
{
    if names.len() > 0 {
        if let Ok((next, place)) = directory_outcome(nodes, at, names[0]) {
            lemma_directories_grow(next, place, names.skip(1));
        }
    }
}

/// A graft takes nothing away from the tree.
pub proof fn lemma_graft_grows(
    nodes: Seq<INodeView>,
    sub: Seq<INodeView>,
    parent: usize,
    name: Seq<char>,
    n: int,
)
    ensures
        graft_outcome(nodes, sub, parent, name, n) matches Ok(grown) ==> grown.len() >= nodes.len(),
    decreases n,
{
    if n > 0 {
        lemma_graft_grows(nodes, sub, parent, name, n - 1);
    }
}

} // verus!
