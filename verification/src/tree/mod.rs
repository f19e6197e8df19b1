//! The tree of nodes: a table in which every node has a place, the root the
//! first one. A directory names its children by their places and every node
//! names its parent by its place, so that no node owns what lies above it.

pub mod laws;

use crate::error::{fresh_error, Error, ErrorKind, ErrorKindView};
use crate::inode::{
    create_kosmora_directory, file_of, DirectoryView, INodeTypeView, INodeView, KosmoraFile,
    KosmoraINode, KosmoraINodeType,
};
use crate::path::name_views;
use vstd::prelude::*;

verus! {

/// The nodes of `nodes`, each by its value.
pub open spec fn node_views(nodes: Seq<KosmoraINode>) -> Seq<INodeView> {
    nodes.map_values(|node: KosmoraINode| node@)
}

/// Whether place `i` of the table holds a directory.
pub open spec fn is_directory_at(nodes: Seq<INodeView>, i: int) -> bool {
    0 <= i < nodes.len() && nodes[i].inode is Directory
}

/// The places of the children of the node at place `i`; a file has none.
pub open spec fn children_at(nodes: Seq<INodeView>, i: int) -> Seq<usize> {
    match nodes[i].inode {
        INodeTypeView::Directory(directory) => directory.children,
        INodeTypeView::File(_) => Seq::empty(),
    }
}

/// The name of the node at place `i`.
pub open spec fn name_at(nodes: Seq<INodeView>, i: int) -> Seq<char> {
    nodes[i].inode.name()
}

/// The node at place `i` names as its parent a directory that stands before
/// it and that counts it among its children.
pub open spec fn hangs_below_parent(nodes: Seq<INodeView>, i: int) -> bool {
    match nodes[i].parent {
        Some(p) => p < i && is_directory_at(nodes, p as int) && children_at(
            nodes,
            p as int,
        ).contains(i as usize),
        None => false,
    }
}

/// Child number `a` of the directory at place `p` stands behind the
/// directory in the table and names it as its parent.
pub open spec fn child_in_place(nodes: Seq<INodeView>, p: int, a: int) -> bool {
    let c = children_at(nodes, p)[a];
    p < c < nodes.len() && nodes[c as int].parent == Some(p as usize)
}

/// The children number `a` and `b` of the directory at place `p` have
/// different names.
pub open spec fn names_differ(nodes: Seq<INodeView>, p: int, a: int, b: int) -> bool {
    name_at(nodes, children_at(nodes, p)[a] as int) != name_at(
        nodes,
        children_at(nodes, p)[b] as int,
    )
}

/// The children number `a` and `b` of the directory at place `p` are
/// counted in the order of their places.
pub open spec fn children_ascend(nodes: Seq<INodeView>, p: int, a: int, b: int) -> bool {
    children_at(nodes, p)[a] < children_at(nodes, p)[b]
}

/// What makes a table of nodes a tree: the first node is the root and has
/// no parent; every other node hangs below a directory before it; what a
/// directory counts among its children names that directory as its parent;
/// no two children of a directory share a name; a directory counts its
/// children in the order in which they were attached; and every file is as
/// long as its metadata say.
pub open spec fn tree_well_formed(nodes: Seq<INodeView>) -> bool {
    &&& nodes.len() > 0 ==> nodes[0].parent is None
    &&& forall|i: int| 0 < i < nodes.len() ==> #[trigger] hangs_below_parent(nodes, i)
    &&& forall|p: int, a: int|
        is_directory_at(nodes, p) && 0 <= a < children_at(nodes, p).len() ==> #[trigger] child_in_place(
            nodes,
            p,
            a,
        )
    &&& forall|p: int, a: int, b: int|
        is_directory_at(nodes, p) && 0 <= a < b < children_at(nodes, p).len() ==> #[trigger] names_differ(
            nodes,
            p,
            a,
            b,
        )
    &&& forall|p: int, a: int, b: int|
        is_directory_at(nodes, p) && 0 <= a < b < children_at(nodes, p).len() ==> #[trigger] children_ascend(
            nodes,
            p,
            a,
            b,
        )
    &&& forall|i: int|
        0 <= i < nodes.len() ==> (#[trigger] nodes[i].inode matches INodeTypeView::File(file)
            ==> file.well_formed())
}

/// Whether the directory at place `p` has a child named `name`.
pub open spec fn has_child_named(nodes: Seq<INodeView>, p: int, name: Seq<char>) -> bool {
    exists|a: int|
        0 <= a < children_at(nodes, p).len() && name_at(
            nodes,
            #[trigger] children_at(nodes, p)[a] as int,
        ) == name
}

/// Whether `c` is the place of a child of the directory at place `p`, and
/// that child is named `name`.
pub open spec fn is_child_named(nodes: Seq<INodeView>, p: int, name: Seq<char>, c: usize) -> bool {
    is_directory_at(nodes, p) && children_at(nodes, p).contains(c) && name_at(nodes, c as int)
        == name
}

/// The place of the child named `name` of the directory at place `p`, if
/// the directory has such a child.
pub open spec fn child_named(nodes: Seq<INodeView>, p: int, name: Seq<char>) -> Option<usize> {
    if is_directory_at(nodes, p) && has_child_named(nodes, p, name) {
        Some(choose|c: usize| is_child_named(nodes, p, name, c))
    } else {
        None
    }
}

/// Children are keyed by their names: in a tree, a directory has at most
/// one child of a given name.
pub proof fn lemma_child_unique(nodes: Seq<INodeView>, p: int, name: Seq<char>, c: usize, d: usize)
    requires
        tree_well_formed(nodes),
        is_child_named(nodes, p, name, c),
        is_child_named(nodes, p, name, d),
    ensures
        c == d,
        child_named(nodes, p, name) == Some(c),
{
    let children = children_at(nodes, p);
    let a = choose|a: int| 0 <= a < children.len() && children[a] == c;
    let b = choose|b: int| 0 <= b < children.len() && children[b] == d;
    if a < b {
        assert(names_differ(nodes, p, a, b));
    } else if b < a {
        assert(names_differ(nodes, p, b, a));
    }
    assert(name_at(nodes, children[a] as int) == name);
    let chosen = choose|c: usize| is_child_named(nodes, p, name, c);
    let e = choose|e: int| 0 <= e < children.len() && children[e] == chosen;
    if a < e {
        assert(names_differ(nodes, p, a, e));
    } else if e < a {
        assert(names_differ(nodes, p, e, a));
    }
}

/// Why a node named `name` cannot be attached below `parent`, if it cannot.
/// A tree has one root; a parent must be there and must be a directory; and
/// no directory takes two children of one name.
pub open spec fn attach_fault(nodes: Seq<INodeView>, parent: Option<usize>, name: Seq<char>) -> Option<
    ErrorKindView,
> {
    match parent {
        None => if nodes.len() > 0 {
            Some(ErrorKindView::DuplicateName)
        } else {
            None
        },
        Some(p) => if p >= nodes.len() {
            Some(ErrorKindView::NotFound)
        } else if !(nodes[p as int].inode is Directory) {
            Some(ErrorKindView::UnsupportedPathType)
        } else if has_child_named(nodes, p as int, name) {
            Some(ErrorKindView::DuplicateName)
        } else {
            None
        },
    }
}

/// The table after `node` has been attached: the node stands at the end,
/// and its parent counts it as its last child.
pub open spec fn attached(nodes: Seq<INodeView>, node: INodeView) -> Seq<INodeView> {
    match node.parent {
        Some(p) => nodes.update(p as int, nodes[p as int].with_child(nodes.len() as usize)).push(
            node,
        ),
        None => nodes.push(node),
    }
}

/// The number of files in the table.
pub open spec fn count_files(nodes: Seq<INodeView>) -> nat {
    nodes.filter(|node: INodeView| node.inode is File).len()
}

/// Attaching a node where nothing speaks against it keeps a tree a tree.
pub proof fn lemma_attached_well_formed(nodes: Seq<INodeView>, node: INodeView)
    requires
        tree_well_formed(nodes),
        nodes.len() <= usize::MAX,
        attach_fault(nodes, node.parent, node.inode.name()) is None,
        match node.inode {
            INodeTypeView::File(file) => file.well_formed(),
            INodeTypeView::Directory(directory) => directory.children.len() == 0,
        },
    ensures
        tree_well_formed(attached(nodes, node)),
{
    let n = nodes.len() as int;
    let grown = attached(nodes, node);
    assert(grown.len() == n + 1);
    assert(grown[n] == node);
    match node.parent {
        None => {
            assert(n == 0);
        },
        Some(parent) => {
            let p = parent as int;
            let before = children_at(nodes, p);
            assert(children_at(grown, p) == before.push(n as usize));
            assert forall|i: int| 0 <= i < n implies name_at(grown, i) == name_at(nodes, i)
                && grown[i].parent == nodes[i].parent && (is_directory_at(grown, i)
                <==> is_directory_at(nodes, i)) && (i != p ==> grown[i] == nodes[i]) by {}
            assert forall|i: int| 0 < i < grown.len() implies #[trigger] hangs_below_parent(
                grown,
                i,
            ) by {
                if i < n {
                    assert(hangs_below_parent(nodes, i));
                    let q = nodes[i].parent->0 as int;
                    let k = choose|k: int|
                        0 <= k < children_at(nodes, q).len() && children_at(nodes, q)[k] == i as usize;
                    assert(children_at(grown, q)[k] == i as usize);
                } else {
                    assert(children_at(grown, p)[before.len() as int] == n as usize);
                }
            }
            assert forall|q: int, a: int|
                is_directory_at(grown, q) && 0 <= a < children_at(grown, q).len() implies #[trigger] child_in_place(
                grown,
                q,
                a,
            ) by {
                if q < n && !(q == p && a == before.len()) {
                    assert(child_in_place(nodes, q, a));
                }
            }
            assert forall|q: int, a: int, b: int|
                is_directory_at(grown, q) && 0 <= a < b < children_at(grown, q).len() implies #[trigger] names_differ(
                grown,
                q,
                a,
                b,
            ) by {
                if q < n {
                    assert(child_in_place(nodes, q, a));
                    if q == p && b == before.len() {
                        assert(name_at(nodes, before[a] as int) != node.inode.name());
                    } else {
                        assert(child_in_place(nodes, q, b));
                        assert(names_differ(nodes, q, a, b));
                    }
                }
            }
            assert forall|q: int, a: int, b: int|
                is_directory_at(grown, q) && 0 <= a < b < children_at(grown, q).len() implies #[trigger] children_ascend(
                grown,
                q,
                a,
                b,
            ) by {
                if q < n {
                    assert(child_in_place(nodes, q, a));
                    if !(q == p && b == before.len()) {
                        assert(children_ascend(nodes, q, a, b));
                    }
                }
            }
        },
    }
}

/// Looks among the children of the node at place `dir` for one that is
/// named `name`.
fn find_child(nodes: &Vec<KosmoraINode>, dir: usize, name: &String) -> (out: Option<usize>)
    requires
        tree_well_formed(node_views(nodes@)),
    ensures
        out == child_named(node_views(nodes@), dir as int, name@),
        match out {
            Some(c) => is_child_named(node_views(nodes@), dir as int, name@, c),
            None => !is_directory_at(node_views(nodes@), dir as int) || !has_child_named(
                node_views(nodes@),
                dir as int,
                name@,
            ),
        },
{
    if dir >= nodes.len() {
        return None;
    }
    let ghost table = node_views(nodes@);
    match nodes[dir].inode() {
        KosmoraINodeType::File(_) => None,
        KosmoraINodeType::Directory(directory) => {
            let children = directory.children();
            let mut a: usize = 0;
            while a < children.len()
                invariant
                    a <= children.len(),
                    table == node_views(nodes@),
                    tree_well_formed(table),
                    is_directory_at(table, dir as int),
                    children@ == children_at(table, dir as int),
                    forall|k: int| 0 <= k < a ==> name_at(table, children@[k] as int) != name@,
                decreases children.len() - a,
            {
                let c = children[a];
                assert(child_in_place(table, dir as int, a as int));
                if *nodes[c].name() == *name {
                    proof {
                        lemma_child_unique(table, dir as int, name@, c, c);
                    }
                    return Some(c);
                }
                a += 1;
            }
            None
        },
    }
}

/// Counts the files among `nodes`.
fn count_file_nodes(nodes: &Vec<KosmoraINode>) -> (out: usize)
    ensures
        out == count_files(node_views(nodes@)),
{
    let ghost table = node_views(nodes@);
    let ghost is_file = |node: INodeView| node.inode is File;
    let mut count: usize = 0;
    let mut i: usize = 0;
    proof {
        reveal(Seq::filter);
        assert(table.take(0).filter(is_file) =~= Seq::empty());
    }
    while i < nodes.len()
        invariant
            i <= nodes.len(),
            table == node_views(nodes@),
            is_file == (|node: INodeView| node.inode is File),
            count == table.take(i as int).filter(is_file).len(),
            count <= i,
        decreases nodes.len() - i,
    {
        proof {
            reveal(Seq::filter);
            assert(table.take(i + 1).drop_last() == table.take(i as int));
        }
        if nodes[i].inode().is_file() {
            count += 1;
        }
        i += 1;
    }
    proof {
        assert(table.take(nodes.len() as int) == table);
    }
    count
}

/// What speaks against attaching a node named `name` below `parent`, if
/// anything does.
fn refusal(nodes: &Vec<KosmoraINode>, parent: Option<usize>, name: &String) -> (out: Option<ErrorKind>)
    requires
        tree_well_formed(node_views(nodes@)),
    ensures
        match out {
            Some(kind) => attach_fault(node_views(nodes@), parent, name@) == Some(kind@),
            None => attach_fault(node_views(nodes@), parent, name@) is None,
        },
{
    match parent {
        None => if nodes.len() > 0 {
            Some(ErrorKind::DuplicateName)
        } else {
            None
        },
        Some(p) => if p >= nodes.len() {
            Some(ErrorKind::NotFound)
        } else if !nodes[p].inode().is_directory() {
            Some(ErrorKind::UnsupportedPathType)
        } else {
            match find_child(nodes, p, name) {
                Some(c) => {
                    proof {
                        let table = node_views(nodes@);
                        let k = choose|k: int|
                            0 <= k < children_at(table, p as int).len() && children_at(
                                table,
                                p as int,
                            )[k] == c;
                        assert(name_at(table, children_at(table, p as int)[k] as int) == name@);
                    }
                    Some(ErrorKind::DuplicateName)
                },
                None => None,
            }
        },
    }
}

/// A tree under construction. Nodes are attached one by one, each below a
/// directory that is already there; a name that its directory already holds
/// is refused.
#[derive(Debug, PartialEq, Eq)]
pub struct KosmoraFsBuilder {
    nodes: Vec<KosmoraINode>,
}

impl View for KosmoraFsBuilder {
    type V = Seq<INodeView>;

    closed spec fn view(&self) -> Seq<INodeView> {
        node_views(self.nodes@)
    }
}

impl KosmoraFsBuilder {
    /// What holds of every value of the type.
    #[verifier::type_invariant]
    pub open spec fn valid(self) -> bool {
        tree_well_formed(self@)
    }

    /// A builder without nodes.
    pub fn new() -> (out: Self)
        ensures
            out@.len() == 0,
    {
        Self { nodes: Vec::new() }
    }

    /// The number of nodes attached so far.
    pub fn len(&self) -> (out: usize)
        ensures
            out == self@.len(),
            tree_well_formed(self@),
    {
        proof {
            use_type_invariant(self);
        }
        self.nodes.len()
    }

    /// The place of the child named `name` of the directory at place `dir`.
    pub fn get_child(&self, dir: usize, name: &str) -> (out: Option<usize>)
        ensures
            tree_well_formed(self@),
            out == child_named(self@, dir as int, name@),
            match out {
                Some(c) => is_child_named(self@, dir as int, name@, c),
                None => !is_directory_at(self@, dir as int) || !has_child_named(
                    self@,
                    dir as int,
                    name@,
                ),
            },
    {
        proof {
            use_type_invariant(self);
        }
        let name = String::from_str(name);
        find_child(&self.nodes, dir, &name)
    }

    /// Attaches `node` below the parent that it names.
    fn attach(&mut self, node: KosmoraINode) -> (out: Result<usize, Error>)
        requires
            match node@.inode {
                INodeTypeView::File(file) => file.well_formed(),
                INodeTypeView::Directory(directory) => directory.children.len() == 0,
            },
        ensures
            tree_well_formed(old(self)@),
            final(self)@.len() <= usize::MAX,
            match out {
                Ok(place) => attach_fault(old(self)@, node@.parent, node@.inode.name()) is None
                    && place == old(self)@.len() && final(self)@ == attached(old(self)@, node@),
                Err(e) => attach_fault(old(self)@, node@.parent, node@.inode.name()) == Some(
                    e@.kind,
                ) && e@ == fresh_error(e@.kind) && final(self)@ == old(self)@,
            },
    {
        proof {
            use_type_invariant(&*self);
            assert(self.nodes@.len() == self.nodes.len());
        }
        match refusal(&self.nodes, node.parent(), node.name()) {
            Some(kind) => {
                return Err(Error::new(kind));
            },
            None => {},
        }
        let place = self.nodes.len();
        proof {
            lemma_attached_well_formed(self@, node@);
        }
        let mut nodes = Vec::new();
        std::mem::swap(&mut nodes, &mut self.nodes);
        match node.parent() {
            Some(p) => {
                nodes[p].push_child(place);
            },
            None => {},
        }
        nodes.push(node);
        assert(node_views(nodes@) == attached(old(self)@, node@));
        assert(nodes@.len() == nodes.len());
        self.nodes = nodes;
        Ok(place)
    }

    /// Attaches `file` below the directory at place `parent`, or as the root
    /// where `parent` is none, and tells its place.
    pub fn add_file(&mut self, parent: Option<usize>, file: KosmoraFile) -> (out: Result<usize, Error>)
        ensures
            tree_well_formed(old(self)@),
            final(self)@.len() <= usize::MAX,
            match out {
                Ok(place) => attach_fault(old(self)@, parent, file@.metadata.name) is None
                    && place == old(self)@.len() && final(self)@ == attached(
                    old(self)@,
                    INodeView { inode: INodeTypeView::File(file@), parent },
                ),
                Err(e) => attach_fault(old(self)@, parent, file@.metadata.name) == Some(e@.kind)
                    && e@ == fresh_error(e@.kind) && final(self)@ == old(self)@,
            },
    {
        proof {
            use_type_invariant(&file);
        }
        let node = KosmoraINode::new(KosmoraINodeType::File(file), parent);
        self.attach(node)
    }

    /// Attaches an empty directory named `name` below the directory at place
    /// `parent`, or as the root where `parent` is none, and tells its place.
    pub fn add_directory(&mut self, parent: Option<usize>, name: String) -> (out: Result<
        usize,
        Error,
    >)
        ensures
            tree_well_formed(old(self)@),
            final(self)@.len() <= usize::MAX,
            match out {
                Ok(place) => attach_fault(old(self)@, parent, name@) is None && place == old(
                    self,
                )@.len() && final(self)@ == attached(old(self)@, empty_directory(name@, parent)),
                Err(e) => attach_fault(old(self)@, parent, name@) == Some(e@.kind) && e@
                    == fresh_error(e@.kind) && final(self)@ == old(self)@,
            },
    {
        let node = create_kosmora_directory(name, parent, Vec::new());
        self.attach(node)
    }
}

/// The node of a directory named `name` that has no children yet.
pub open spec fn empty_directory(name: Seq<char>, parent: Option<usize>) -> INodeView {
    INodeView {
        inode: INodeTypeView::Directory(
            DirectoryView { name, children: Seq::empty() },
        ),
        parent,
    }
}

impl KosmoraFsBuilder {
    /// Ends the construction. A builder without nodes has found nothing to
    /// make a tree of.
    pub fn build(self) -> (out: Result<KosmoraFs, Error>)
        ensures
            match out {
                Ok(fs) => self@.len() > 0 && fs@ == self@,
                Err(e) => self@.len() == 0 && e@ == fresh_error(ErrorKindView::NotFound),
            },
    {
        proof {
            use_type_invariant(&self);
        }
        if self.nodes.len() == 0 {
            Err(Error::new(ErrorKind::NotFound))
        } else {
            Ok(KosmoraFs { nodes: self.nodes })
        }
    }
}

/// A finished tree. It has a root, at place 0, and is never changed again.
#[derive(Debug, PartialEq, Eq)]
pub struct KosmoraFs {
    nodes: Vec<KosmoraINode>,
}

impl View for KosmoraFs {
    type V = Seq<INodeView>;

    closed spec fn view(&self) -> Seq<INodeView> {
        node_views(self.nodes@)
    }
}

impl KosmoraFs {
    /// What holds of every value of the type.
    #[verifier::type_invariant]
    pub open spec fn valid(self) -> bool {
        self@.len() > 0 && tree_well_formed(self@)
    }

    /// The number of nodes of the tree.
    pub fn len(&self) -> (out: usize)
        ensures
            out == self@.len(),
            out > 0,
            tree_well_formed(self@),
    {
        proof {
            use_type_invariant(self);
        }
        self.nodes.len()
    }

    /// The root of the tree.
    pub fn root(&self) -> (out: &KosmoraINode)
        ensures
            self@.len() > 0,
            out@ == self@[0],
    {
        proof {
            use_type_invariant(self);
        }
        &self.nodes[0]
    }

    /// The node at place `place`, if the tree has that many nodes.
    pub fn get(&self, place: usize) -> (out: Option<&KosmoraINode>)
        ensures
            match out {
                Some(node) => place < self@.len() && node@ == self@[place as int],
                None => place >= self@.len(),
            },
    {
        if place < self.nodes.len() {
            Some(&self.nodes[place])
        } else {
            None
        }
    }

    /// The place of the parent of the node at place `place`. The root has
    /// none, and neither has a place beyond the tree.
    pub fn parent(&self, place: usize) -> (out: Option<usize>)
        ensures
            out == if place < self@.len() {
                self@[place as int].parent
            } else {
                None
            },
    {
        if place < self.nodes.len() {
            self.nodes[place].parent()
        } else {
            None
        }
    }

    /// The place of the child named `name` of the directory at place `dir`.
    pub fn get_child(&self, dir: usize, name: &str) -> (out: Option<usize>)
        ensures
            tree_well_formed(self@),
            out == child_named(self@, dir as int, name@),
            match out {
                Some(c) => is_child_named(self@, dir as int, name@, c),
                None => !is_directory_at(self@, dir as int) || !has_child_named(
                    self@,
                    dir as int,
                    name@,
                ),
            },
    {
        proof {
            use_type_invariant(self);
        }
        let name = String::from_str(name);
        find_child(&self.nodes, dir, &name)
    }

    /// The number of files in the tree.
    pub fn file_count(&self) -> (out: usize)
        ensures
            out == count_files(self@),
    {
        count_file_nodes(&self.nodes)
    }

    /// The places of the directories above the node at place `place`, from
    /// its parent up to the root.
    pub fn read_upwards(&self, place: usize) -> (out: Vec<usize>)
        ensures
            out@ == ancestors(self@, place as int),
    {
        proof {
            use_type_invariant(self);
        }
        let mut chain: Vec<usize> = Vec::new();
        if place >= self.nodes.len() {
            return chain;
        }
        let ghost table = self@;
        let mut at = place;
        loop
            invariant
                table == node_views(self.nodes@),
                tree_well_formed(table),
                at < table.len(),
                chain@ + ancestors(table, at as int) == ancestors(table, place as int),
            ensures
                chain@ == ancestors(table, place as int),
            decreases at,
        {
            match self.nodes[at].parent() {
                Some(up) => {
                    proof {
                        assert(hangs_below_parent(table, at as int));
                        assert(chain@.push(up) + ancestors(table, up as int) =~= chain@
                            + ancestors(table, at as int));
                    }
                    chain.push(up);
                    at = up;
                },
                None => {
                    assert(chain@ + ancestors(table, at as int) =~= chain@);
                    break ;
                },
            }
        }
        chain
    }
}

/// The places of the directories above the node at place `i`: its parent,
/// the parent of its parent, and so on up to the root.
pub open spec fn ancestors(nodes: Seq<INodeView>, i: int) -> Seq<usize>
    decreases i,
{
    if 0 <= i < nodes.len() {
        match nodes[i].parent {
            Some(p) => if p < i {
                seq![p] + ancestors(nodes, p as int)
            } else {
                Seq::empty()
            },
            None => Seq::empty(),
        }
    } else {
        Seq::empty()
    }
}

/// What opening the directory named `name` below the directory at place
/// `parent` gives: the place of the child of that name if it is a
/// directory, the place of a new empty directory if there is no such child,
/// and a collision if the child is a file.
pub open spec fn directory_outcome(nodes: Seq<INodeView>, parent: usize, name: Seq<char>) -> Result<
    (Seq<INodeView>, usize),
    ErrorKindView,
> {
    match child_named(nodes, parent as int, name) {
        Some(c) => if nodes[c as int].inode is Directory {
            Ok((nodes, c))
        } else {
            Err(ErrorKindView::DuplicateName)
        },
        None => match attach_fault(nodes, Some(parent), name) {
            Some(kind) => Err(kind),
            None => Ok((attached(nodes, empty_directory(name, Some(parent))), nodes.len() as usize)),
        },
    }
}

/// What opening a chain of directories gives, each below the one before it,
/// the first below the directory at place `at`.
pub open spec fn directories_outcome(nodes: Seq<INodeView>, at: usize, names: Seq<Seq<char>>) -> Result<
    (Seq<INodeView>, usize),
    ErrorKindView,
>
    decreases names.len(),
{
    if names.len() == 0 {
        Ok((nodes, at))
    } else {
        match directory_outcome(nodes, at, names[0]) {
            Err(kind) => Err(kind),
            Ok((next, place)) => directories_outcome(next, place, names.skip(1)),
        }
    }
}

/// The node that node `j` of the tree `sub` becomes when `sub` is grafted
/// below the directory at place `parent` of a tree that had `base` nodes
/// before: the root of `sub` takes the name `name` and hangs below `parent`,
/// every other node keeps its name and hangs below the new place of its
/// parent. A directory comes without its children, which follow.
pub open spec fn graft_node(
    sub: Seq<INodeView>,
    j: int,
    base: int,
    parent: usize,
    name: Seq<char>,
) -> INodeView {
    let up = if j == 0 {
        Some(parent)
    } else {
        match sub[j].parent {
            Some(q) => Some((base + q) as usize),
            None => None,
        }
    };
    match sub[j].inode {
        INodeTypeView::File(file) => INodeView {
            inode: INodeTypeView::File(
                if j == 0 {
                    file_of(name, file.data)
                } else {
                    file
                },
            ),
            parent: up,
        },
        INodeTypeView::Directory(directory) => empty_directory(
            if j == 0 {
                name
            } else {
                directory.name
            },
            up,
        ),
    }
}

/// What grafting the first `n` nodes of `sub` gives.
pub open spec fn graft_outcome(
    nodes: Seq<INodeView>,
    sub: Seq<INodeView>,
    parent: usize,
    name: Seq<char>,
    n: int,
) -> Result<Seq<INodeView>, ErrorKindView>
    decreases n,
{
    if n <= 0 {
        Ok(nodes)
    } else {
        match graft_outcome(nodes, sub, parent, name, n - 1) {
            Err(kind) => Err(kind),
            Ok(grown) => {
                let node = graft_node(sub, n - 1, nodes.len() as int, parent, name);
                match attach_fault(grown, node.parent, node.inode.name()) {
                    Some(kind) => Err(kind),
                    None => Ok(attached(grown, node)),
                }
            },
        }
    }
}

/// Once a node of `sub` has been refused, the nodes behind it change
/// nothing.
pub proof fn lemma_graft_stays_refused(
    nodes: Seq<INodeView>,
    sub: Seq<INodeView>,
    parent: usize,
    name: Seq<char>,
    n: int,
    m: int,
)
    requires
        0 <= n <= m,
        graft_outcome(nodes, sub, parent, name, n) is Err,
    ensures
        graft_outcome(nodes, sub, parent, name, m) == graft_outcome(nodes, sub, parent, name, n),
    decreases m,
{
    if n < m {
        lemma_graft_stays_refused(nodes, sub, parent, name, n, m - 1);
    }
}

impl KosmoraFsBuilder {
    /// Opens the directory named `name` below the directory at place
    /// `parent`: the one that is there, or a new one.
    pub fn open_directory(self, parent: usize, name: String) -> (out: Result<(Self, usize), Error>)
        ensures
            match out {
                Ok((next, place)) => directory_outcome(self@, parent, name@) == Ok::<
                    (Seq<INodeView>, usize),
                    ErrorKindView,
                >((next@, place)),
                Err(e) => directory_outcome(self@, parent, name@) == Err::<
                    (Seq<INodeView>, usize),
                    ErrorKindView,
                >(e@.kind) && e@ == fresh_error(e@.kind),
            },
    {
        proof {
            use_type_invariant(&self);
        }
        let mut builder = self;
        match find_child(&builder.nodes, parent, &name) {
            Some(c) => {
                assert(child_in_place(builder@, parent as int, choose|a: int|
                    0 <= a < children_at(builder@, parent as int).len() && children_at(
                        builder@,
                        parent as int,
                    )[a] == c));
                if builder.nodes[c].inode().is_directory() {
                    Ok((builder, c))
                } else {
                    Err(Error::new(ErrorKind::DuplicateName))
                }
            },
            None => match builder.add_directory(Some(parent), name) {
                Ok(place) => Ok((builder, place)),
                Err(e) => Err(e),
            },
        }
    }

    /// Opens a chain of directories, each below the one before it, the
    /// first below the directory at place `at`, and tells the place of the
    /// last.
    pub fn open_directories(self, at: usize, names: Vec<String>) -> (out: Result<(Self, usize), Error>)
        ensures
            match out {
                Ok((next, place)) => directories_outcome(self@, at, name_views(names@)) == Ok::<
                    (Seq<INodeView>, usize),
                    ErrorKindView,
                >((next@, place)),
                Err(e) => directories_outcome(self@, at, name_views(names@)) == Err::<
                    (Seq<INodeView>, usize),
                    ErrorKindView,
                >(e@.kind) && e@ == fresh_error(e@.kind),
            },
    {
        let ghost all = name_views(names@);
        let mut builder = self;
        let mut place = at;
        assert(all.skip(0) == all);
        for name in it: names
            invariant
                it.seq() == names@,
                all == name_views(names@),
                directories_outcome(self@, at, all) == directories_outcome(
                    builder@,
                    place,
                    all.skip(it.index()),
                ),
        {
            proof {
                let rest = all.skip(it.index());
                assert(rest[0] == name@);
                assert(rest.skip(1) == all.skip(it.index() + 1));
            }
            match builder.open_directory(place, name) {
                Ok((next, below)) => {
                    builder = next;
                    place = below;
                },
                Err(e) => {
                    return Err(e);
                },
            }
        }
        Ok((builder, place))
    }

    /// Grafts the tree `fs` below the directory at place `parent`: its
    /// root takes the name `name`, and every node of it follows in its
    /// order.
    pub fn graft(self, parent: usize, name: String, fs: KosmoraFs) -> (out: Result<Self, Error>)
        ensures
            match out {
                Ok(next) => graft_outcome(self@, fs@, parent, name@, fs@.len() as int) == Ok::<
                    Seq<INodeView>,
                    ErrorKindView,
                >(next@),
                Err(e) => graft_outcome(self@, fs@, parent, name@, fs@.len() as int) == Err::<
                    Seq<INodeView>,
                    ErrorKindView,
                >(e@.kind) && e@ == fresh_error(e@.kind),
            },
    {
        proof {
            use_type_invariant(&self);
            use_type_invariant(&fs);
        }
        let ghost sub = fs@;
        let mut builder = self;
        let base = builder.len();
        let nodes = fs.nodes;
        let mut root_name = Some(name);
        for node in it: nodes
            invariant
                it.seq() == nodes@,
                sub == node_views(nodes@),
                sub == fs@,
                tree_well_formed(sub),
                base == self@.len(),
                builder@.len() == base + it.index(),
                builder@.len() <= usize::MAX,
                it.index() == 0 ==> root_name == Some(name),
                it.index() > 0 ==> root_name is None,
                graft_outcome(self@, sub, parent, name@, it.index()) == Ok::<
                    Seq<INodeView>,
                    ErrorKindView,
                >(builder@),
        {
            let ghost j = it.index();
            let ghost target = graft_node(sub, j, base as int, parent, name@);
            let ghost old_nodes = builder@;
            proof {
                assert(sub[j] == node@);
                if j > 0 {
                    assert(hangs_below_parent(sub, j));
                }
            }
            let up = match node.parent() {
                Some(q) => Some(base + q),
                None => Some(parent),
            };
            let first = root_name.take();
            let result = match node.into_inode() {
                KosmoraINodeType::File(file) => match first {
                    Some(name) => builder.add_file(
                        Some(parent),
                        KosmoraFile::with_content(name, file.into_data()),
                    ),
                    None => builder.add_file(up, file),
                },
                KosmoraINodeType::Directory(directory) => match first {
                    Some(name) => builder.add_directory(Some(parent), name),
                    None => builder.add_directory(up, directory.into_name()),
                },
            };
            proof {
                assert(attach_fault(old_nodes, target.parent, target.inode.name()) is None ==> builder@
                    == attached(old_nodes, target));
            }
            match result {
                Ok(_) => {},
                Err(e) => {
                    proof {
                        assert(attach_fault(old_nodes, target.parent, target.inode.name()) == Some(
                            e@.kind,
                        ));
                        lemma_graft_stays_refused(
                            self@,
                            sub,
                            parent,
                            name@,
                            j + 1,
                            sub.len() as int,
                        );
                    }
                    return Err(e);
                },
            }
        }
        Ok(builder)
    }
}

} // verus!
