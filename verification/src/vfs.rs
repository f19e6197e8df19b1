//! The namespace: packages, each a tree under an identifier, and the staged
//! construction of a package from physical sources that are mounted at
//! virtual paths.
//!
//! Staging only records what is wanted. The imports are the caller's part:
//! a finalizer names the mount points one after the other, the caller
//! imports what each of them asks for, and the finalizer attaches the result
//! at its virtual path. Nothing of a package can be seen before the last
//! mount point is done.

use crate::error::{fresh_error, Error, ErrorKind, ErrorKindView};
use crate::inode::INodeView;
use crate::path::{
    invalid_path_error, name_views, offending, parse_path, resolved, KosmoraPathBuf,
};
use crate::tree::laws::{lemma_directories_grow, lemma_graft_grows};
use crate::tree::{
    directories_outcome, directory_outcome, empty_directory, graft_outcome, KosmoraFs,
    KosmoraFsBuilder,
};
use vstd::prelude::*;

verus! {

/// Where the content of a mount point comes from.
#[derive(Debug, PartialEq, Eq)]
pub enum MountSource {
    /// Nowhere: the mount point is a new, empty directory.
    NewDirectory,
    /// The physical directory at the given path, with all that lies below.
    Directory(String),
    /// The physical file at the given path.
    File(String),
}

/// The mathematical value of a [`MountSource`].
pub enum MountSourceView {
    NewDirectory,
    Directory(Seq<char>),
    File(Seq<char>),
}

impl View for MountSource {
    type V = MountSourceView;

    open spec fn view(&self) -> MountSourceView {
        match *self {
            MountSource::NewDirectory => MountSourceView::NewDirectory,
            MountSource::Directory(path) => MountSourceView::Directory(path@),
            MountSource::File(path) => MountSourceView::File(path@),
        }
    }
}

/// The mathematical value of a [`KosmoraMountPoint`].
pub struct MountView {
    pub source: MountSourceView,
    pub target: Seq<Seq<char>>,
}

/// A staged operation: a source, and the virtual place where it is to
/// appear, as the names that lead there from the root of the package.
#[derive(Debug, PartialEq, Eq)]
pub struct KosmoraMountPoint {
    source: MountSource,
    target: Vec<String>,
}

impl View for KosmoraMountPoint {
    type V = MountView;

    closed spec fn view(&self) -> MountView {
        MountView { source: self.source@, target: name_views(self.target@) }
    }
}

impl KosmoraMountPoint {
    /// The mount point of `source` at the place that `target` leads to.
    pub fn new(source: MountSource, target: Vec<String>) -> (out: Self)
        ensures
            out@ == (MountView { source: source@, target: name_views(target@) }),
    {
        Self { source, target }
    }

    /// Where the content comes from.
    pub fn source(&self) -> (out: &MountSource)
        ensures
            out@ == self@.source,
    {
        &self.source
    }

    /// The names that lead from the root of the package to the mount point.
    pub fn target(&self) -> (out: &Vec<String>)
        ensures
            name_views(out@) == self@.target,
    {
        &self.target
    }
}

/// The mount points of `staged`, each by its value.
pub open spec fn mount_views(staged: Seq<KosmoraMountPoint>) -> Seq<MountView> {
    staged.map_values(|mount: KosmoraMountPoint| mount@)
}

/// The staged operations without those that aim at `target`.
pub open spec fn without_target(staged: Seq<MountView>, target: Seq<Seq<char>>) -> Seq<MountView> {
    staged.filter(|mount: MountView| mount.target != target)
}

/// The staged operations after one more: the last staged operation wins, so
/// what was staged for the same place before is given up.
pub open spec fn staged_after(staged: Seq<MountView>, mount: MountView) -> Seq<MountView> {
    without_target(staged, mount.target).push(mount)
}

/// Whether `a` leads to a place above the place that `b` leads to.
pub open spec fn is_strict_prefix(a: Seq<Seq<char>>, b: Seq<Seq<char>>) -> bool {
    a.len() < b.len() && b.take(a.len() as int) == a
}

/// Operation `i` mounts a file, and operation `j` aims at a place below it.
pub open spec fn file_above(staged: Seq<MountView>, i: int, j: int) -> bool {
    staged[i].source is File && is_strict_prefix(staged[i].target, staged[j].target)
}

/// Whether some staged operation aims at a place below a staged file.
pub open spec fn has_conflict(staged: Seq<MountView>) -> bool {
    exists|i: int, j: int|
        0 <= i < staged.len() && 0 <= j < staged.len() && #[trigger] file_above(staged, i, j)
}

/// What mounting `mount` does to a tree. `imported` is the tree that the
/// import of the source gave, if there was one to import. The place must
/// not be the root, which is there already; a physical source must have been
/// imported, as a file where a file was staged and as a directory where a
/// directory was; the directories that lead to the place are opened; and
/// there the new directory is opened, or the imported tree grafted.
pub open spec fn mount_outcome(
    nodes: Seq<INodeView>,
    mount: MountView,
    imported: Option<Seq<INodeView>>,
) -> Result<Seq<INodeView>, ErrorKindView> {
    if mount.target.len() == 0 {
        Err(ErrorKindView::DuplicateName)
    } else if !(mount.source is NewDirectory) && imported is None {
        Err(ErrorKindView::NotFound)
    } else if !(mount.source is NewDirectory) && (imported->0.len() == 0 || (mount.source is File)
        != (imported->0[0].inode is File)) {
        Err(ErrorKindView::UnsupportedPathType)
    } else {
        match directories_outcome(nodes, 0, mount.target.drop_last()) {
            Err(kind) => Err(kind),
            Ok((grown, parent)) => if mount.source is NewDirectory {
                match directory_outcome(grown, parent, mount.target.last()) {
                    Err(kind) => Err(kind),
                    Ok((done, _)) => Ok(done),
                }
            } else {
                graft_outcome(
                    grown,
                    imported->0,
                    parent,
                    mount.target.last(),
                    imported->0.len() as int,
                )
            },
        }
    }
}

/// The trees of `imports`, each by its value.
pub open spec fn import_views(imports: Seq<Option<KosmoraFs>>) -> Seq<Option<Seq<INodeView>>> {
    imports.map_values(|imported: Option<KosmoraFs>| view_of(imported))
}

/// What was imported for mount point `k`: nothing, where the imports end
/// before it.
pub open spec fn import_at(imports: Seq<Option<Seq<INodeView>>>, k: int) -> Option<
    Seq<INodeView>,
> {
    if 0 <= k < imports.len() {
        imports[k]
    } else {
        None
    }
}

/// What doing the mount points from number `k` on gives, each with what
/// was imported for it.
pub open spec fn mounts_outcome(
    nodes: Seq<INodeView>,
    pending: Seq<MountView>,
    imports: Seq<Option<Seq<INodeView>>>,
    k: int,
) -> Result<Seq<INodeView>, ErrorKindView>
    decreases pending.len() - k,
{
    if 0 <= k < pending.len() {
        match mount_outcome(nodes, pending[k], import_at(imports, k)) {
            Err(kind) => Err(kind),
            Ok(grown) => mounts_outcome(grown, pending, imports, k + 1),
        }
    } else {
        Ok(nodes)
    }
}

/// What finalizing a staged package gives: a collision where an operation
/// aims at a place below a staged file; else the tree that has a root
/// directory named `root_name` and in which all mount points are done.
pub open spec fn finalize_outcome(
    staged: Seq<MountView>,
    root_name: Seq<char>,
    imports: Seq<Option<Seq<INodeView>>>,
) -> Result<Seq<INodeView>, ErrorKindView> {
    if has_conflict(staged) {
        Err(ErrorKindView::DuplicateName)
    } else {
        mounts_outcome(seq![empty_directory(root_name, None)], staged, imports, 0)
    }
}

/// A mount point takes nothing away from the tree.
pub proof fn lemma_mount_grows(
    nodes: Seq<INodeView>,
    mount: MountView,
    imported: Option<Seq<INodeView>>,
)
    ensures
        mount_outcome(nodes, mount, imported) matches Ok(grown) ==> grown.len() >= nodes.len(),
{
    if mount_outcome(nodes, mount, imported) is Ok {
        lemma_directories_grow(nodes, 0, mount.target.drop_last());
        let opened = directories_outcome(nodes, 0, mount.target.drop_last())->Ok_0;
        if !(mount.source is NewDirectory) {
            lemma_graft_grows(
                opened.0,
                imported->0,
                opened.1,
                mount.target.last(),
                imported->0.len() as int,
            );
        }
    }
}

/// Keeping what does not aim at `target` goes operation by operation.
proof fn lemma_without_push(staged: Seq<MountView>, mount: MountView, target: Seq<Seq<char>>)
    ensures
        without_target(staged.push(mount), target) == if mount.target != target {
            without_target(staged, target).push(mount)
        } else {
            without_target(staged, target)
        },
{
    reveal(Seq::filter);
    assert(staged.push(mount).drop_last() == staged);
}

/// Tells whether `a` and `b` hold the same names.
fn same_names(a: &Vec<String>, b: &Vec<String>) -> (out: bool)
    ensures
        out == (name_views(a@) == name_views(b@)),
{
    if a.len() != b.len() {
        return false;
    }
    let mut i: usize = 0;
    while i < a.len()
        invariant
            i <= a.len(),
            a.len() == b.len(),
            forall|k: int| 0 <= k < i ==> a@[k]@ == b@[k]@,
        decreases a.len() - i,
    {
        if a[i] != b[i] {
            assert(name_views(a@)[i as int] != name_views(b@)[i as int]);
            return false;
        }
        i += 1;
    }
    assert(name_views(a@) =~= name_views(b@));
    true
}

/// Tells whether `a` leads to a place above the place that `b` leads to.
fn strict_prefix(a: &Vec<String>, b: &Vec<String>) -> (out: bool)
    ensures
        out == is_strict_prefix(name_views(a@), name_views(b@)),
{
    if a.len() >= b.len() {
        return false;
    }
    let mut i: usize = 0;
    while i < a.len()
        invariant
            i <= a.len(),
            a.len() < b.len(),
            forall|k: int| 0 <= k < i ==> a@[k]@ == b@[k]@,
        decreases a.len() - i,
    {
        if a[i] != b[i] {
            assert(name_views(b@).take(a.len() as int)[i as int] != name_views(a@)[i as int]);
            return false;
        }
        i += 1;
    }
    assert(name_views(b@).take(a.len() as int) =~= name_views(a@));
    true
}

/// The staged construction of a package. Operations are recorded in the
/// order in which they are staged; none of them touches a tree.
#[derive(Debug, PartialEq, Eq)]
pub struct KosmoraPackageBuilder {
    staged: Vec<KosmoraMountPoint>,
}

impl View for KosmoraPackageBuilder {
    type V = Seq<MountView>;

    closed spec fn view(&self) -> Seq<MountView> {
        mount_views(self.staged@)
    }
}

/// The place that the virtual path `virtual_path` leads to.
pub open spec fn target_of(virtual_path: Seq<char>) -> Seq<Seq<char>> {
    resolved(parse_path(virtual_path).components)
}

impl KosmoraPackageBuilder {
    /// A builder with nothing staged.
    pub fn new() -> (out: Self)
        ensures
            out@ == Seq::<MountView>::empty(),
    {
        let out = Self { staged: Vec::new() };
        assert(out@ =~= Seq::<MountView>::empty());
        out
    }

    /// What is staged, in the order in which it will be mounted.
    pub fn staged(&self) -> (out: &Vec<KosmoraMountPoint>)
        ensures
            mount_views(out@) == self@,
    {
        &self.staged
    }

    /// Stages `source` for the place that `virtual_path` leads to. A path
    /// with forbidden characters is refused and nothing is staged.
    fn stage(&mut self, source: MountSource, virtual_path: &str) -> (out: Result<(), Error>)
        ensures
            match out {
                Ok(_) => offending(virtual_path@).len() == 0 && final(self)@ == staged_after(
                    old(self)@,
                    MountView { source: source@, target: target_of(virtual_path@) },
                ),
                Err(e) => offending(virtual_path@).len() > 0 && e@ == invalid_path_error(
                    offending(virtual_path@),
                ) && final(self)@ == old(self)@,
            },
    {
        let path = match KosmoraPathBuf::from_str(virtual_path) {
            Ok(path) => path,
            Err(e) => {
                return Err(e);
            },
        };
        let target = path.resolve();
        let ghost before = self@;
        let mut staged = Vec::new();
        std::mem::swap(&mut staged, &mut self.staged);
        let mut kept: Vec<KosmoraMountPoint> = Vec::new();
        proof {
            reveal(Seq::filter);
            assert(mount_views(kept@) =~= without_target(before.take(0), name_views(target@)));
        }
        for mount in it: staged
            invariant
                it.seq() == staged@,
                before == mount_views(staged@),
                mount_views(kept@) == without_target(
                    before.take(it.index()),
                    name_views(target@),
                ),
        {
            proof {
                assert(before.take(it.index() + 1) == before.take(it.index()).push(mount@));
                lemma_without_push(before.take(it.index()), mount@, name_views(target@));
            }
            if !same_names(&mount.target, &target) {
                kept.push(mount);
                assert(mount_views(kept@) == without_target(
                    before.take(it.index()),
                    name_views(target@),
                ).push(mount@));
            }
        }
        proof {
            assert(before.take(before.len() as int) == before);
        }
        let mount = KosmoraMountPoint::new(source, target);
        kept.push(mount);
        assert(mount_views(kept@) == without_target(before, mount@.target).push(mount@));
        self.staged = kept;
        Ok(())
    }

    /// Stages a new, empty directory at `virtual_path`.
    pub fn stage_new_directory(&mut self, virtual_path: &str) -> (out: Result<(), Error>)
        ensures
            match out {
                Ok(_) => offending(virtual_path@).len() == 0 && final(self)@ == staged_after(
                    old(self)@,
                    MountView {
                        source: MountSourceView::NewDirectory,
                        target: target_of(virtual_path@),
                    },
                ),
                Err(e) => offending(virtual_path@).len() > 0 && e@ == invalid_path_error(
                    offending(virtual_path@),
                ) && final(self)@ == old(self)@,
            },
    {
        self.stage(MountSource::NewDirectory, virtual_path)
    }

    /// Stages the physical directory at `physical_path` for `virtual_path`.
    pub fn stage_add_directory(&mut self, physical_path: &str, virtual_path: &str) -> (out: Result<
        (),
        Error,
    >)
        ensures
            match out {
                Ok(_) => offending(virtual_path@).len() == 0 && final(self)@ == staged_after(
                    old(self)@,
                    MountView {
                        source: MountSourceView::Directory(physical_path@),
                        target: target_of(virtual_path@),
                    },
                ),
                Err(e) => offending(virtual_path@).len() > 0 && e@ == invalid_path_error(
                    offending(virtual_path@),
                ) && final(self)@ == old(self)@,
            },
    {
        self.stage(MountSource::Directory(String::from_str(physical_path)), virtual_path)
    }

    /// Stages the physical file at `physical_path` for `virtual_path`.
    pub fn stage_add_file(&mut self, physical_path: &str, virtual_path: &str) -> (out: Result<
        (),
        Error,
    >)
        ensures
            match out {
                Ok(_) => offending(virtual_path@).len() == 0 && final(self)@ == staged_after(
                    old(self)@,
                    MountView {
                        source: MountSourceView::File(physical_path@),
                        target: target_of(virtual_path@),
                    },
                ),
                Err(e) => offending(virtual_path@).len() > 0 && e@ == invalid_path_error(
                    offending(virtual_path@),
                ) && final(self)@ == old(self)@,
            },
    {
        self.stage(MountSource::File(String::from_str(physical_path)), virtual_path)
    }

    /// Tells whether some staged operation aims at a place below a staged
    /// file.
    pub fn conflicts(&self) -> (out: bool)
        ensures
            out == has_conflict(self@),
    {
        let ghost staged = self@;
        let mut i: usize = 0;
        while i < self.staged.len()
            invariant
                i <= self.staged.len(),
                staged == mount_views(self.staged@),
                forall|a: int, b: int|
                    0 <= a < i && 0 <= b < staged.len() ==> !#[trigger] file_above(staged, a, b),
            decreases self.staged.len() - i,
        {
            if let MountSource::File(_) = self.staged[i].source {
                let mut j: usize = 0;
                while j < self.staged.len()
                    invariant
                        i < self.staged.len(),
                        j <= self.staged.len(),
                        staged == mount_views(self.staged@),
                        staged[i as int].source is File,
                        forall|b: int| 0 <= b < j ==> !#[trigger] file_above(staged, i as int, b),
                    decreases self.staged.len() - j,
                {
                    if strict_prefix(&self.staged[i].target, &self.staged[j].target) {
                        assert(file_above(staged, i as int, j as int));
                        return true;
                    }
                    j += 1;
                }
            }
            i += 1;
        }
        false
    }

    /// Ends the staging and begins the construction of the package, with a
    /// root directory named `root_name`. A staged operation that aims at a
    /// place below a staged file is a collision, and nothing is begun.
    pub fn begin(self, root_name: String) -> (out: Result<KosmoraPackageFinalizer, Error>)
        ensures
            match out {
                Ok(finalizer) => !has_conflict(self@) && finalizer@ == (FinalizerView {
                    nodes: seq![empty_directory(root_name@, None)],
                    pending: self@,
                }),
                Err(e) => has_conflict(self@) && e@ == fresh_error(ErrorKindView::DuplicateName),
            },
    {
        if self.conflicts() {
            return Err(Error::new(ErrorKind::DuplicateName));
        }
        let mut builder = KosmoraFsBuilder::new();
        match builder.add_directory(None, root_name) {
            Ok(_) => {
                assert(builder@ =~= seq![empty_directory(root_name@, None)]);
                Ok(KosmoraPackageFinalizer { builder, pending: self.staged })
            },
            Err(e) => Err(e),
        }
    }
}

impl KosmoraPackageBuilder {
    /// Makes the package of what is staged, in one go: `imports` holds, for
    /// each staged operation in its order, the tree that the import of its
    /// source gave, or none where there was nothing to import.
    pub fn finalize(self, root_name: String, imports: Vec<Option<KosmoraFs>>) -> (out: Result<
        KosmoraFs,
        Error,
    >)
        ensures
            match out {
                Ok(fs) => finalize_outcome(self@, root_name@, import_views(imports@)) == Ok::<
                    Seq<INodeView>,
                    ErrorKindView,
                >(fs@),
                Err(e) => finalize_outcome(self@, root_name@, import_views(imports@)) == Err::<
                    Seq<INodeView>,
                    ErrorKindView,
                >(e@.kind) && e@ == fresh_error(e@.kind),
            },
    {
        let ghost all = self@;
        let ghost given = import_views(imports@);
        let ghost root = seq![empty_directory(root_name@, None)];
        let mut finalizer = match self.begin(root_name) {
            Ok(finalizer) => finalizer,
            Err(e) => {
                return Err(e);
            },
        };
        let mut rest = imports;
        let ghost mut k: int = 0;
        assert(all.skip(0) == all);
        assert(given.skip(0) == given);
        while finalizer.pending.len() > 0
            invariant
                all == self@,
                given == import_views(imports@),
                root == seq![empty_directory(root_name@, None)],
                !has_conflict(all),
                0 <= k <= all.len(),
                finalizer@.pending == all.skip(k),
                finalizer@.nodes.len() > 0,
                import_views(rest@) == if k <= given.len() {
                    given.skip(k)
                } else {
                    Seq::empty()
                },
                mounts_outcome(root, all, given, 0) == mounts_outcome(finalizer@.nodes, all, given, k),
            decreases all.len() - k,
        {
            let ghost before = import_views(rest@);
            assert(finalizer@.pending.len() == finalizer.pending@.len());
            assert(k < all.len());
            let imported = if rest.len() > 0 {
                rest.remove(0)
            } else {
                None
            };
            proof {
                assert(finalizer@.pending[0] == all[k]);
                assert(view_of(imported) == import_at(given, k)) by {
                    if before.len() > 0 {
                        assert(before[0] == given[k]);
                    }
                }
                assert(import_views(rest@) =~= if k + 1 <= given.len() {
                    given.skip(k + 1)
                } else {
                    Seq::empty()
                }) by {
                    if before.len() > 0 {
                        assert(import_views(rest@) =~= before.skip(1));
                    }
                }
                assert(all.skip(k).skip(1) == all.skip(k + 1));
                lemma_mount_grows(finalizer@.nodes, all[k], view_of(imported));
            }
            finalizer = match finalizer.mount(imported) {
                Ok(next) => next,
                Err(e) => {
                    return Err(e);
                },
            };
            proof {
                k = k + 1;
            }
        }
        finalizer.finish()
    }
}

/// The mathematical value of a [`KosmoraPackageFinalizer`]: the tree built
/// so far and the mount points that are still to be done, the next one
/// first.
pub struct FinalizerView {
    pub nodes: Seq<INodeView>,
    pub pending: Seq<MountView>,
}

/// The construction of a package, mount point by mount point.
#[derive(Debug, PartialEq, Eq)]
pub struct KosmoraPackageFinalizer {
    builder: KosmoraFsBuilder,
    pending: Vec<KosmoraMountPoint>,
}

impl View for KosmoraPackageFinalizer {
    type V = FinalizerView;

    closed spec fn view(&self) -> FinalizerView {
        FinalizerView { nodes: self.builder@, pending: mount_views(self.pending@) }
    }
}

impl KosmoraPackageFinalizer {
    /// The mount point that is to be done next, if any is left.
    pub fn next_mount(&self) -> (out: Option<&KosmoraMountPoint>)
        ensures
            match out {
                Some(mount) => self@.pending.len() > 0 && mount@ == self@.pending[0],
                None => self@.pending.len() == 0,
            },
    {
        if self.pending.len() > 0 {
            Some(&self.pending[0])
        } else {
            None
        }
    }

    /// Does the next mount point: `imported` is the tree that the import of
    /// its source gave, or none where nothing was imported. An error ends
    /// the construction, and nothing of the package is left.
    pub fn mount(self, imported: Option<KosmoraFs>) -> (out: Result<Self, Error>)
        ensures
            match out {
                Ok(next) => self@.pending.len() > 0 && mount_outcome(
                    self@.nodes,
                    self@.pending[0],
                    view_of(imported),
                ) == Ok::<Seq<INodeView>, ErrorKindView>(next@.nodes) && next@.pending
                    == self@.pending.skip(1),
                Err(e) => e@ == fresh_error(e@.kind) && if self@.pending.len() == 0 {
                    e@.kind == ErrorKindView::NotFound
                } else {
                    mount_outcome(self@.nodes, self@.pending[0], view_of(imported)) == Err::<
                        Seq<INodeView>,
                        ErrorKindView,
                    >(e@.kind)
                },
            },
    {
        let mut pending = self.pending;
        let builder = self.builder;
        if pending.len() == 0 {
            return Err(Error::new(ErrorKind::NotFound));
        }
        let ghost before = mount_views(pending@);
        let mount = pending.remove(0);
        assert(mount_views(pending@) =~= before.skip(1));
        let mut names = mount.target;
        let last = match names.pop() {
            Some(last) => last,
            None => {
                return Err(Error::new(ErrorKind::DuplicateName));
            },
        };
        proof {
            assert(name_views(names@) =~= mount@.target.drop_last());
            assert(last@ == mount@.target.last());
        }
        match mount.source {
            MountSource::NewDirectory => {
                let (builder, parent) = match builder.open_directories(0, names) {
                    Ok(opened) => opened,
                    Err(e) => {
                        return Err(e);
                    },
                };
                match builder.open_directory(parent, last) {
                    Ok((builder, _)) => Ok(Self { builder, pending }),
                    Err(e) => Err(e),
                }
            },
            source => {
                let fs = match imported {
                    Some(fs) => fs,
                    None => {
                        return Err(Error::new(ErrorKind::NotFound));
                    },
                };
                let wants_file = match source {
                    MountSource::File(_) => true,
                    _ => false,
                };
                if fs.root().inode().is_file() != wants_file {
                    return Err(Error::new(ErrorKind::UnsupportedPathType));
                }
                let (builder, parent) = match builder.open_directories(0, names) {
                    Ok(opened) => opened,
                    Err(e) => {
                        return Err(e);
                    },
                };
                match builder.graft(parent, last, fs) {
                    Ok(builder) => Ok(Self { builder, pending }),
                    Err(e) => Err(e),
                }
            },
        }
    }

    /// Ends the construction and hands out the tree of the package. While
    /// mount points are left to be done, the construction is called off.
    pub fn finish(self) -> (out: Result<KosmoraFs, Error>)
        ensures
            match out {
                Ok(fs) => self@.pending.len() == 0 && self@.nodes.len() > 0 && fs@ == self@.nodes,
                Err(e) => if self@.pending.len() > 0 {
                    e@ == fresh_error(ErrorKindView::Cancelled)
                } else {
                    self@.nodes.len() == 0 && e@ == fresh_error(ErrorKindView::NotFound)
                },
            },
    {
        if self.pending.len() > 0 {
            return Err(Error::new(ErrorKind::Cancelled));
        }
        self.builder.build()
    }
}

/// The value of a tree that may not be there.
pub open spec fn view_of(imported: Option<KosmoraFs>) -> Option<Seq<INodeView>> {
    match imported {
        Some(fs) => Some(fs@),
        None => None,
    }
}

/// The mathematical value of a [`KosmoraPackage`].
pub struct PackageView {
    pub id: usize,
    pub nodes: Seq<INodeView>,
}

/// A package: an identifier and the tree that it owns.
#[derive(Debug, PartialEq, Eq)]
pub struct KosmoraPackage {
    id: usize,
    root: KosmoraFs,
}

impl View for KosmoraPackage {
    type V = PackageView;

    closed spec fn view(&self) -> PackageView {
        PackageView { id: self.id, nodes: self.root@ }
    }
}

impl PackageView {
    /// The root of the tree is a directory.
    pub open spec fn well_formed(self) -> bool {
        self.nodes.len() > 0 && self.nodes[0].inode is Directory
    }
}

impl KosmoraPackage {
    /// What holds of every value of the type.
    #[verifier::type_invariant]
    pub open spec fn valid(self) -> bool {
        self@.well_formed()
    }

    /// The package that owns `root` under the identifier `id`. The root of
    /// a package is a directory: a tree that is a single file is refused.
    pub fn new(id: usize, root: KosmoraFs) -> (out: Result<Self, Error>)
        ensures
            match out {
                Ok(package) => root@[0].inode is Directory && package@ == (PackageView {
                    id,
                    nodes: root@,
                }),
                Err(e) => root@[0].inode is File && e@ == fresh_error(
                    ErrorKindView::UnsupportedPathType,
                ),
            },
    {
        if root.root().inode().is_directory() {
            Ok(Self { id, root })
        } else {
            Err(Error::new(ErrorKind::UnsupportedPathType))
        }
    }

    /// The identifier of the package.
    pub fn id(&self) -> (out: usize)
        ensures
            out == self@.id,
    {
        self.id
    }

    /// The tree of the package.
    pub fn root(&self) -> (out: &KosmoraFs)
        ensures
            out@ == self@.nodes,
            self@.well_formed(),
    {
        proof {
            use_type_invariant(self);
        }
        &self.root
    }
}

/// The packages of `packages`, each by its value.
pub open spec fn package_views(packages: Seq<KosmoraPackage>) -> Seq<PackageView> {
    packages.map_values(|package: KosmoraPackage| package@)
}

/// The mathematical value of a [`KosmoraVfs`].
pub struct VfsView {
    pub packages: Seq<PackageView>,
    pub staged: Seq<MountView>,
}

impl VfsView {
    /// Every package stands at the place that its identifier names.
    pub open spec fn well_formed(self) -> bool {
        forall|i: int| 0 <= i < self.packages.len() ==> (#[trigger] self.packages[i]).id == i
    }
}

/// The namespace: the packages that have been finished, and what is staged
/// for the next one.
#[derive(Debug, PartialEq, Eq)]
pub struct KosmoraVfs {
    packages: Vec<KosmoraPackage>,
    staging: KosmoraPackageBuilder,
}

impl View for KosmoraVfs {
    type V = VfsView;

    closed spec fn view(&self) -> VfsView {
        VfsView { packages: package_views(self.packages@), staged: self.staging@ }
    }
}

impl KosmoraVfs {
    /// What holds of every value of the type.
    #[verifier::type_invariant]
    pub open spec fn valid(self) -> bool {
        self@.well_formed()
    }

    /// A namespace without packages and with nothing staged.
    pub fn new() -> (out: Self)
        ensures
            out@ == (VfsView { packages: Seq::empty(), staged: Seq::empty() }),
    {
        let out = KosmoraVfs { packages: Vec::new(), staging: KosmoraPackageBuilder::new() };
        assert(out@.packages =~= Seq::empty());
        out
    }

    /// Takes the namespace apart and leaves an empty one in its place.
    fn take_apart(&mut self) -> (out: (Vec<KosmoraPackage>, KosmoraPackageBuilder))
        ensures
            package_views(out.0@) == old(self)@.packages,
            out.1@ == old(self)@.staged,
            old(self)@.well_formed(),
    {
        proof {
            use_type_invariant(&*self);
        }
        let mut whole = KosmoraVfs::new();
        std::mem::swap(self, &mut whole);
        (whole.packages, whole.staging)
    }

    /// Stages a new, empty directory at `virtual_path` for the next
    /// package.
    pub fn create_directory(&mut self, virtual_path: &str) -> (out: Result<(), Error>)
        ensures
            final(self)@.packages == old(self)@.packages,
            match out {
                Ok(_) => offending(virtual_path@).len() == 0 && final(self)@.staged
                    == staged_after(
                    old(self)@.staged,
                    MountView {
                        source: MountSourceView::NewDirectory,
                        target: target_of(virtual_path@),
                    },
                ),
                Err(e) => offending(virtual_path@).len() > 0 && e@ == invalid_path_error(
                    offending(virtual_path@),
                ) && final(self)@.staged == old(self)@.staged,
            },
    {
        proof {
            use_type_invariant(&*self);
        }
        let (packages, mut staging) = self.take_apart();
        let out = staging.stage_new_directory(virtual_path);
        *self = KosmoraVfs { packages, staging };
        out
    }

    /// Stages the physical directory at `real_path` for `virtual_path` in
    /// the next package.
    pub fn add_directory(&mut self, real_path: &str, virtual_path: &str) -> (out: Result<(), Error>)
        ensures
            final(self)@.packages == old(self)@.packages,
            match out {
                Ok(_) => offending(virtual_path@).len() == 0 && final(self)@.staged
                    == staged_after(
                    old(self)@.staged,
                    MountView {
                        source: MountSourceView::Directory(real_path@),
                        target: target_of(virtual_path@),
                    },
                ),
                Err(e) => offending(virtual_path@).len() > 0 && e@ == invalid_path_error(
                    offending(virtual_path@),
                ) && final(self)@.staged == old(self)@.staged,
            },
    {
        proof {
            use_type_invariant(&*self);
        }
        let (packages, mut staging) = self.take_apart();
        let out = staging.stage_add_directory(real_path, virtual_path);
        *self = KosmoraVfs { packages, staging };
        out
    }

    /// Stages the physical file at `real_path` for `virtual_path` in the
    /// next package.
    pub fn add_file(&mut self, real_path: &str, virtual_path: &str) -> (out: Result<(), Error>)
        ensures
            final(self)@.packages == old(self)@.packages,
            match out {
                Ok(_) => offending(virtual_path@).len() == 0 && final(self)@.staged
                    == staged_after(
                    old(self)@.staged,
                    MountView {
                        source: MountSourceView::File(real_path@),
                        target: target_of(virtual_path@),
                    },
                ),
                Err(e) => offending(virtual_path@).len() > 0 && e@ == invalid_path_error(
                    offending(virtual_path@),
                ) && final(self)@.staged == old(self)@.staged,
            },
    {
        proof {
            use_type_invariant(&*self);
        }
        let (packages, mut staging) = self.take_apart();
        let out = staging.stage_add_file(real_path, virtual_path);
        *self = KosmoraVfs { packages, staging };
        out
    }

    /// Hands out what is staged, to be made into a package, and leaves
    /// nothing staged.
    pub fn take_staged(&mut self) -> (out: KosmoraPackageBuilder)
        ensures
            out@ == old(self)@.staged,
            final(self)@ == (VfsView {
                packages: old(self)@.packages,
                staged: Seq::<MountView>::empty(),
            }),
    {
        proof {
            use_type_invariant(&*self);
        }
        let (packages, staging) = self.take_apart();
        *self = KosmoraVfs { packages, staging: KosmoraPackageBuilder::new() };
        staging
    }

    /// Takes `root` in as a new package and tells its identifier. A tree
    /// that is a single file is refused, and the namespace stays as it is.
    pub fn add_package(&mut self, root: KosmoraFs) -> (out: Result<usize, Error>)
        ensures
            match out {
                Ok(id) => {
                    &&& root@[0].inode is Directory
                    &&& id == old(self)@.packages.len()
                    &&& final(self)@ == (VfsView {
                        packages: old(self)@.packages.push(PackageView { id, nodes: root@ }),
                        staged: old(self)@.staged,
                    })
                },
                Err(e) => root@[0].inode is File && e@ == fresh_error(
                    ErrorKindView::UnsupportedPathType,
                ) && final(self)@ == old(self)@,
            },
    {
        let (mut packages, staging) = self.take_apart();
        let id = packages.len();
        let out = match KosmoraPackage::new(id, root) {
            Ok(package) => {
                packages.push(package);
                assert(package_views(packages@) =~= old(self)@.packages.push(
                    PackageView { id, nodes: root@ },
                ));
                Ok(id)
            },
            Err(e) => Err(e),
        };
        *self = KosmoraVfs { packages, staging };
        out
    }

    /// The number of packages.
    pub fn len(&self) -> (out: usize)
        ensures
            out == self@.packages.len(),
    {
        self.packages.len()
    }

    /// The package with the identifier `id`, if there is one.
    pub fn package(&self, id: usize) -> (out: Option<&KosmoraPackage>)
        ensures
            self@.well_formed(),
            match out {
                Some(package) => id < self@.packages.len() && package@ == self@.packages[id as int],
                None => id >= self@.packages.len(),
            },
    {
        proof {
            use_type_invariant(self);
        }
        if id < self.packages.len() {
            Some(&self.packages[id])
        } else {
            None
        }
    }
}

} // verus!
