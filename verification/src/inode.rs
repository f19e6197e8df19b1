//! The nodes of the virtual tree: files with their metadata and content,
//! directories with their children, and the slot that holds either together
//! with the link to its parent.

use vstd::prelude::*;

verus! {

/// The position of the last `.` in `name`, if there is one.
pub open spec fn last_dot(name: Seq<char>) -> Option<int>
    decreases name.len(),
{
    if name.len() == 0 {
        None
    } else if name.last() == '.' {
        Some(name.len() - 1)
    } else {
        last_dot(name.drop_last())
    }
}

/// The extension of a file name: what follows its last `.`; none where the
/// name holds no `.`.
pub open spec fn extension_of(name: Seq<char>) -> Option<Seq<char>> {
    match last_dot(name) {
        Some(i) => Some(name.skip(i + 1)),
        None => None,
    }
}

/// `last_dot` finds a `.`, and no `.` stands behind the one it finds.
pub proof fn lemma_last_dot(name: Seq<char>)
    ensures
        match last_dot(name) {
            Some(i) => 0 <= i < name.len() && name[i] == '.' && forall|j: int|
                i < j < name.len() ==> name[j] != '.',
            None => forall|j: int| 0 <= j < name.len() ==> name[j] != '.',
        },
    decreases name.len(),
{
    if name.len() > 0 && name.last() != '.' {
        let shorter = name.drop_last();
        lemma_last_dot(shorter);
        match last_dot(shorter) {
            Some(i) => {
                assert(name[i] == shorter[i]);
                assert forall|j: int| i < j < name.len() implies name[j] != '.' by {
                    if j < shorter.len() {
                        assert(name[j] == shorter[j]);
                    }
                }
            },
            None => {
                assert forall|j: int| 0 <= j < name.len() implies name[j] != '.' by {
                    if j < shorter.len() {
                        assert(name[j] == shorter[j]);
                    }
                }
            },
        }
    }
}

/// Extension policy: a name without a `.` has no extension; any other name
/// has as its extension what follows its last `.`, which holds no `.`
/// itself.
pub proof fn lemma_extension_policy(name: Seq<char>)
    ensures
        extension_of(name) is None <==> !name.contains('.'),
        extension_of(name) matches Some(ext) ==> !ext.contains('.') && name == name.take(
            name.len() - ext.len() - 1,
        ).push('.') + ext,
{
    lemma_last_dot(name);
    match last_dot(name) {
        Some(i) => {
            let ext = name.skip(i + 1);
            assert(name.contains('.'));
            if ext.contains('.') {
                let k = choose|k: int| 0 <= k < ext.len() && ext[k] == '.';
                assert(name[i + 1 + k] == '.');
            }
            assert(name =~= name.take(i).push('.') + ext);
        },
        None => {
            if name.contains('.') {
                let k = choose|k: int| 0 <= k < name.len() && name[k] == '.';
                assert(name[k] != '.');
            }
        },
    }
}

/// The extension of a name that grows by one character.
pub proof fn lemma_extension_push(name: Seq<char>, c: char)
    ensures
        extension_of(name.push(c)) == if c == '.' {
            Some(Seq::<char>::empty())
        } else {
            match extension_of(name) {
                Some(ext) => Some(ext.push(c)),
                None => None,
            }
        },
{
    let longer = name.push(c);
    assert(longer.drop_last() == name);
    lemma_last_dot(name);
    if c == '.' {
        assert(longer.skip(longer.len() as int) =~= Seq::<char>::empty());
    } else {
        match last_dot(name) {
            Some(i) => {
                assert(longer.skip(i + 1) =~= name.skip(i + 1).push(c));
            },
            None => {},
        }
    }
}

/// The mathematical value of a [`KosmoraFileMetadata`].
pub struct FileMetadataView {
    pub name: Seq<char>,
    pub extension: Option<Seq<char>>,
    pub size: nat,
}

impl FileMetadataView {
    /// The extension is the one that the name gives.
    pub open spec fn well_formed(self) -> bool {
        self.extension == extension_of(self.name)
    }
}

/// What is known of a file beside its content: its name, the extension that
/// the name gives, and its size in bytes.
#[derive(Debug, PartialEq, Eq)]
pub struct KosmoraFileMetadata {
    name: String,
    extension: Option<String>,
    size: usize,
}

impl View for KosmoraFileMetadata {
    type V = FileMetadataView;

    closed spec fn view(&self) -> FileMetadataView {
        FileMetadataView {
            name: self.name@,
            extension: match self.extension {
                Some(ext) => Some(ext@),
                None => None,
            },
            size: self.size as nat,
        }
    }
}

/// The extension of the file name `name`.
pub fn derive_extension(name: &str) -> (out: Option<String>)
    ensures
        match out {
            Some(ext) => extension_of(name@) == Some(ext@),
            None => extension_of(name@) is None,
        },
{
    let mut extension: Option<String> = None;
    for c in it: name.chars()
        invariant
            it.seq() == name@,
            match extension {
                Some(ext) => extension_of(name@.take(it.index())) == Some(ext@),
                None => extension_of(name@.take(it.index())) is None,
            },
    {
        proof {
            lemma_extension_push(name@.take(it.index()), c);
            assert(name@.take(it.index() + 1) == name@.take(it.index()).push(c));
        }
        if c == '.' {
            extension = Some(String::new());
        } else {
            extension = match extension {
                Some(ext) => {
                    let mut ext = ext;
                    ext.push(c);
                    Some(ext)
                },
                None => None,
            };
        }
    }
    proof {
        assert(name@.take(name@.len() as int) == name@);
    }
    extension
}

impl KosmoraFileMetadata {
    /// What holds of every value of the type.
    #[verifier::type_invariant]
    pub open spec fn valid(self) -> bool {
        self@.well_formed()
    }

    /// The metadata of a file named `name` that holds `size` bytes. The
    /// extension is taken from the name.
    pub fn new(name: String, size: usize) -> (out: Self)
        ensures
            out@ == (FileMetadataView {
                name: name@,
                extension: extension_of(name@),
                size: size as nat,
            }),
    {
        let extension = derive_extension(name.as_str());
        Self { name, extension, size }
    }

    /// The name of the file.
    pub fn name(&self) -> (out: &String)
        ensures
            out@ == self@.name,
    {
        &self.name
    }

    /// The extension of the file, if its name gives one.
    pub fn extension(&self) -> (out: Option<&String>)
        ensures
            self@.well_formed(),
            match out {
                Some(ext) => self@.extension == Some(ext@),
                None => self@.extension is None,
            },
    {
        proof {
            use_type_invariant(self);
        }
        match &self.extension {
            Some(ext) => Some(ext),
            None => None,
        }
    }

    /// The size of the file in bytes.
    pub fn size(&self) -> (out: usize)
        ensures
            out == self@.size,
    {
        self.size
    }
}

/// The mathematical value of a [`KosmoraFile`].
pub struct FileView {
    pub metadata: FileMetadataView,
    pub data: Seq<u8>,
}

impl FileView {
    /// The metadata fit the name, and the size is the length of the content.
    pub open spec fn well_formed(self) -> bool {
        &&& self.metadata.well_formed()
        &&& self.metadata.size == self.data.len()
    }
}

/// The file that has the name `name` and the content `data`.
pub open spec fn file_of(name: Seq<char>, data: Seq<u8>) -> FileView {
    FileView {
        metadata: FileMetadataView { name, extension: extension_of(name), size: data.len() },
        data,
    }
}

/// A file: its metadata and its whole content.
#[derive(Debug, PartialEq, Eq)]
pub struct KosmoraFile {
    metadata: KosmoraFileMetadata,
    data: Vec<u8>,
}

impl View for KosmoraFile {
    type V = FileView;

    closed spec fn view(&self) -> FileView {
        FileView { metadata: self.metadata@, data: self.data@ }
    }
}

impl KosmoraFile {
    /// What holds of every value of the type.
    #[verifier::type_invariant]
    pub open spec fn valid(self) -> bool {
        self@.well_formed()
    }

    /// The file with the given metadata and content. The metadata must give
    /// the length of the content as the size.
    pub fn new(metadata: KosmoraFileMetadata, data: Vec<u8>) -> (out: Self)
        requires
            metadata@.size == data@.len(),
        ensures
            out@ == (FileView { metadata: metadata@, data: data@ }),
    {
        proof {
            use_type_invariant(&metadata);
        }
        Self { metadata, data }
    }

    /// The file named `name` with the content `data`; its metadata are taken
    /// from the two.
    pub fn with_content(name: String, data: Vec<u8>) -> (out: Self)
        ensures
            out@ == file_of(name@, data@),
    {
        let metadata = KosmoraFileMetadata::new(name, data.len());
        Self { metadata, data }
    }

    /// The metadata of the file.
    pub fn metadata(&self) -> (out: &KosmoraFileMetadata)
        ensures
            out@ == self@.metadata,
            self@.well_formed(),
    {
        proof {
            use_type_invariant(self);
        }
        &self.metadata
    }

    /// Gives the file up for its content.
    pub fn into_data(self) -> (out: Vec<u8>)
        ensures
            out@ == self@.data,
    {
        self.data
    }

    /// The content of the file.
    pub fn data(&self) -> (out: &Vec<u8>)
        ensures
            out@ == self@.data,
            self@.well_formed(),
    {
        proof {
            use_type_invariant(self);
        }
        &self.data
    }
}

/// The mathematical value of a [`KosmoraDirectory`].
pub struct DirectoryView {
    pub name: Seq<char>,
    pub children: Seq<usize>,
}

/// A directory: its name, and the places of its children in the tree that
/// holds it.
#[derive(Debug, PartialEq, Eq)]
pub struct KosmoraDirectory {
    name: String,
    children: Vec<usize>,
}

impl View for KosmoraDirectory {
    type V = DirectoryView;

    closed spec fn view(&self) -> DirectoryView {
        DirectoryView { name: self.name@, children: self.children@ }
    }
}

impl KosmoraDirectory {
    /// The directory named `name` with the children `children`.
    pub fn new(name: String, children: Vec<usize>) -> (out: Self)
        ensures
            out@ == (DirectoryView { name: name@, children: children@ }),
    {
        Self { name, children }
    }

    /// The name of the directory.
    pub fn name(&self) -> (out: &String)
        ensures
            out@ == self@.name,
    {
        &self.name
    }

    /// The places of the children of the directory.
    pub fn children(&self) -> (out: &Vec<usize>)
        ensures
            out@ == self@.children,
    {
        &self.children
    }

    /// Gives the directory up for its name.
    pub fn into_name(self) -> (out: String)
        ensures
            out@ == self@.name,
    {
        self.name
    }
}

/// The mathematical value of a [`KosmoraINodeType`].
pub enum INodeTypeView {
    File(FileView),
    Directory(DirectoryView),
}

impl INodeTypeView {
    /// The name of the file or directory.
    pub open spec fn name(self) -> Seq<char> {
        match self {
            INodeTypeView::File(file) => file.metadata.name,
            INodeTypeView::Directory(directory) => directory.name,
        }
    }

    /// The word for the variant.
    pub open spec fn text(self) -> Seq<char> {
        match self {
            INodeTypeView::File(_) => "File"@,
            INodeTypeView::Directory(_) => "Directory"@,
        }
    }
}

/// What a node is: a file or a directory.
#[derive(Debug, PartialEq, Eq)]
pub enum KosmoraINodeType {
    File(KosmoraFile),
    Directory(KosmoraDirectory),
}

impl View for KosmoraINodeType {
    type V = INodeTypeView;

    open spec fn view(&self) -> INodeTypeView {
        match *self {
            KosmoraINodeType::File(file) => INodeTypeView::File(file@),
            KosmoraINodeType::Directory(directory) => INodeTypeView::Directory(directory@),
        }
    }
}

impl KosmoraINodeType {
    /// Whether the node is a file.
    pub fn is_file(&self) -> (out: bool)
        ensures
            out == (self@ is File),
    {
        match self {
            KosmoraINodeType::File(_) => true,
            KosmoraINodeType::Directory(_) => false,
        }
    }

    /// Whether the node is a directory.
    pub fn is_directory(&self) -> (out: bool)
        ensures
            out == (self@ is Directory),
    {
        !self.is_file()
    }

    /// The name of the file or directory.
    pub fn name(&self) -> (out: &String)
        ensures
            out@ == self@.name(),
    {
        match self {
            KosmoraINodeType::File(file) => file.metadata().name(),
            KosmoraINodeType::Directory(directory) => directory.name(),
        }
    }

    /// The word for the variant: `File` or `Directory`.
    pub fn to_string(&self) -> (out: String)
        ensures
            out@ == self@.text(),
    {
        match self {
            KosmoraINodeType::File(_) => String::from_str("File"),
            KosmoraINodeType::Directory(_) => String::from_str("Directory"),
        }
    }
}

/// The mathematical value of a [`KosmoraINode`].
pub struct INodeView {
    pub inode: INodeTypeView,
    pub parent: Option<usize>,
}

/// A node of a tree: a file or a directory, and the place of the directory
/// that holds it. The link to the parent only names the parent; a node owns
/// nothing above it.
#[derive(Debug, PartialEq, Eq)]
pub struct KosmoraINode {
    inode: KosmoraINodeType,
    parent: Option<usize>,
}

impl View for KosmoraINode {
    type V = INodeView;

    closed spec fn view(&self) -> INodeView {
        INodeView { inode: self.inode@, parent: self.parent }
    }
}

impl KosmoraINode {
    /// The node that holds `inode` below the directory at `parent`.
    pub fn new(inode: KosmoraINodeType, parent: Option<usize>) -> (out: Self)
        ensures
            out@ == (INodeView { inode: inode@, parent }),
    {
        Self { inode, parent }
    }

    /// What the node is, with its content.
    pub fn inode(&self) -> (out: &KosmoraINodeType)
        ensures
            out@ == self@.inode,
    {
        &self.inode
    }

    /// The place of the directory that holds the node; none for a root.
    pub fn parent(&self) -> (out: Option<usize>)
        ensures
            out == self@.parent,
    {
        self.parent
    }

    /// The name of the node.
    pub fn name(&self) -> (out: &String)
        ensures
            out@ == self@.inode.name(),
    {
        self.inode.name()
    }

    /// Gives the node up for what it holds.
    pub fn into_inode(self) -> (out: KosmoraINodeType)
        ensures
            out@ == self@.inode,
    {
        self.inode
    }
}

/// The node of a file named `name` with the content `data`, below the
/// directory at `root`.
pub fn create_kosmora_file(name: String, root: Option<usize>, data: Vec<u8>) -> (out: KosmoraINode)
    ensures
        out@ == (INodeView { inode: INodeTypeView::File(file_of(name@, data@)), parent: root }),
{
    let file = KosmoraFile::with_content(name, data);
    KosmoraINode::new(KosmoraINodeType::File(file), root)
}

/// The node of a directory named `name` with the children `content`, below
/// the directory at `root`.
pub fn create_kosmora_directory(name: String, root: Option<usize>, content: Vec<usize>) -> (out:
    KosmoraINode)
    ensures
        out@ == (INodeView {
            inode: INodeTypeView::Directory(DirectoryView { name: name@, children: content@ }),
            parent: root,
        }),
{
    let dir = KosmoraDirectory::new(name, content);
    KosmoraINode::new(KosmoraINodeType::Directory(dir), root)
}

impl KosmoraINode {
    /// Adds `child` at the end of the children of a directory; a file stays
    /// as it is.
    pub(crate) fn push_child(&mut self, child: usize)
        ensures
            final(self)@ == old(self)@.with_child(child),
    {
        match &mut self.inode {
            KosmoraINodeType::Directory(directory) => {
                directory.children.push(child);
            },
            KosmoraINodeType::File(_) => {},
        }
    }
}

impl INodeView {
    /// The same node with one more child at the end, where it is a
    /// directory.
    pub open spec fn with_child(self, child: usize) -> INodeView {
        match self.inode {
            INodeTypeView::Directory(directory) => INodeView {
                inode: INodeTypeView::Directory(
                    DirectoryView { name: directory.name, children: directory.children.push(child) },
                ),
                parent: self.parent,
            },
            INodeTypeView::File(_) => self,
        }
    }
}

} // verus!
