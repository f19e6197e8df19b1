//! An in-memory, hierarchical namespace built from physical directory trees,
//! with a structured, platform-independent path type to name its locations.

pub mod error;
pub mod import;
pub mod inode;
pub mod path;
pub mod text;
pub mod tree;
pub mod vfs;

pub use error::{Error, ErrorKind, ErrorKindView, ErrorView};
pub use import::{
    collect_physical_directory_children, FailureCause, KosmoraINodeInteroperable,
    KosmoraImporter, PhysicalEntry, PhysicalFailure, PhysicalKind, WalkEvent, DEPTH_LIMIT,
};
pub use inode::{
    create_kosmora_directory, create_kosmora_file, KosmoraDirectory, KosmoraFile,
    KosmoraFileMetadata, KosmoraINode, KosmoraINodeType,
};
pub use path::{format_path_components, KosmoraPath, KosmoraPathBuf, PathComponent, PathView};
pub use tree::{KosmoraFs, KosmoraFsBuilder};
pub use vfs::{
    KosmoraMountPoint, KosmoraPackage, KosmoraPackageBuilder, KosmoraPackageFinalizer, KosmoraVfs,
    MountSource,
};
