//! A durable, versioned, content-addressed object store carried over a chat
//! transport: chunk planning, content identifiers, payload codecs, the manifest
//! history, head references, the write-ahead log and the reconciler's decisions.

pub mod canonical;
pub mod chunker;
pub mod codec;
pub mod config;
pub mod crypto;
pub mod hash;
pub mod manifests;
pub mod pipeline;
pub mod reconcile;
pub mod refs;
pub mod repo;
pub mod store;
pub mod text;
pub mod transport;
pub mod wal;

pub use crate::manifests::DirChild;
pub use crate::manifests::DirManifest;
pub use crate::manifests::FileChunkRef;
pub use crate::manifests::FileManifest;
pub use crate::manifests::HeadPointer;
pub use crate::refs::HeadRef;
pub use crate::repo::Repo;
pub use crate::repo::RepoConfig;
