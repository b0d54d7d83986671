pub mod commit;
pub mod digest;
pub mod laws;
pub mod object;
pub mod repo;
pub mod save;
pub mod stage;
pub mod stage_laws;
pub mod store;
pub mod tree;

pub use commit::{Branch, Commit};
pub use digest::{hash_blob, to_hex, ComHash, DirHash, FileHash};
pub use object::{FileObject, FileState, Object, ObjectState};
pub use repo::{HeadState, ObjectKind, Repo, RepoError};
pub use save::PendingWrite;
pub use stage::{StagePath, WorkNode};
pub use store::Store;
pub use tree::DirObject;
