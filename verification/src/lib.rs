//! Local face recognition with Valkey as the vector store: which face is embedded and how it is
//! cut out, how an embedding is stored under a name, what a search reply says, and who enters and
//! leaves while a camera is watched.

pub mod face;
pub mod images;
pub mod names;
pub mod reply;
pub mod report;
pub mod slug;
pub mod store;
pub mod text;
pub mod vector;
pub mod watch;
