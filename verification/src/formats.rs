//! The two containers built on SBON: the versioned document and the
//! asset archive.

pub mod sbvj;
pub mod sbasset;
