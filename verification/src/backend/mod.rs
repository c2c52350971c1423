//! Surfaces that frames are drawn to, and the terminal escape logic they share.
pub mod sgr;
pub mod test_backend;

pub use test_backend::TestBackend;
