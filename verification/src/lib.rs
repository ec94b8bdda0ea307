//! Static worst-case stack depth analysis of firmware call graphs.
pub mod ege;
pub mod sdt;
pub mod types;
