pub mod errors;
pub mod fingerprint;
pub mod graph;
pub mod resolver;
pub mod scheduler;
pub mod version;
pub mod versions;
