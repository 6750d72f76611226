pub mod bloom;
pub mod counting_bloom;
pub mod hashes;
pub mod packed_vec;
pub mod sizing;

pub use bloom::Bloom;
pub use counting_bloom::CountingBloom;
pub use hashes::Hashes;
pub use packed_vec::PackedVec;
pub use sizing::{optimal_num_hashes, ConfigError};
