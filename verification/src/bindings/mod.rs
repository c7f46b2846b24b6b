pub mod hash_map;
pub mod logging;
pub mod move_map;
pub mod random;
pub mod subsets;
