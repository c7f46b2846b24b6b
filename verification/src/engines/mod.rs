pub mod algorithms;
pub mod constants;
pub mod controllers;
pub mod q_values;
pub mod scorers;
pub mod traits;
pub mod utils;
