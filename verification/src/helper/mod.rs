pub mod generation;
