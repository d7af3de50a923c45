pub mod cache;
pub mod crossover;
pub mod engine;
pub mod fitness;
pub mod genome;
pub mod log;
pub mod mutate;
pub mod parse_tree;
pub mod random;
pub mod selection;
pub mod text;
pub mod tree;
pub mod tuneables;
