pub mod animation;
pub mod board;
pub mod filling;
pub mod generator;
pub mod grid;
pub mod search;
pub mod solution;
pub mod solver;

pub use animation::AnimatedSolver;
pub use generator::Generator;
pub use grid::Grid;
pub use solver::Solver;
