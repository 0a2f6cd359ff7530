//! A search engine for the N-Queens problem: breadth-first, depth-first and
//! greedy best-first traversal over partial placements, with duplicate
//! suppression and three interchangeable scoring functions.

pub mod state;
pub mod heuristic;
pub mod children;
pub mod dedup;
pub mod frontier;
pub mod search;
pub mod seeding;
pub mod count;
pub mod guarantees;

pub use children::{generate_children, generate_children_extra};
pub use heuristic::{heuristic1, heuristic2, heuristic3, Heuristic};
pub use search::{solve, solver, solver_extra, Search, Stats, Step, Strategy, Traversal, MAX_SIZE};
pub use seeding::{initialize_board, initialize_board_extra};
pub use state::{conflict_checker, conflict_checker_extra, is_complete};
