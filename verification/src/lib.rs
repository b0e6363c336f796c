//! Planning for parallel production in Rustorio saves: how a batch of work is
//! split over a row of machines, what each machine is handed, when the row is
//! done, and what is collected back from it.

pub mod mining;
pub mod parallel;
pub mod requirement;
pub mod settings;

pub use requirement::calculate_requirement;
