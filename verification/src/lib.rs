pub mod edge;
pub mod frontier;
pub mod laws;
pub mod layout;
pub mod letterboxsolver;
pub mod letters;
pub mod parallel;
pub mod rules;
pub mod word;
