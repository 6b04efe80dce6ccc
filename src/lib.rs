pub mod cli;
pub mod dag;
pub mod generator;
pub mod laws;
