pub mod king;
pub mod knight;
pub mod leaper;
