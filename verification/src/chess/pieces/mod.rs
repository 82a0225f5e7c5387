pub mod king;
pub mod knight;
pub mod leapers;
pub mod pawn;
pub mod sliders;
