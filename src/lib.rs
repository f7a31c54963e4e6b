pub mod full_proof;
pub mod gf2;
pub mod online;
pub mod program;
