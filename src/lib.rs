pub mod compare;
pub mod error;
pub mod process;
pub mod run;
pub mod suite;
pub mod text;
