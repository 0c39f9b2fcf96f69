//! The sort engine and the writers that follow it.

pub mod order_laws;
pub mod sort_fasta;
pub mod stable_sort;
pub mod writer;
pub mod writer_laws;
