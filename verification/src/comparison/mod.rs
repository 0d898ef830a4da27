//! Comparisons between alternative layouts of the analyzed data.

pub mod compare_groups;
pub mod sizes;
