//! Helper routines shared by the analysis code.

pub mod analyze_utils;
