//! An embedded relational store: typed values and expressions, a slotted-page
//! record format, and a table-file engine driven by a small query executor.
use vstd::prelude::*;

pub mod errors;
pub mod utils;
pub mod value;
pub mod asl;
pub mod pages;
pub mod fs;
pub mod db;
pub mod sql;
