//! A sample record to keep in a table.

use vstd::prelude::*;

verus! {

/// A person, by name and age.
#[derive(Debug, Clone, Copy, PartialEq, Eq)]
pub struct User<'a> {
    pub name: &'a str,
    pub age: usize,
}

} // verus!
