//! The types of child nodes.
use vstd::prelude::*;

use crate::rules::{Alias, Symbol};

verus! {

/// The type of a child: a symbol, or an alias.
pub enum ChildType {
    Normal(Symbol),
    Aliased(Alias),
}

} // verus!
