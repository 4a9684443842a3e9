//! Identifiers of the checked program that planning refers to.
use vstd::prelude::*;

verus! {

/// A symbol of the checked program.
#[derive(Clone, Copy, Debug, PartialEq, Eq, Structural)]
pub struct SymbolId(pub u32);

/// A lexical scope.
#[derive(Clone, Copy, Debug, PartialEq, Eq, Structural)]
pub struct ScopeId(pub u32);

/// An expression.
#[derive(Clone, Copy, Debug, PartialEq, Eq, Structural)]
pub struct HirExprId(pub u32);

/// A pattern.
#[derive(Clone, Copy, Debug, PartialEq, Eq, Structural)]
pub struct HirPatId(pub u32);

/// A top-level item.
#[derive(Clone, Copy, Debug, PartialEq, Eq, Structural)]
pub struct ItemId(pub u32);

/// A block.
#[derive(Clone, Copy, Debug, PartialEq, Eq, Structural)]
pub struct HirBlockId(pub u32);

/// A checked type.
#[derive(Clone, Copy, Debug, PartialEq, Eq, Structural)]
pub struct TypeId(pub u32);

impl ScopeId {
    pub fn index(self) -> (i: usize)
        ensures
            i == self.0,
    {
        self.0 as usize
    }
}

} // verus!
