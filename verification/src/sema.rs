//! What checking a program established, as the stages after it read it.

use vstd::prelude::*;

use crate::ast::{NodeId, Ty, TypeTable};

verus! {

/// The type of every node, every function's signature, and the types the
/// program has.
#[derive(Debug)]
pub struct Types {
    /// By [`NodeId`]: an expression's type, or the type a declaration names.
    pub nodes: Vec<Ty>,
    /// What each function returns, in declaration order.
    pub returns: Vec<Option<Ty>>,
    /// What each function takes, in declaration order.
    pub params: Vec<Vec<Ty>>,
    pub table: TypeTable,
}

impl Types {
    pub open spec fn has(self, id: NodeId) -> bool {
        id.0 < self.nodes@.len() && self.table.knows(self.nodes@[id.0 as int])
    }

    pub open spec fn ty(self, id: NodeId) -> Ty {
        self.nodes@[id.0 as int]
    }

    /// The type of a node.
    pub fn of(&self, id: NodeId) -> (ty: Ty)
        requires
            self.has(id),
        ensures
            ty == self.ty(id),
    {
        self.nodes[id.0 as usize]
    }

    pub fn table(&self) -> (table: &TypeTable)
        ensures
            *table == self.table,
    {
        &self.table
    }

    /// What a function returns.
    pub fn ret_of(&self, function: usize) -> (ret: Option<Ty>)
        requires
            function < self.returns@.len(),
        ensures
            ret == self.returns@[function as int],
    {
        self.returns[function]
    }

    /// What a function takes.
    pub fn params_of(&self, function: usize) -> (params: &Vec<Ty>)
        requires
            function < self.params@.len(),
        ensures
            *params == self.params@[function as int],
    {
        &self.params[function]
    }
}

} // verus!
