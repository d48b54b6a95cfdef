//! Gates and layers of an arithmetic circuit.
//!
//! A gate connects two input wires to one output wire through a field
//! operation; a layer is a list of gates that run in parallel over the same
//! input vector. Layers of gates are the usual producers of the
//! power-of-two evaluation tables that the sum-check prover consumes.

use vstd::prelude::*;

use crate::field::{all_fe_ok, fadd, fe_ok, fmul, FieldElement};

verus! {

/// The operation a gate applies to its two inputs.
#[derive(Clone, Copy, Debug, PartialEq, Eq, Structural)]
pub enum Operator {
    Add,
    Mul,
}

/// A single gate: two input wire indices, one output wire index, and the
/// operation combining the inputs.
pub struct Gate {
    pub left_index: usize,
    pub right_index: usize,
    pub output_index: usize,
    pub gate_operator: Operator,
}

/// A layer of gates that operate in parallel.
pub struct Layer {
    pub gates: Vec<Gate>,
}

impl Gate {
    /// A gate with the given wiring and operation.
    pub fn new(
        left_index: usize,
        right_index: usize,
        output_index: usize,
        gate_operator: Operator,
    ) -> (r: Gate)
        ensures
            r.left_index == left_index,
            r.right_index == right_index,
            r.output_index == output_index,
            r.gate_operator == gate_operator,
    {
        Gate { left_index, right_index, output_index, gate_operator }
    }

    /// Applies the operation to the two inputs selected by the wires.
    pub fn execute_gate(&mut self, inputs: Vec<FieldElement>) -> (r: FieldElement)
        requires
            old(self).left_index < inputs@.len(),
            old(self).right_index < inputs@.len(),
            all_fe_ok(inputs@),
        ensures
            *final(self) == *old(self),
            old(self).gate_operator == Operator::Add ==> r.val() == fadd(
                inputs@[old(self).left_index as int].val(),
                inputs@[old(self).right_index as int].val(),
            ),
            old(self).gate_operator == Operator::Mul ==> r.val() == fmul(
                inputs@[old(self).left_index as int].val(),
                inputs@[old(self).right_index as int].val(),
            ),
            fe_ok(r),
    {
        let result = match self.gate_operator {
            Operator::Add => inputs[self.left_index].add(&inputs[self.right_index]),
            Operator::Mul => inputs[self.left_index].mul(&inputs[self.right_index]),
        };
        result
    }
}

impl Layer {
    /// A layer made of the given gates.
    pub fn new(gates: Vec<Gate>) -> (r: Layer)
        ensures
            r.gates@ == gates@,
    {
        Layer { gates }
    }
}

} // verus!
