//! The evaluation environment: the coin for tie-breaking reduction
//! order, the cancellation handle, and the destruction worklist.

use vstd::prelude::*;

use crate::bool_gen::BoolGen;
use crate::ctrlc_handler::{CtrlCError, CtrlCHandler};
use crate::expression::Expression;
use crate::garbage;

verus! {

pub struct EvaluationEnvironemnt {
    pub bool_gen: BoolGen,
    pub ctrlc_handler: CtrlCHandler,
    pub garbage: Vec<Expression>,
}

impl EvaluationEnvironemnt {
    pub open spec fn wf(&self) -> bool {
        self.bool_gen.wf()
    }

    /// An environment with a fresh coin and the given cancellation
    /// handle.
    pub fn new(ctrlc_handler: CtrlCHandler) -> (r: EvaluationEnvironemnt)
        ensures
            r.wf(),
    {
        EvaluationEnvironemnt { bool_gen: BoolGen::new(), ctrlc_handler, garbage: Vec::new() }
    }

    /// A coin toss; the heuristic that picks which stuck operand to
    /// reduce first.
    pub fn gen_bool(&mut self) -> (r: bool)
        requires
            old(self).wf(),
        ensures
            final(self).wf(),
            final(self).garbage == old(self).garbage,
    {
        self.bool_gen.gen()
    }

    /// One cooperative step boundary: drain the destruction worklist
    /// and report a pending cancellation.
    pub fn tick(&mut self) -> (r: Result<(), CtrlCError>)
        requires
            old(self).wf(),
        ensures
            final(self).wf(),
            final(self).garbage@.len() == 0,
    {
        garbage::collect(&mut self.garbage);
        self.ctrlc_handler.catch()
    }
}

} // verus!
