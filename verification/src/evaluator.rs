//! The evaluator's side of the interface: environments, the call stack, and
//! an evaluator that does not compute anything yet.

use crate::expression::Expression;
use crate::types::PotatoType;
use std::collections::HashMap;
use vstd::prelude::*;

verus! {

/// One scope: its names and their values, or no scope at all.
pub enum Env {
    Env(HashMap<String, PotatoType>),
    Nil,
}

/// A scope and the scope around it.
pub struct Environment {
    inner: Env,
    outer: Env,
}

impl Environment {
    pub closed spec fn inner(&self) -> Env {
        self.inner
    }

    pub closed spec fn outer(&self) -> Env {
        self.outer
    }

    pub fn new(inner: Env, outer: Env) -> (e: Environment)
        ensures
            e.inner() == inner,
            e.outer() == outer,
    {
        Environment { inner, outer }
    }

    /// The outermost environment: no names yet, and no scope around it.
    pub fn create_base_environment() -> (e: Environment)
        ensures
            e.inner() matches Env::Env(names) && names@ == Map::<String, PotatoType>::empty(),
            e.outer() is Nil,
    {
        Environment { inner: Env::Env(HashMap::new()), outer: Env::Nil }
    }
}

/// Where in the tree the evaluator stands.
pub struct CallStack {
    ast_traceback: Vec<u128>,
    exp_index: u128,
}

impl CallStack {
    pub closed spec fn traceback(&self) -> Seq<u128> {
        self.ast_traceback@
    }

    pub closed spec fn index(&self) -> u128 {
        self.exp_index
    }
}

impl Default for CallStack {
    fn default() -> (c: CallStack)
        ensures
            c.traceback() == Seq::<u128>::empty(),
            c.index() == 0,
    {
        CallStack { ast_traceback: Vec::new(), exp_index: 0 }
    }
}

#[derive(Debug)]
pub struct EvaluatorError(String);

impl View for EvaluatorError {
    type V = Seq<char>;

    closed spec fn view(&self) -> Seq<char> {
        self.0@
    }
}

impl Clone for EvaluatorError {
    fn clone(&self) -> (res: Self)
        ensures
            res@ == self@,
    {
        EvaluatorError(self.0.clone())
    }
}

impl EvaluatorError {
    /// The text of the error.
    pub fn message(&self) -> (s: String)
        ensures
            s@ == self@,
    {
        self.0.clone()
    }
}

pub struct Evaluator {
    call_stack: CallStack,
}

impl Evaluator {
    pub closed spec fn call_stack(&self) -> CallStack {
        self.call_stack
    }

    pub fn new() -> (e: Evaluator)
        ensures
            e.call_stack().traceback() == Seq::<u128>::empty(),
            e.call_stack().index() == 0,
    {
        Evaluator { call_stack: CallStack::default() }
    }

    /// Evaluation is not defined yet: every expression gives the integer 0
    /// and leaves the evaluator as it was.
    pub fn evaluate(&mut self, exp: &Expression) -> (r: Result<PotatoType, EvaluatorError>)
        ensures
            r == Ok::<PotatoType, EvaluatorError>(PotatoType::Int(0)),
            *final(self) == *old(self),
    {
        Ok(PotatoType::Int(0))
    }
}

} // verus!
