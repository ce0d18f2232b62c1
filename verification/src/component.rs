//! The interface that every simulation component offers, its errors, and the
//! descriptor a component gives of its inputs and outputs.

use crate::binary64::Real;
use vstd::prelude::*;

verus! {

/// Why an operation on a component, a runtime or a registry failed.
#[derive(Debug)]
pub enum ComponentError {
    InitializationFailed(String),
    StepFailed(String),
    InvalidInput(String),
    InvalidOutput(String),
    MemoryError(String),
    RuntimeError(String),
    VariableNotFound(String),
    /// The variable's name, the rejected value, and the bounds of the range.
    BoundsCheckFailed(String, Real, Real, Real),
    ThreadSafetyError(String),
}

pub type ComponentResult<T> = Result<T, ComponentError>;

/// A [`ComponentError`] with its texts as character sequences.
pub enum Failure {
    InitializationFailed(Seq<char>),
    StepFailed(Seq<char>),
    InvalidInput(Seq<char>),
    InvalidOutput(Seq<char>),
    MemoryError(Seq<char>),
    RuntimeError(Seq<char>),
    VariableNotFound(Seq<char>),
    BoundsCheckFailed(Seq<char>, Real, Real, Real),
    ThreadSafetyError(Seq<char>),
}

impl View for ComponentError {
    type V = Failure;

    open spec fn view(&self) -> Failure {
        match self {
            ComponentError::InitializationFailed(m) => Failure::InitializationFailed(m@),
            ComponentError::StepFailed(m) => Failure::StepFailed(m@),
            ComponentError::InvalidInput(m) => Failure::InvalidInput(m@),
            ComponentError::InvalidOutput(m) => Failure::InvalidOutput(m@),
            ComponentError::MemoryError(m) => Failure::MemoryError(m@),
            ComponentError::RuntimeError(m) => Failure::RuntimeError(m@),
            ComponentError::VariableNotFound(m) => Failure::VariableNotFound(m@),
            ComponentError::BoundsCheckFailed(n, v, lo, hi) => Failure::BoundsCheckFailed(
                n@,
                *v,
                *lo,
                *hi,
            ),
            ComponentError::ThreadSafetyError(m) => Failure::ThreadSafetyError(m@),
        }
    }
}

/// The result of an operation that hands nothing back, with the error by its
/// view.
pub open spec fn outcome(r: ComponentResult<()>) -> Result<(), Failure> {
    match r {
        Ok(_) => Ok(()),
        Err(e) => Err(e@),
    }
}

/// An operation that was to take `before` to `expected` returned `result`
/// and left `after`: on success the state is the expected one, on failure
/// the error is the expected one and the state is untouched.
pub open spec fn transition<S>(
    before: S,
    expected: Result<S, Failure>,
    after: S,
    result: Result<(), Failure>,
) -> bool {
    match expected {
        Ok(s) => result is Ok && after == s,
        Err(e) => result == Err::<(), Failure>(e) && after == before,
    }
}

/// A read that was to give `expected` returned `result`.
pub open spec fn reading<T>(expected: Result<T, Failure>, result: ComponentResult<T>) -> bool {
    match expected {
        Ok(v) => result == Ok::<T, ComponentError>(v),
        Err(e) => result matches Err(x) && x@ == e,
    }
}

/// The kind of value that an input or output carries.
#[derive(Debug, Clone, Copy, PartialEq, Eq, Structural)]
pub enum IOType {
    Real,
    Boolean,
    Integer,
}

/// One input or output of a component.
#[derive(Debug, Clone)]
pub struct IOSpec {
    pub name: String,
    pub io_type: IOType,
    pub unit: Option<String>,
    pub description: Option<String>,
}

/// An [`IOSpec`] with its texts as character sequences.
pub struct IOSpecView {
    pub name: Seq<char>,
    pub io_type: IOType,
    pub unit: Option<Seq<char>>,
    pub description: Option<Seq<char>>,
}

/// The text of an optional string.
pub open spec fn optional_text(s: Option<String>) -> Option<Seq<char>> {
    match s {
        Some(t) => Some(t@),
        None => None,
    }
}

impl View for IOSpec {
    type V = IOSpecView;

    open spec fn view(&self) -> IOSpecView {
        IOSpecView {
            name: self.name@,
            io_type: self.io_type,
            unit: optional_text(self.unit),
            description: optional_text(self.description),
        }
    }
}

/// What a component says of itself: its name, its kind, and its inputs and
/// outputs.
#[derive(Debug, Clone)]
pub struct ComponentMetadata {
    pub name: String,
    pub component_type: String,
    pub inputs: Vec<IOSpec>,
    pub outputs: Vec<IOSpec>,
}

/// A [`ComponentMetadata`] with its texts as character sequences.
pub struct ComponentMetadataView {
    pub name: Seq<char>,
    pub component_type: Seq<char>,
    pub inputs: Seq<IOSpecView>,
    pub outputs: Seq<IOSpecView>,
}

impl View for ComponentMetadata {
    type V = ComponentMetadataView;

    open spec fn view(&self) -> ComponentMetadataView {
        ComponentMetadataView {
            name: self.name@,
            component_type: self.component_type@,
            inputs: self.inputs@.map_values(|s: IOSpec| s@),
            outputs: self.outputs@.map_values(|s: IOSpec| s@),
        }
    }
}

/// A simulation unit with named inputs and outputs that is advanced in time
/// steps.
///
/// An implementation chooses what `well_formed` and `step_outcome` mean for
/// it; every operation keeps a well-formed component well-formed, and `step`
/// behaves as `step_outcome` says. Both exist for proofs alone and are never
/// called. An implementation in unverified code writes them as ordinary
/// functions that return `true`; nothing is then proved of it, and what a
/// registry says of its steps says nothing.
pub trait SimulationComponent: Send + Sync {
    /// The component's own invariant.
    spec fn well_formed(&self) -> bool;

    /// Whether stepping `self` by `dt` may leave the component as `after`
    /// and return `result`.
    spec fn step_outcome(&self, dt: Real, after: &Self, result: Result<(), Failure>) -> bool;

    /// The identifier of this kind of component.
    fn component_type(&self) -> (r: &str)
        requires
            self.well_formed(),
    ;

    /// Brings the component to its initial state.
    fn initialize(&mut self) -> (r: ComponentResult<()>)
        requires
            old(self).well_formed(),
        ensures
            final(self).well_formed(),
    ;

    /// Sets a real-valued input.
    fn set_input(&mut self, name: &str, value: Real) -> (r: ComponentResult<()>)
        requires
            old(self).well_formed(),
        ensures
            final(self).well_formed(),
    ;

    /// Sets a boolean input.
    fn set_bool_input(&mut self, name: &str, value: bool) -> (r: ComponentResult<()>)
        requires
            old(self).well_formed(),
        ensures
            final(self).well_formed(),
    ;

    /// Reads an output.
    fn get_output(&self, name: &str) -> (r: ComponentResult<Real>)
        requires
            self.well_formed(),
    ;

    /// Advances the simulation by `dt` seconds.
    fn step(&mut self, dt: Real) -> (r: ComponentResult<()>)
        requires
            old(self).well_formed(),
        ensures
            final(self).well_formed(),
            old(self).step_outcome(dt, final(self), outcome(r)),
    ;

    /// Brings the component back to its initial state.
    fn reset(&mut self) -> (r: ComponentResult<()>)
        requires
            old(self).well_formed(),
        ensures
            final(self).well_formed(),
    ;

    /// A snapshot of all outputs, each with its name. A component that does
    /// not say otherwise has none.
    fn get_all_outputs(&self) -> (r: Vec<(String, Real)>)
        requires
            self.well_formed(),
        default_ensures
            r@.len() == 0,
    {
        Vec::new()
    }

    /// The component's descriptor.
    fn metadata(&self) -> (r: ComponentMetadata)
        requires
            self.well_formed(),
    ;
}

} // verus!
