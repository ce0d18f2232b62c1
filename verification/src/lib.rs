pub mod arithmetic;
pub mod binary64;
pub mod component;
pub mod components;
pub mod registry;
pub mod rounding;
pub mod runtime;
pub mod table;
mod text;

pub use binary64::Real;
pub use component::{
    ComponentError, ComponentMetadata, ComponentResult, IOSpec, IOType, SimulationComponent,
};
pub use components::simple_thermal::SimpleThermalComponent;
pub use registry::{ComponentId, ComponentRegistry};
pub use runtime::modelica_runtime::ModelicaRuntime;
