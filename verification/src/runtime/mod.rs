pub mod modelica_runtime;
