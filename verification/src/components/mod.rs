pub mod simple_thermal;
