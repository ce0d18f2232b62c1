use modelica_rust_ffi::binary64::{
    FIVE_HUNDRED_BITS, ONE_BITS, THOUSAND_BITS, TWO_BITS, TWO_HUNDRED_FIFTY_BITS, ZERO_BITS,
};
use modelica_rust_ffi::component::Failure;
use modelica_rust_ffi::runtime::modelica_runtime::euler_temperature;
use modelica_rust_ffi::{
    ComponentError, ComponentId, ComponentMetadata, ComponentRegistry, ComponentResult, IOType,
    ModelicaRuntime, Real, SimpleThermalComponent, SimulationComponent,
};

fn r(x: f64) -> Real {
    Real::from_bits(x.to_bits())
}

fn f(x: Real) -> f64 {
    f64::from_bits(x.to_bits())
}

fn euler(room: f64, on: bool, dt: f64) -> f64 {
    let heating = if on { 500.0 } else { 0.0 };
    let losses = 2.0 * (room - 250.0);
    room + (heating - losses) / 1000.0 * dt
}

fn thermal() -> ModelicaRuntime {
    ModelicaRuntime::new("SimpleThermalMVP").unwrap()
}

fn reals_of(runtime: &ModelicaRuntime) -> Vec<u64> {
    [
        "roomTemp",
        "temperature",
        "heaterStatus",
        "roomCapacity",
        "ambientTemp",
        "heaterPower",
        "lossCoefficient",
    ]
    .iter()
    .map(|name| runtime.get_real_variable(name).unwrap().to_bits())
    .collect()
}

// ---------------------------------------------------------------- numbers

#[test]
fn named_encodings_are_the_numbers_they_name() {
    assert_eq!(f64::from_bits(ZERO_BITS), 0.0);
    assert_eq!(f64::from_bits(ONE_BITS), 1.0);
    assert_eq!(f64::from_bits(TWO_BITS), 2.0);
    assert_eq!(f64::from_bits(TWO_HUNDRED_FIFTY_BITS), 250.0);
    assert_eq!(f64::from_bits(FIVE_HUNDRED_BITS), 500.0);
    assert_eq!(f64::from_bits(THOUSAND_BITS), 1000.0);
}

#[test]
fn classification_agrees_with_the_machine() {
    let values = [
        0.0,
        -0.0,
        1.0,
        -1.0,
        5e-324,
        -5e-324,
        2.2250738585072014e-308,
        1.7976931348623157e308,
        -1.7976931348623157e308,
        f64::INFINITY,
        f64::NEG_INFINITY,
        f64::NAN,
        -f64::NAN,
    ];
    for &x in &values {
        assert_eq!(r(x).is_finite(), x.is_finite());
        assert_eq!(r(x).is_infinite(), x.is_infinite());
        assert_eq!(r(x).is_nan(), x.is_nan());
        assert_eq!(r(x).is_sign_negative(), x.is_sign_negative());
        assert_eq!(r(x).is_positive_finite(), x.is_finite() && x > 0.0);
        assert_eq!(r(x).to_bits(), x.to_bits());
    }
}

#[test]
fn order_agrees_with_the_machine() {
    let values = [
        0.0,
        -0.0,
        1.0,
        -1.0,
        0.5,
        250.0,
        1000.0,
        1000.0000000000001,
        999.9999999999999,
        5e-324,
        -5e-324,
        1e-310,
        -1e-310,
        2.2250738585072014e-308,
        1.7976931348623157e308,
        -1.7976931348623157e308,
        f64::INFINITY,
        f64::NEG_INFINITY,
        f64::NAN,
    ];
    for &a in &values {
        for &b in &values {
            assert_eq!(r(a).lt(r(b)), a < b, "{:e} < {:e}", a, b);
            assert_eq!(r(a).gt(r(b)), a > b, "{:e} > {:e}", a, b);
        }
    }
}

#[test]
fn euler_formula_agrees_with_the_machine() {
    let rooms = [250.0, 0.0, 300.0, 499.5, 500.0, 750.25, 1000.0, 123.456];
    let steps = [0.1, 1.0, 1e-3, 0.25, 7.5, 1e-12, 5e-324, 1e6];
    for &room in &rooms {
        for &dt in &steps {
            for &on in &[false, true] {
                let got = euler_temperature(
                    r(room),
                    r(1000.0),
                    r(250.0),
                    r(500.0),
                    r(2.0),
                    on,
                    r(dt),
                );
                assert_eq!(got.to_bits(), euler(room, on, dt).to_bits());
            }
        }
    }
}

#[test]
fn euler_formula_exact_values() {
    // 250 + (500 - 2 * (250 - 250)) / 1000 * 0.5 = 250.25
    let got = euler_temperature(r(250.0), r(1000.0), r(250.0), r(500.0), r(2.0), true, r(0.5));
    assert_eq!(f(got), 250.25);
    // 300 + (0 - 2 * (300 - 250)) / 1000 * 0.5 = 299.95
    let got = euler_temperature(r(300.0), r(1000.0), r(250.0), r(500.0), r(2.0), false, r(0.5));
    assert_eq!(f(got), 300.0 + (0.0 - 100.0) / 1000.0 * 0.5);
    assert_eq!(f(got), 299.95);
    // other parameters: 10 + (8 - 4 * (10 - 2)) / 16 * 2 = 7
    let got = euler_temperature(r(10.0), r(16.0), r(2.0), r(8.0), r(4.0), true, r(2.0));
    assert_eq!(f(got), 7.0);
}

// ---------------------------------------------------------------- runtime

#[test]
fn new_runtime_holds_the_declared_variables() {
    let runtime = thermal();
    assert_eq!(f(runtime.get_real_variable("roomTemp").unwrap()), 250.0);
    assert_eq!(f(runtime.get_real_variable("temperature").unwrap()), 250.0);
    assert_eq!(f(runtime.get_real_variable("heaterStatus").unwrap()), 0.0);
    assert_eq!(f(runtime.get_real_variable("roomCapacity").unwrap()), 1000.0);
    assert_eq!(f(runtime.get_real_variable("ambientTemp").unwrap()), 250.0);
    assert_eq!(f(runtime.get_real_variable("heaterPower").unwrap()), 500.0);
    assert_eq!(f(runtime.get_real_variable("lossCoefficient").unwrap()), 2.0);
    assert_eq!(runtime.get_bool_variable("heaterOn").unwrap(), false);
    assert_eq!(runtime.time().to_bits(), 0);
    assert_eq!(runtime.component_name(), "SimpleThermalMVP");
}

#[test]
fn new_runtime_errors_name_the_cause() {
    match ModelicaRuntime::new("") {
        Err(ComponentError::InitializationFailed(m)) => {
            assert_eq!(m, "Component name cannot be empty")
        }
        _ => panic!("expected InitializationFailed"),
    }
    match ModelicaRuntime::new("Pendulum") {
        Err(ComponentError::InitializationFailed(m)) => assert_eq!(m, "Unknown component: Pendulum"),
        _ => panic!("expected InitializationFailed"),
    }
    assert!(ModelicaRuntime::new("simplethermalmvp").is_err());
    assert!(ModelicaRuntime::new("SimpleThermalMVP ").is_err());
}

#[test]
fn unknown_variables_are_not_created() {
    let mut runtime = thermal();
    match runtime.get_real_variable("heaterOn") {
        Err(ComponentError::VariableNotFound(n)) => assert_eq!(n, "heaterOn"),
        _ => panic!("expected VariableNotFound"),
    }
    match runtime.get_bool_variable("temperature") {
        Err(ComponentError::VariableNotFound(n)) => assert_eq!(n, "temperature"),
        _ => panic!("expected VariableNotFound"),
    }
    match runtime.set_real_variable("pressure", r(1.0)) {
        Err(ComponentError::VariableNotFound(n)) => assert_eq!(n, "pressure"),
        _ => panic!("expected VariableNotFound"),
    }
    match runtime.set_bool_variable("valveOpen", true) {
        Err(ComponentError::VariableNotFound(n)) => assert_eq!(n, "valveOpen"),
        _ => panic!("expected VariableNotFound"),
    }
    assert!(runtime.get_real_variable("pressure").is_err());
    assert!(runtime.get_bool_variable("valveOpen").is_err());
}

#[test]
fn set_real_rejects_values_that_are_not_finite_first() {
    let mut runtime = thermal();
    for &x in &[f64::NAN, f64::INFINITY, f64::NEG_INFINITY] {
        match runtime.set_real_variable("temperature", r(x)) {
            Err(ComponentError::InvalidInput(m)) => {
                assert_eq!(m, "Value for 'temperature' must be finite")
            }
            _ => panic!("expected InvalidInput"),
        }
        // Even for a variable that does not exist.
        assert!(matches!(
            runtime.set_real_variable("pressure", r(x)),
            Err(ComponentError::InvalidInput(_))
        ));
    }
    assert_eq!(f(runtime.get_real_variable("temperature").unwrap()), 250.0);
}

#[test]
fn temperature_bounds_are_inclusive() {
    let mut runtime = thermal();
    for name in ["temperature", "roomTemp"] {
        for &x in &[0.0, -0.0, 5e-324, 250.0, 999.9999999999999, 1000.0] {
            runtime.set_real_variable(name, r(x)).unwrap();
            assert_eq!(runtime.get_real_variable(name).unwrap().to_bits(), x.to_bits());
        }
        for &x in &[-5e-324, -0.1, -100.0, 1000.0000000000001, 2000.0, 1e308, -1e308] {
            match runtime.set_real_variable(name, r(x)) {
                Err(ComponentError::BoundsCheckFailed(n, v, lo, hi)) => {
                    assert_eq!(n, name);
                    assert_eq!(v.to_bits(), x.to_bits());
                    assert_eq!(f(lo), 0.0);
                    assert_eq!(f(hi), 1000.0);
                }
                _ => panic!("expected BoundsCheckFailed for {}", x),
            }
            // The rejected value is not stored.
            assert_eq!(f(runtime.get_real_variable(name).unwrap()), 1000.0);
        }
    }
}

#[test]
fn other_variables_have_no_bounds() {
    let mut runtime = thermal();
    for name in ["heaterStatus", "roomCapacity", "ambientTemp", "heaterPower", "lossCoefficient"] {
        for &x in &[-1e308, -1.0, 0.0, 2000.0, 1e308] {
            runtime.set_real_variable(name, r(x)).unwrap();
            assert_eq!(f(runtime.get_real_variable(name).unwrap()), x);
        }
    }
}

#[test]
fn last_write_wins() {
    let mut runtime = thermal();
    runtime.set_real_variable("heaterPower", r(1.0)).unwrap();
    runtime.set_real_variable("heaterPower", r(2.0)).unwrap();
    runtime.set_real_variable("heaterPower", r(3.0)).unwrap();
    assert_eq!(f(runtime.get_real_variable("heaterPower").unwrap()), 3.0);
    runtime.set_bool_variable("heaterOn", true).unwrap();
    runtime.set_bool_variable("heaterOn", false).unwrap();
    runtime.set_bool_variable("heaterOn", true).unwrap();
    assert_eq!(runtime.get_bool_variable("heaterOn").unwrap(), true);
    // Nothing else moved.
    assert_eq!(f(runtime.get_real_variable("roomTemp").unwrap()), 250.0);
    assert_eq!(f(runtime.get_real_variable("lossCoefficient").unwrap()), 2.0);
}

#[test]
fn step_computes_the_euler_update() {
    let mut runtime = thermal();
    runtime.set_bool_variable("heaterOn", true).unwrap();
    let mut room = 250.0f64;
    let mut time = 0.0f64;
    for _ in 0..50 {
        runtime.step(r(0.1)).unwrap();
        room = euler(room, true, 0.1);
        time += 0.1;
        assert_eq!(runtime.get_real_variable("roomTemp").unwrap().to_bits(), room.to_bits());
        assert_eq!(runtime.get_real_variable("temperature").unwrap().to_bits(), room.to_bits());
        assert_eq!(f(runtime.get_real_variable("heaterStatus").unwrap()), 1.0);
        assert_eq!(runtime.time().to_bits(), time.to_bits());
    }
    runtime.set_bool_variable("heaterOn", false).unwrap();
    // The status follows the switch only with the next step.
    assert_eq!(f(runtime.get_real_variable("heaterStatus").unwrap()), 1.0);
    runtime.step(r(0.25)).unwrap();
    room = euler(room, false, 0.25);
    assert_eq!(runtime.get_real_variable("temperature").unwrap().to_bits(), room.to_bits());
    assert_eq!(f(runtime.get_real_variable("heaterStatus").unwrap()), 0.0);
}

#[test]
fn step_reads_the_room_temperature_not_its_alias() {
    let mut runtime = thermal();
    runtime.set_real_variable("temperature", r(900.0)).unwrap();
    runtime.set_real_variable("roomTemp", r(300.0)).unwrap();
    runtime.step(r(1.0)).unwrap();
    let expected = euler(300.0, false, 1.0);
    assert_eq!(f(runtime.get_real_variable("roomTemp").unwrap()), expected);
    assert_eq!(f(runtime.get_real_variable("temperature").unwrap()), expected);
}

#[test]
fn step_uses_the_parameters_as_they_stand() {
    let mut runtime = thermal();
    runtime.set_real_variable("roomTemp", r(10.0)).unwrap();
    runtime.set_real_variable("roomCapacity", r(16.0)).unwrap();
    runtime.set_real_variable("ambientTemp", r(2.0)).unwrap();
    runtime.set_real_variable("heaterPower", r(8.0)).unwrap();
    runtime.set_real_variable("lossCoefficient", r(4.0)).unwrap();
    runtime.set_bool_variable("heaterOn", true).unwrap();
    runtime.step(r(2.0)).unwrap();
    assert_eq!(f(runtime.get_real_variable("roomTemp").unwrap()), 7.0);
    assert_eq!(f(runtime.time()), 2.0);
}

#[test]
fn invalid_timestep_fails_and_changes_nothing() {
    let mut runtime = thermal();
    runtime.set_bool_variable("heaterOn", true).unwrap();
    runtime.step(r(0.5)).unwrap();
    let before = reals_of(&runtime);
    let time = runtime.time().to_bits();
    for &dt in &[0.0, -0.0, -0.1, -1e300, f64::NAN, f64::INFINITY, f64::NEG_INFINITY, -5e-324] {
        match runtime.step(r(dt)) {
            Err(ComponentError::StepFailed(m)) => {
                assert_eq!(m, "Invalid timestep. Must be positive and finite.")
            }
            _ => panic!("expected StepFailed for {}", dt),
        }
        assert_eq!(reals_of(&runtime), before);
        assert_eq!(runtime.time().to_bits(), time);
        assert_eq!(runtime.get_bool_variable("heaterOn").unwrap(), true);
    }
    // The smallest positive number is a valid time step.
    runtime.step(r(5e-324)).unwrap();
}

#[test]
fn step_fails_on_a_temperature_that_is_not_finite() {
    let mut runtime = thermal();
    runtime.set_real_variable("roomCapacity", r(0.0)).unwrap();
    runtime.set_bool_variable("heaterOn", true).unwrap();
    let before = reals_of(&runtime);
    // (500 - 0) / 0 is infinite.
    match runtime.step(r(0.1)) {
        Err(ComponentError::StepFailed(m)) => {
            assert_eq!(m, "Temperature calculation resulted in non-finite value")
        }
        _ => panic!("expected StepFailed"),
    }
    assert_eq!(reals_of(&runtime), before);
    assert_eq!(runtime.time().to_bits(), 0);
    // (0 - 0) / 0 is no number.
    runtime.set_bool_variable("heaterOn", false).unwrap();
    assert!(matches!(runtime.step(r(0.1)), Err(ComponentError::StepFailed(_))));
    assert_eq!(reals_of(&runtime), before);
}

#[test]
fn step_fails_on_a_temperature_out_of_range() {
    let mut runtime = thermal();
    runtime.set_bool_variable("heaterOn", true).unwrap();
    let before = reals_of(&runtime);
    // 250 + 0.5 * 1e6 is far above 1000.
    match runtime.step(r(1e6)) {
        Err(ComponentError::BoundsCheckFailed(n, v, lo, hi)) => {
            assert_eq!(n, "roomTemp");
            assert_eq!(f(v), euler(250.0, true, 1e6));
            assert_eq!(f(lo), 0.0);
            assert_eq!(f(hi), 1000.0);
        }
        _ => panic!("expected BoundsCheckFailed"),
    }
    assert_eq!(reals_of(&runtime), before);
    assert_eq!(runtime.time().to_bits(), 0);
}

#[test]
fn record_temperature_checks_and_stores() {
    let mut runtime = thermal();
    runtime.set_bool_variable("heaterOn", true).unwrap();
    runtime.record_temperature(r(321.5)).unwrap();
    assert_eq!(f(runtime.get_real_variable("roomTemp").unwrap()), 321.5);
    assert_eq!(f(runtime.get_real_variable("temperature").unwrap()), 321.5);
    assert_eq!(f(runtime.get_real_variable("heaterStatus").unwrap()), 1.0);
    assert_eq!(runtime.time().to_bits(), 0);
    assert!(matches!(
        runtime.record_temperature(r(f64::NAN)),
        Err(ComponentError::StepFailed(_))
    ));
    assert!(matches!(
        runtime.record_temperature(r(f64::INFINITY)),
        Err(ComponentError::StepFailed(_))
    ));
    assert!(matches!(
        runtime.record_temperature(r(1000.5)),
        Err(ComponentError::BoundsCheckFailed(_, _, _, _))
    ));
    assert!(matches!(
        runtime.record_temperature(r(-0.5)),
        Err(ComponentError::BoundsCheckFailed(_, _, _, _))
    ));
    assert_eq!(f(runtime.get_real_variable("roomTemp").unwrap()), 321.5);
    runtime.set_bool_variable("heaterOn", false).unwrap();
    runtime.record_temperature(r(0.0)).unwrap();
    assert_eq!(f(runtime.get_real_variable("temperature").unwrap()), 0.0);
    assert_eq!(f(runtime.get_real_variable("heaterStatus").unwrap()), 0.0);
}

#[test]
fn runtime_reset_goes_back_to_the_ambient_temperature() {
    let mut runtime = thermal();
    runtime.set_real_variable("ambientTemp", r(280.0)).unwrap();
    runtime.set_bool_variable("heaterOn", true).unwrap();
    runtime.step(r(2.0)).unwrap();
    runtime.reset().unwrap();
    assert_eq!(f(runtime.get_real_variable("roomTemp").unwrap()), 280.0);
    assert_eq!(f(runtime.get_real_variable("temperature").unwrap()), 280.0);
    assert_eq!(f(runtime.get_real_variable("heaterStatus").unwrap()), 0.0);
    assert_eq!(runtime.get_bool_variable("heaterOn").unwrap(), false);
    assert_eq!(runtime.time().to_bits(), 0);
    // The parameters stay as they were set.
    assert_eq!(f(runtime.get_real_variable("ambientTemp").unwrap()), 280.0);
    assert_eq!(f(runtime.get_real_variable("heaterPower").unwrap()), 500.0);
}

#[test]
fn runtime_reset_fails_where_the_ambient_temperature_is_out_of_range() {
    let mut runtime = thermal();
    runtime.set_real_variable("ambientTemp", r(1500.0)).unwrap();
    runtime.set_bool_variable("heaterOn", true).unwrap();
    runtime.step(r(0.5)).unwrap();
    let before = reals_of(&runtime);
    let time = runtime.time().to_bits();
    match runtime.reset() {
        Err(ComponentError::BoundsCheckFailed(n, v, _, _)) => {
            assert_eq!(n, "roomTemp");
            assert_eq!(f(v), 1500.0);
        }
        _ => panic!("expected BoundsCheckFailed"),
    }
    assert_eq!(reals_of(&runtime), before);
    assert_eq!(runtime.time().to_bits(), time);
    assert_eq!(runtime.get_bool_variable("heaterOn").unwrap(), true);
}

#[test]
fn time_advances_by_the_steps() {
    let mut runtime = thermal();
    let mut time = 0.0f64;
    for &dt in &[0.1, 0.2, 0.3, 1e-9, 17.0] {
        runtime.step(r(dt)).unwrap();
        time += dt;
        assert_eq!(runtime.time().to_bits(), time.to_bits());
    }
}

#[test]
fn time_does_not_run_back() {
    let mut runtime = thermal();
    let mut last = 0.0f64;
    for &dt in &[1e15, 1.0, 1e-3, 5e-324, 1e16, 0.5, 1e300, 1.0, 1.7976931348623157e308, 1e308] {
        runtime.step(r(dt)).unwrap();
        let now = f(runtime.time());
        assert!(now >= last);
        assert_eq!(now, last + dt);
        last = now;
    }
    // The clock has run over the largest number and stays at infinity.
    assert!(f(runtime.time()).is_infinite());
    runtime.step(r(1.0)).unwrap();
    assert!(f(runtime.time()).is_infinite());
    runtime.reset().unwrap();
    assert_eq!(f(runtime.time()), 0.0);
}

// -------------------------------------------------------------- component

fn outputs_of(component: &SimpleThermalComponent) -> (u64, u64) {
    (
        component.get_output("temperature").unwrap().to_bits(),
        component.get_output("heaterStatus").unwrap().to_bits(),
    )
}

#[test]
fn heating_raises_and_cooling_lowers_the_temperature() {
    let mut component = SimpleThermalComponent::new().unwrap();
    component.set_bool_input("heaterOn", true).unwrap();
    let mut last = 250.0;
    for &dt in &[0.1, 1.0, 0.001, 5.0, 0.5] {
        component.step(r(dt)).unwrap();
        let now = f(component.get_output("temperature").unwrap());
        assert!(now > last);
        assert!(now < 500.0);
        last = now;
    }
    component.set_bool_input("heaterOn", false).unwrap();
    for &dt in &[0.1, 1.0, 0.001, 5.0, 0.5] {
        component.step(r(dt)).unwrap();
        let now = f(component.get_output("temperature").unwrap());
        assert!(now < last);
        assert!(now > 250.0);
        last = now;
    }
}

#[test]
fn a_rise_below_half_the_spacing_is_lost() {
    let mut component = SimpleThermalComponent::new().unwrap();
    component.set_bool_input("heaterOn", true).unwrap();
    // The temperature would rise by 0.5 * 5e-324, which no binary64 number
    // tells from zero; so it is with the machine's own arithmetic.
    component.step(r(5e-324)).unwrap();
    assert_eq!(f(component.get_output("temperature").unwrap()), 250.0);
    assert_eq!(euler(250.0, true, 5e-324), 250.0);
    // The step has been taken all the same.
    assert_eq!(f(component.get_output("heaterStatus").unwrap()), 1.0);
    // With a larger step the rise is still lost in the rounding of the sum.
    component.step(r(1e-14)).unwrap();
    assert_eq!(f(component.get_output("temperature").unwrap()), 250.0);
    assert_eq!(euler(250.0, true, 1e-14), 250.0);
}

#[test]
fn end_to_end_heating() {
    let mut component = SimpleThermalComponent::new().unwrap();
    component.initialize().unwrap();
    component.set_bool_input("heaterOn", true).unwrap();
    let mut expected = 250.0f64;
    for _ in 0..100 {
        component.step(r(0.1)).unwrap();
        expected = euler(expected, true, 0.1);
    }
    let temperature = f(component.get_output("temperature").unwrap());
    assert!(temperature > 250.0);
    assert_eq!(temperature, expected);
}

#[test]
fn end_to_end_cooling() {
    let mut runtime = thermal();
    runtime.set_real_variable("roomTemp", r(300.0)).unwrap();
    runtime.set_bool_variable("heaterOn", false).unwrap();
    runtime.step(r(0.1)).unwrap();
    let temperature = f(runtime.get_real_variable("temperature").unwrap());
    assert!(temperature < 300.0);
    assert_eq!(temperature, 300.0 + (0.0 - 2.0 * (300.0 - 250.0)) / 1000.0 * 0.1);
    assert_eq!(temperature, 299.99);
}

#[test]
fn reset_restores_the_initial_state_and_is_idempotent() {
    let fresh = SimpleThermalComponent::new().unwrap();
    let mut initialized = SimpleThermalComponent::new().unwrap();
    initialized.set_bool_input("heaterOn", true).unwrap();
    initialized.step(r(3.0)).unwrap();
    initialized.initialize().unwrap();

    let mut component = SimpleThermalComponent::new().unwrap();
    component.set_bool_input("heaterOn", true).unwrap();
    for &dt in &[0.1, 2.0, 0.7] {
        component.step(r(dt)).unwrap();
    }
    assert_ne!(outputs_of(&component), outputs_of(&fresh));
    assert_eq!(f(component.time()), 0.1 + 2.0 + 0.7);
    component.reset().unwrap();
    assert_eq!(component.time().to_bits(), 0);
    assert_eq!(initialized.time().to_bits(), 0);
    assert_eq!(fresh.time().to_bits(), 0);
    assert_eq!(outputs_of(&component), outputs_of(&fresh));
    assert_eq!(outputs_of(&component), outputs_of(&initialized));
    assert_eq!(f(component.get_output("temperature").unwrap()), 250.0);
    assert_eq!(f(component.get_output("heaterStatus").unwrap()), 0.0);
    component.reset().unwrap();
    assert_eq!(outputs_of(&component), outputs_of(&fresh));
    // The heater is off again and the clock at zero: the reset component
    // and a new one go the same way.
    let mut other = SimpleThermalComponent::new().unwrap();
    for &dt in &[0.5, 0.25] {
        component.step(r(dt)).unwrap();
        other.step(r(dt)).unwrap();
        assert_eq!(outputs_of(&component), outputs_of(&other));
    }
    assert_eq!(f(component.get_output("temperature").unwrap()), 250.0);
}

#[test]
fn component_inputs_and_outputs() {
    let mut component = SimpleThermalComponent::new().unwrap();
    assert_eq!(component.component_type(), "SimpleThermalMVP");
    for name in ["heaterOn", "temperature", "roomTemp", ""] {
        match component.set_input(name, r(1.0)) {
            Err(ComponentError::InvalidInput(m)) => {
                assert_eq!(m, format!("SimpleThermal has no real inputs. Got: {}", name))
            }
            _ => panic!("expected InvalidInput"),
        }
    }
    match component.set_bool_input("heater", true) {
        Err(ComponentError::InvalidInput(m)) => assert_eq!(m, "Unknown boolean input: heater"),
        _ => panic!("expected InvalidInput"),
    }
    match component.get_output("roomTemp") {
        Err(ComponentError::InvalidOutput(m)) => assert_eq!(m, "Unknown output: roomTemp"),
        _ => panic!("expected InvalidOutput"),
    }
    assert!(matches!(component.get_output("heaterOn"), Err(ComponentError::InvalidOutput(_))));
    assert_eq!(f(component.get_output("temperature").unwrap()), 250.0);
    assert_eq!(f(component.get_output("heaterStatus").unwrap()), 0.0);
    component.set_bool_input("heaterOn", true).unwrap();
    component.step(r(1.0)).unwrap();
    assert_eq!(f(component.get_output("temperature").unwrap()), 250.5);
    assert_eq!(f(component.get_output("heaterStatus").unwrap()), 1.0);
}

#[test]
fn component_step_errors() {
    let mut component = SimpleThermalComponent::new().unwrap();
    component.set_bool_input("heaterOn", true).unwrap();
    for &dt in &[0.0, -1.0, f64::NAN, f64::INFINITY] {
        assert!(matches!(component.step(r(dt)), Err(ComponentError::StepFailed(_))));
        assert_eq!(f(component.get_output("temperature").unwrap()), 250.0);
        assert_eq!(f(component.get_output("heaterStatus").unwrap()), 0.0);
        assert_eq!(component.time().to_bits(), 0);
    }
    assert!(matches!(
        component.step(r(1e6)),
        Err(ComponentError::BoundsCheckFailed(_, _, _, _))
    ));
    assert_eq!(f(component.get_output("temperature").unwrap()), 250.0);
}

#[test]
fn all_outputs_are_a_snapshot() {
    let mut component = SimpleThermalComponent::new().unwrap();
    component.set_bool_input("heaterOn", true).unwrap();
    component.step(r(1.0)).unwrap();
    let snapshot = component.get_all_outputs();
    assert_eq!(snapshot.len(), 2);
    assert_eq!(snapshot[0].0, "temperature");
    assert_eq!(f(snapshot[0].1), 250.5);
    assert_eq!(snapshot[1].0, "heaterStatus");
    assert_eq!(f(snapshot[1].1), 1.0);
    component.step(r(1.0)).unwrap();
    assert_eq!(f(snapshot[0].1), 250.5);
    assert_ne!(f(component.get_all_outputs()[0].1), 250.5);
}

#[test]
fn metadata_describes_the_thermal_model() {
    let component = SimpleThermalComponent::new().unwrap();
    let m = component.metadata();
    assert_eq!(m.name, "SimpleThermalMVP");
    assert_eq!(m.component_type, "Thermal");
    assert_eq!(m.inputs.len(), 1);
    assert_eq!(m.inputs[0].name, "heaterOn");
    assert_eq!(m.inputs[0].io_type, IOType::Boolean);
    assert_eq!(m.inputs[0].unit, None);
    assert_eq!(m.inputs[0].description.as_deref(), Some("Heater control signal"));
    assert_eq!(m.outputs.len(), 2);
    assert_eq!(m.outputs[0].name, "temperature");
    assert_eq!(m.outputs[0].io_type, IOType::Real);
    assert_eq!(m.outputs[0].unit.as_deref(), Some("K"));
    assert_eq!(m.outputs[0].description.as_deref(), Some("Current room temperature"));
    assert_eq!(m.outputs[1].name, "heaterStatus");
    assert_eq!(m.outputs[1].io_type, IOType::Real);
    assert_eq!(m.outputs[1].unit, None);
    assert_eq!(m.outputs[1].description.as_deref(), Some("Heater status (0=off, 1=on)"));
    let copy = m.clone();
    assert_eq!(copy.outputs[1].name, "heaterStatus");
}

// --------------------------------------------------------------- registry

/// A component with a plain counter, which fails every step once told to.
struct Counter {
    steps: u32,
    broken: bool,
}

impl SimulationComponent for Counter {
    fn well_formed(&self) -> bool {
        true
    }

    fn step_outcome(&self, _dt: Real, _after: &Self, _result: Result<(), Failure>) -> bool {
        true
    }

    fn component_type(&self) -> &str {
        "Counter"
    }

    fn initialize(&mut self) -> ComponentResult<()> {
        self.steps = 0;
        Ok(())
    }

    fn set_input(&mut self, _name: &str, _value: Real) -> ComponentResult<()> {
        Ok(())
    }

    fn set_bool_input(&mut self, _name: &str, value: bool) -> ComponentResult<()> {
        self.broken = value;
        Ok(())
    }

    fn get_output(&self, _name: &str) -> ComponentResult<Real> {
        Ok(Real::from_bits(self.steps as u64))
    }

    fn step(&mut self, _dt: Real) -> ComponentResult<()> {
        if self.broken {
            Err(ComponentError::StepFailed("broken".to_string()))
        } else {
            self.steps += 1;
            Ok(())
        }
    }

    fn reset(&mut self) -> ComponentResult<()> {
        self.steps = 0;
        Ok(())
    }

    fn metadata(&self) -> ComponentMetadata {
        ComponentMetadata {
            name: "Counter".to_string(),
            component_type: "Test".to_string(),
            inputs: Vec::new(),
            outputs: Vec::new(),
        }
    }
}

fn counter(broken: bool) -> Counter {
    Counter { steps: 0, broken }
}

#[test]
fn default_snapshot_is_empty() {
    assert!(counter(false).get_all_outputs().is_empty());
}

#[test]
fn registry_rejects_a_name_twice() {
    let mut registry = ComponentRegistry::new();
    let first = registry.add("room".to_string(), SimpleThermalComponent::new().unwrap()).unwrap();
    match registry.add("room".to_string(), SimpleThermalComponent::new().unwrap()) {
        Err(ComponentError::InitializationFailed(m)) => {
            assert_eq!(m, "Component with name 'room' already exists")
        }
        _ => panic!("expected InitializationFailed"),
    }
    assert!(matches!(
        registry.add_component(
            ComponentId::from_u128(7),
            "room".to_string(),
            SimpleThermalComponent::new().unwrap()
        ),
        Err(ComponentError::InitializationFailed(_))
    ));
    assert_eq!(registry.list_ids(), vec![first]);
    assert_eq!(registry.list_names(), vec!["room".to_string()]);
    assert!(registry.get(ComponentId::from_u128(7)).is_none());
}

#[test]
fn registry_remove_of_absent_identifier_fails() {
    let mut registry: ComponentRegistry<Counter> = ComponentRegistry::new();
    match registry.remove(ComponentId::from_u128(0x0123_4567_89ab_cdef_fedc_ba98_7654_3210)) {
        Err(ComponentError::InvalidInput(m)) => {
            assert_eq!(m, "Component 01234567-89ab-cdef-fedc-ba9876543210 not found")
        }
        _ => panic!("expected InvalidInput"),
    }
    let id = registry.add("a".to_string(), counter(false)).unwrap();
    registry.remove(id).unwrap();
    assert!(matches!(registry.remove(id), Err(ComponentError::InvalidInput(_))));
}

#[test]
fn registry_lookup_after_remove_is_absent() {
    let mut registry = ComponentRegistry::new();
    let a = registry.add("a".to_string(), counter(false)).unwrap();
    let b = registry.add("b".to_string(), counter(false)).unwrap();
    assert!(registry.get_by_name("a").is_some());
    registry.remove(a).unwrap();
    assert!(registry.get_by_name("a").is_none());
    assert!(registry.get_mut_by_name("a").is_none());
    assert!(registry.get(a).is_none());
    assert!(registry.get_mut(a).is_none());
    assert!(registry.get_by_name("b").is_some());
    assert!(registry.get(b).is_some());
    assert_eq!(registry.list_ids(), vec![b]);
    assert_eq!(registry.list_names(), vec!["b".to_string()]);
    // The name is free again.
    let again = registry.add("a".to_string(), counter(false)).unwrap();
    assert!(registry.get(again).is_some());
}

#[test]
fn registry_add_component_uses_the_given_identifier() {
    let mut registry = ComponentRegistry::new();
    let id = ComponentId::from_u128(42);
    registry.add_component(id, "x".to_string(), counter(false)).unwrap();
    assert_eq!(id.as_u128(), 42);
    assert_eq!(registry.get(id).unwrap().component_type(), "Counter");
    assert_eq!(registry.get_by_name("x").unwrap().component_type(), "Counter");
    assert!(registry.get(ComponentId::from_u128(43)).is_none());
    assert!(registry.get_by_name("y").is_none());
}

#[test]
fn registry_same_identifier_under_two_names() {
    let mut registry = ComponentRegistry::new();
    let id = ComponentId::from_u128(1);
    let mut first = counter(false);
    first.steps = 10;
    let mut second = counter(false);
    second.steps = 20;
    registry.add_component(id, "one".to_string(), first).unwrap();
    registry.add_component(id, "two".to_string(), second).unwrap();
    // The second component has taken the place of the first.
    assert_eq!(registry.list_ids(), vec![id]);
    assert_eq!(registry.get(id).unwrap().get_output("").unwrap().to_bits(), 20);
    assert_eq!(registry.get_by_name("one").unwrap().get_output("").unwrap().to_bits(), 20);
    assert_eq!(registry.get_by_name("two").unwrap().get_output("").unwrap().to_bits(), 20);
    let mut names = registry.list_names();
    names.sort();
    assert_eq!(names, vec!["one".to_string(), "two".to_string()]);
    // Removing the identifier drops both names.
    registry.remove(id).unwrap();
    assert!(registry.get_by_name("one").is_none());
    assert!(registry.get_by_name("two").is_none());
    assert!(registry.list_names().is_empty());
    assert!(registry.list_ids().is_empty());
}

#[test]
fn registry_get_mut_changes_the_component_in_place() {
    let mut registry = ComponentRegistry::new();
    let id = registry.add("room".to_string(), SimpleThermalComponent::new().unwrap()).unwrap();
    registry.get_mut(id).unwrap().set_bool_input("heaterOn", true).unwrap();
    registry.get_mut_by_name("room").unwrap().step(r(1.0)).unwrap();
    assert_eq!(f(registry.get(id).unwrap().get_output("temperature").unwrap()), 250.5);
    assert_eq!(
        f(registry.get_by_name("room").unwrap().get_output("heaterStatus").unwrap()),
        1.0
    );
}

#[test]
fn registry_steps_all_components() {
    let mut registry = ComponentRegistry::new();
    let a = registry.add("a".to_string(), SimpleThermalComponent::new().unwrap()).unwrap();
    let b = registry.add("b".to_string(), SimpleThermalComponent::new().unwrap()).unwrap();
    registry.get_mut(a).unwrap().set_bool_input("heaterOn", true).unwrap();
    registry.step_all(r(1.0)).unwrap();
    registry.step_all(r(1.0)).unwrap();
    let expected = euler(euler(250.0, true, 1.0), true, 1.0);
    assert_eq!(f(registry.get(a).unwrap().get_output("temperature").unwrap()), expected);
    assert_eq!(f(registry.get(b).unwrap().get_output("temperature").unwrap()), 250.0);
    // An invalid time step fails at the first component.
    assert!(matches!(registry.step_all(r(0.0)), Err(ComponentError::StepFailed(_))));
    assert_eq!(f(registry.get(a).unwrap().get_output("temperature").unwrap()), expected);
    // An empty registry has nothing to fail on.
    let mut empty: ComponentRegistry<SimpleThermalComponent> = ComponentRegistry::new();
    empty.step_all(r(0.0)).unwrap();
}

#[test]
fn registry_step_all_stops_at_the_first_failure() {
    let mut registry = ComponentRegistry::new();
    let a = registry.add("a".to_string(), counter(false)).unwrap();
    let b = registry.add("b".to_string(), counter(true)).unwrap();
    let c = registry.add("c".to_string(), counter(false)).unwrap();
    assert_eq!(registry.list_ids(), vec![a, b, c]);
    match registry.step_all(r(1.0)) {
        Err(ComponentError::StepFailed(m)) => assert_eq!(m, "broken"),
        _ => panic!("expected StepFailed"),
    }
    // The one before the failure has been stepped, the one behind it not.
    assert_eq!(registry.get(a).unwrap().steps, 1);
    assert_eq!(registry.get(b).unwrap().steps, 0);
    assert_eq!(registry.get(c).unwrap().steps, 0);
    registry.get_mut(b).unwrap().set_bool_input("", false).unwrap();
    registry.step_all(r(1.0)).unwrap();
    assert_eq!(registry.get(a).unwrap().steps, 2);
    assert_eq!(registry.get(b).unwrap().steps, 1);
    assert_eq!(registry.get(c).unwrap().steps, 1);
}

#[test]
fn registry_lists_every_component_once() {
    let mut registry = ComponentRegistry::new();
    assert!(registry.list_ids().is_empty());
    assert!(registry.list_names().is_empty());
    let mut ids = Vec::new();
    for name in ["n1", "n2", "n3", "n4"] {
        ids.push(registry.add(name.to_string(), counter(false)).unwrap());
    }
    let mut listed = registry.list_ids();
    listed.sort();
    ids.sort();
    assert_eq!(listed, ids);
    let mut names = registry.list_names();
    names.sort();
    assert_eq!(names, vec!["n1", "n2", "n3", "n4"]);
    registry.remove(ids[1]).unwrap();
    assert_eq!(registry.list_ids().len(), 3);
    assert_eq!(registry.list_names().len(), 3);
    assert!(!registry.list_ids().contains(&ids[1]));
}

#[test]
fn generated_identifiers_are_random_uuids() {
    let mut registry = ComponentRegistry::new();
    let mut seen = Vec::new();
    for i in 0..32 {
        let id = registry.add(format!("c{}", i), counter(false)).unwrap();
        // Version 4, variant of RFC 9562.
        assert_eq!((id.as_u128() >> 76) & 0xf, 4);
        assert_eq!((id.as_u128() >> 62) & 0x3, 2);
        assert!(!seen.contains(&id));
        seen.push(id);
    }
    let id = ComponentId::random();
    assert_eq!(id.as_u128() & 0x0000_0000_0000_f000_c000_0000_0000_0000,
        0x0000_0000_0000_4000_8000_0000_0000_0000);
}

#[test]
fn identifier_text_is_the_hyphenated_uuid() {
    assert_eq!(
        ComponentId::from_u128(0x0123_4567_89ab_cdef_fedc_ba98_7654_3210).to_text(),
        "01234567-89ab-cdef-fedc-ba9876543210"
    );
    assert_eq!(ComponentId::from_u128(0).to_text(), "00000000-0000-0000-0000-000000000000");
    assert_eq!(
        ComponentId::from_u128(u128::MAX).to_text(),
        "ffffffff-ffff-ffff-ffff-ffffffffffff"
    );
    assert_eq!(ComponentId::from_u128(42).to_text(), "00000000-0000-0000-0000-00000000002a");
}

#[test]
fn add_drawn_takes_the_drawn_identifier_where_it_is_free() {
    let mut registry = ComponentRegistry::new();
    let drawn = ComponentId::from_u128(0x0123_4567_89ab_4def_8edc_ba98_7654_3210);
    let id = registry.add_drawn(drawn, "a".to_string(), counter(false)).unwrap();
    assert_eq!(id, drawn);
    assert!(registry.get(drawn).is_some());
}

#[test]
fn add_drawn_counts_on_from_a_taken_identifier() {
    let mut registry = ComponentRegistry::new();
    let drawn = ComponentId::from_u128(0x0123_4567_89ab_4def_8edc_ba98_7654_3210);
    let first = registry.add_drawn(drawn, "a".to_string(), counter(false)).unwrap();
    let second = registry.add_drawn(drawn, "b".to_string(), counter(false)).unwrap();
    let third = registry.add_drawn(drawn, "c".to_string(), counter(false)).unwrap();
    assert_eq!(first.as_u128(), 0x0123_4567_89ab_4def_8edc_ba98_7654_3210);
    assert_eq!(second.as_u128(), 0x0123_4567_89ab_4def_8edc_ba98_7654_3211);
    assert_eq!(third.as_u128(), 0x0123_4567_89ab_4def_8edc_ba98_7654_3212);
    assert_eq!(registry.list_ids(), vec![first, second, third]);
    // The gap that a removal leaves is found again.
    registry.remove(second).unwrap();
    let again = registry.add_drawn(drawn, "d".to_string(), counter(false)).unwrap();
    assert_eq!(again, second);
}

#[test]
fn add_drawn_carries_over_the_fixed_bits_and_wraps_round() {
    let mut registry = ComponentRegistry::new();
    // All free bits set: the carry passes the variant and the version and
    // comes round to the first identifier of random form.
    let last = ComponentId::from_u128(0xffff_ffff_ffff_4fff_bfff_ffff_ffff_ffff);
    let a = registry.add_drawn(last, "a".to_string(), counter(false)).unwrap();
    let b = registry.add_drawn(last, "b".to_string(), counter(false)).unwrap();
    let c = registry.add_drawn(last, "c".to_string(), counter(false)).unwrap();
    assert_eq!(a, last);
    assert_eq!(b.as_u128(), 0x0000_0000_0000_4000_8000_0000_0000_0000);
    assert_eq!(c.as_u128(), 0x0000_0000_0000_4000_8000_0000_0000_0001);
    // The low bits carry into the middle bits past the variant.
    let edge = ComponentId::from_u128(0x0000_0000_0000_4000_bfff_ffff_ffff_ffff);
    let d = registry.add_drawn(edge, "d".to_string(), counter(false)).unwrap();
    let e = registry.add_drawn(edge, "e".to_string(), counter(false)).unwrap();
    assert_eq!(d, edge);
    assert_eq!(e.as_u128(), 0x0000_0000_0000_4001_8000_0000_0000_0000);
    // And the middle bits into the high bits past the version.
    let edge = ComponentId::from_u128(0x0000_0000_0000_4fff_bfff_ffff_ffff_ffff);
    let g = registry.add_drawn(edge, "g".to_string(), counter(false)).unwrap();
    let h = registry.add_drawn(edge, "h".to_string(), counter(false)).unwrap();
    assert_eq!(g, edge);
    assert_eq!(h.as_u128(), 0x0000_0000_0001_4000_8000_0000_0000_0000);
}

#[test]
fn add_drawn_gives_any_identifier_random_form() {
    let mut registry = ComponentRegistry::new();
    let a = registry.add_drawn(ComponentId::from_u128(0), "a".to_string(), counter(false)).unwrap();
    assert_eq!(a.as_u128(), 0x0000_0000_0000_4000_8000_0000_0000_0000);
    let b = registry
        .add_drawn(ComponentId::from_u128(u128::MAX), "b".to_string(), counter(false))
        .unwrap();
    assert_eq!(b.as_u128(), 0xffff_ffff_ffff_4fff_bfff_ffff_ffff_ffff);
    // An identifier that add_component has put there, of another form, is
    // not in the way.
    let plain = ComponentId::from_u128(0x0000_0000_0000_0000_0000_0000_0000_0007);
    registry.add_component(plain, "c".to_string(), counter(false)).unwrap();
    let d = registry.add_drawn(plain, "d".to_string(), counter(false)).unwrap();
    assert_eq!(d.as_u128(), 0x0000_0000_0000_4000_8000_0000_0000_0007);
}

#[test]
fn add_drawn_rejects_a_name_twice() {
    let mut registry = ComponentRegistry::new();
    let drawn = ComponentId::from_u128(0x0123_4567_89ab_4def_8edc_ba98_7654_3210);
    registry.add_drawn(drawn, "a".to_string(), counter(false)).unwrap();
    assert!(matches!(
        registry.add_drawn(drawn, "a".to_string(), counter(false)),
        Err(ComponentError::InitializationFailed(_))
    ));
    assert_eq!(registry.list_ids(), vec![drawn]);
    assert_eq!(registry.list_names(), vec!["a".to_string()]);
}
