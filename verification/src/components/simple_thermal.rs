//! The thermal model as a simulation component: one room, one heater, and
//! walls that lose heat to the surroundings.

use crate::arithmetic::{
    lemma_negated, lemma_product_bounded, lemma_product_commutes, lemma_product_sign,
    lemma_quotient_sign, lemma_sum_bounded, lemma_sum_keeps_order, lemma_sum_sign,
};
use crate::binary64::{
    lemma_named_values, Real, FIVE_HUNDRED_BITS, THOUSAND_BITS, TWO_BITS,
    TWO_HUNDRED_FIFTY_BITS, ZERO_BITS,
};
use crate::component::{
    outcome, reading, transition, ComponentError, ComponentMetadata, ComponentMetadataView,
    ComponentResult, Failure, IOSpec, IOSpecView, IOType, SimulationComponent,
};
use crate::runtime::modelica_runtime::{
    ambient_temp, heater_on, heater_power, heater_status, lemma_initial_state_valid,
    lemma_real_names_differ, loss_coefficient, room_capacity, room_temp, temperature,
    thermal_model, ModelicaRuntime, RuntimeState,
};
use crate::text::same_text;
use vstd::prelude::*;
use vstd::string::*;

verus! {

/// What holds of the state of a thermal component beyond the runtime's own
/// invariant: the model's parameters have the values they start with
/// (capacity 1000, ambient temperature 250, heater power 500, loss
/// coefficient 2), and the output `temperature` is the room's temperature.
/// Nothing that a component offers changes the parameters or sets one of the
/// two temperatures without the other.
pub open spec fn parameters_unchanged(s: RuntimeState) -> bool {
    &&& s.reals[room_capacity()] == Real { bits: THOUSAND_BITS }
    &&& s.reals[ambient_temp()] == Real { bits: TWO_HUNDRED_FIFTY_BITS }
    &&& s.reals[heater_power()] == Real { bits: FIVE_HUNDRED_BITS }
    &&& s.reals[loss_coefficient()] == Real { bits: TWO_BITS }
    &&& s.reals[temperature()] == s.reals[room_temp()]
}

/// The text of the error for any real-valued input.
pub open spec fn no_real_inputs_text(name: Seq<char>) -> Seq<char> {
    "SimpleThermal has no real inputs. Got: "@ + name
}

/// The text of the error for a boolean input that the model does not have.
pub open spec fn unknown_boolean_input_text(name: Seq<char>) -> Seq<char> {
    "Unknown boolean input: "@ + name
}

/// The text of the error for an output that the model does not have.
pub open spec fn unknown_output_text(name: Seq<char>) -> Seq<char> {
    "Unknown output: "@ + name
}

/// Setting a boolean input: the heater's switch is the only one.
pub open spec fn with_bool_input(s: RuntimeState, name: Seq<char>, value: bool) -> Result<
    RuntimeState,
    Failure,
> {
    if name == heater_on() {
        Ok(RuntimeState { bools: s.bools.insert(heater_on(), value), ..s })
    } else {
        Err(Failure::InvalidInput(unknown_boolean_input_text(name)))
    }
}

/// Reading an output: the temperature and the heater's status are the two.
pub open spec fn output_of(s: RuntimeState, name: Seq<char>) -> Result<Real, Failure> {
    if name == temperature() {
        Ok(s.reals[temperature()])
    } else if name == heater_status() {
        Ok(s.reals[heater_status()])
    } else {
        Err(Failure::InvalidOutput(unknown_output_text(name)))
    }
}

/// All outputs with their names: the temperature, then the heater's status.
pub open spec fn outputs_of(s: RuntimeState) -> Seq<(Seq<char>, Real)> {
    seq![(temperature(), s.reals[temperature()]), (heater_status(), s.reals[heater_status()])]
}

/// A snapshot as names and values.
pub open spec fn snapshot_view(v: Seq<(String, Real)>) -> Seq<(Seq<char>, Real)> {
    v.map_values(|p: (String, Real)| (p.0@, p.1))
}

/// The thermal model's descriptor: one boolean input, the heater's switch,
/// and two real outputs, the temperature in kelvin and the heater's status.
pub open spec fn thermal_metadata() -> ComponentMetadataView {
    ComponentMetadataView {
        name: "SimpleThermalMVP"@,
        component_type: "Thermal"@,
        inputs: seq![
            IOSpecView {
                name: "heaterOn"@,
                io_type: IOType::Boolean,
                unit: None,
                description: Some("Heater control signal"@),
            },
        ],
        outputs: seq![
            IOSpecView {
                name: "temperature"@,
                io_type: IOType::Real,
                unit: Some("K"@),
                description: Some("Current room temperature"@),
            },
            IOSpecView {
                name: "heaterStatus"@,
                io_type: IOType::Real,
                unit: None,
                description: Some("Heater status (0=off, 1=on)"@),
            },
        ],
    }
}

/// From every state that a thermal component can be in, `reset` succeeds and
/// gives the initial state, the one that `initialize` gives; and a second
/// `reset` changes nothing.
pub proof fn lemma_reset_restores_initial_state(s: RuntimeState)
    requires
        s.valid(),
        parameters_unchanged(s),
    ensures
        s.reset() == Ok::<RuntimeState, Failure>(RuntimeState::thermal_initial()),
        RuntimeState::thermal_initial().reset() == Ok::<RuntimeState, Failure>(
            RuntimeState::thermal_initial(),
        ),
        RuntimeState::thermal_initial().valid(),
        parameters_unchanged(RuntimeState::thermal_initial()),
{
    lemma_real_names_differ();
    lemma_named_values();
    lemma_initial_state_valid();
    let initial = RuntimeState::thermal_initial();
    crate::runtime::modelica_runtime::lemma_range_in_numbers(Real { bits: TWO_HUNDRED_FIFTY_BITS });
    vstd::arithmetic::power2::lemma_pow2_pos(1074);
    let t = s.reset()->Ok_0;
    assert(t.reals =~= initial.reals);
    assert(t.bools =~= initial.bools);
    let u = initial.reset()->Ok_0;
    assert(u.reals =~= initial.reals);
    assert(u.bools =~= initial.bools);
}

/// With the heater on and the room below 500, the temperature at which
/// heating and losses balance, a step never lowers the temperature: the
/// computed temperature is a number, not below the room's. Where the step
/// succeeds, that is the new temperature. Whether the temperature rises at
/// all depends on the rounding: an increase of less than half the spacing of
/// the binary64 numbers at the room's temperature is lost.
pub proof fn lemma_heating_never_cools(s: RuntimeState, dt: Real)
    requires
        s.valid(),
        parameters_unchanged(s),
        RuntimeState::accepts_timestep(dt),
        s.bools[heater_on()],
        s.reals[room_temp()].scaled() < 500 * vstd::arithmetic::power2::pow2(1074),
    ensures
        !s.next_temperature(dt).nan(),
        s.next_temperature(dt).scaled() >= s.reals[room_temp()].scaled(),
        s.step(dt) matches Ok(t) ==> t.reals[temperature()] == s.next_temperature(dt)
            && t.reals[temperature()].scaled() >= s.reals[temperature()].scaled(),
{
    lemma_named_values();
    lemma_real_names_differ();
    let u = vstd::arithmetic::power2::pow2(1074);
    let room = s.reals[room_temp()];
    let ambient = Real { bits: TWO_HUNDRED_FIFTY_BITS };
    let power = Real { bits: FIVE_HUNDRED_BITS };
    let loss = Real { bits: TWO_BITS };
    let capacity = Real { bits: THOUSAND_BITS };
    assert(s.reals.contains_key(room_temp()));
    assert(room.finite());
    assert(room.scaled() >= 0);
    vstd::arithmetic::power2::lemma_pow2_pos(1074);
    // The room is less than 250 away from the surroundings.
    lemma_negated(ambient);
    lemma_sum_bounded(room, ambient.negated(), ambient);
    let diff = room.difference(ambient);
    // So the losses are at most 500, the heater's power.
    lemma_product_commutes(loss, diff);
    assert(loss.scaled_magnitude() * diff.scaled_magnitude() <= power.scaled_magnitude() * u)
        by (nonlinear_arith)
        requires
            loss.scaled_magnitude() == 2 * u,
            diff.scaled_magnitude() <= 250 * u,
            power.scaled_magnitude() == 500 * u,
    ;
    lemma_product_bounded(loss, diff, power);
    let losses = loss.product(diff);
    // Heating less losses is not below zero, and stays so through the
    // division by the capacity and the multiplication by the time step.
    lemma_negated(losses);
    lemma_sum_sign(power, losses.negated());
    let net = power.difference(losses);
    lemma_quotient_sign(net, capacity);
    let rate = net.quotient(capacity);
    lemma_product_sign(rate, dt);
    let rise = rate.product(dt);
    lemma_sum_keeps_order(room, rise);
}

/// With the heater on and the room below 500, a step that changes the
/// temperature raises it.
pub proof fn lemma_heating_warms_where_it_changes(s: RuntimeState, dt: Real)
    requires
        s.valid(),
        parameters_unchanged(s),
        RuntimeState::accepts_timestep(dt),
        s.bools[heater_on()],
        s.reals[room_temp()].scaled() < 500 * vstd::arithmetic::power2::pow2(1074),
        s.next_temperature(dt).scaled() != s.reals[room_temp()].scaled(),
    ensures
        s.next_temperature(dt).scaled() > s.reals[room_temp()].scaled(),
{
    lemma_heating_never_cools(s, dt);
}

/// With the heater off and the room warmer than the surroundings, a step
/// never raises the temperature: the computed temperature is a number, not
/// above the room's. Where the step succeeds, that is the new temperature.
/// Whether the temperature falls at all depends on the rounding, as for
/// heating.
pub proof fn lemma_cooling_never_heats(s: RuntimeState, dt: Real)
    requires
        s.valid(),
        parameters_unchanged(s),
        RuntimeState::accepts_timestep(dt),
        !s.bools[heater_on()],
        s.reals[room_temp()].scaled() > 250 * vstd::arithmetic::power2::pow2(1074),
    ensures
        !s.next_temperature(dt).nan(),
        s.next_temperature(dt).scaled() <= s.reals[room_temp()].scaled(),
        s.step(dt) matches Ok(t) ==> t.reals[temperature()] == s.next_temperature(dt)
            && t.reals[temperature()].scaled() <= s.reals[temperature()].scaled(),
{
    lemma_named_values();
    lemma_real_names_differ();
    let room = s.reals[room_temp()];
    let ambient = Real { bits: TWO_HUNDRED_FIFTY_BITS };
    let zero = Real { bits: ZERO_BITS };
    let loss = Real { bits: TWO_BITS };
    let capacity = Real { bits: THOUSAND_BITS };
    assert(s.reals.contains_key(room_temp()));
    assert(room.finite());
    vstd::arithmetic::power2::lemma_pow2_pos(1074);
    // The room loses heat: the losses are not below zero.
    lemma_negated(ambient);
    lemma_sum_sign(room, ambient.negated());
    let diff = room.difference(ambient);
    lemma_product_commutes(loss, diff);
    lemma_product_sign(diff, loss);
    let losses = loss.product(diff);
    // Nothing less losses is not above zero, and stays so.
    lemma_negated(losses);
    lemma_sum_sign(zero, losses.negated());
    let net = zero.difference(losses);
    lemma_quotient_sign(net, capacity);
    let rate = net.quotient(capacity);
    lemma_product_sign(rate, dt);
    let fall = rate.product(dt);
    lemma_sum_keeps_order(room, fall);
}

/// With the heater off and the room warmer than the surroundings, a step
/// that changes the temperature lowers it.
pub proof fn lemma_cooling_cools_where_it_changes(s: RuntimeState, dt: Real)
    requires
        s.valid(),
        parameters_unchanged(s),
        RuntimeState::accepts_timestep(dt),
        !s.bools[heater_on()],
        s.reals[room_temp()].scaled() > 250 * vstd::arithmetic::power2::pow2(1074),
        s.next_temperature(dt).scaled() != s.reals[room_temp()].scaled(),
    ensures
        s.next_temperature(dt).scaled() < s.reals[room_temp()].scaled(),
{
    lemma_cooling_never_heats(s, dt);
}

/// The thermal model as a component. It owns the runtime that holds its
/// variables and its clock.
#[derive(Debug)]
pub struct SimpleThermalComponent {
    runtime: ModelicaRuntime,
}

impl View for SimpleThermalComponent {
    type V = RuntimeState;

    closed spec fn view(&self) -> RuntimeState {
        self.runtime@
    }
}

impl SimpleThermalComponent {
    /// The runtime inside meets its own invariant.
    pub closed spec fn runtime_well_formed(&self) -> bool {
        self.runtime.well_formed()
    }

    /// A component whose runtime is well-formed has a valid state.
    pub proof fn lemma_state_valid(&self)
        requires
            self.runtime_well_formed(),
        ensures
            self@.valid(),
    {
    }

    /// A thermal component in its initial state.
    pub fn new() -> (r: ComponentResult<Self>)
        ensures
            r matches Ok(c) && c.well_formed() && c@ == RuntimeState::thermal_initial(),
    {
        let runtime = ModelicaRuntime::new("SimpleThermalMVP")?;
        proof {
            lemma_real_names_differ();
        }
        Ok(SimpleThermalComponent { runtime })
    }

    /// The simulated time.
    pub fn time(&self) -> (r: Real)
        ensures
            r == self@.time,
    {
        self.runtime.time()
    }
}

impl SimulationComponent for SimpleThermalComponent {
    open spec fn well_formed(&self) -> bool {
        self.runtime_well_formed() && parameters_unchanged(self@)
    }

    open spec fn step_outcome(&self, dt: Real, after: &Self, result: Result<(), Failure>) -> bool {
        transition(self@, self@.step(dt), after@, result)
    }

    fn component_type(&self) -> (r: &str)
        ensures
            r@ == thermal_model(),
    {
        "SimpleThermalMVP"
    }

    /// Puts the room at the ambient temperature, switches the heater off and
    /// sets the clock to zero. Always succeeds.
    fn initialize(&mut self) -> (r: ComponentResult<()>)
        ensures
            r is Ok,
            final(self)@ == RuntimeState::thermal_initial(),
    {
        proof {
            lemma_reset_restores_initial_state(self@);
        }
        self.runtime.reset()
    }

    /// The thermal model has no real-valued input: always an error that
    /// names the input asked for.
    fn set_input(&mut self, name: &str, value: Real) -> (r: ComponentResult<()>)
        ensures
            r matches Err(e) && e@ == Failure::InvalidInput(no_real_inputs_text(name@)),
            final(self)@ == old(self)@,
    {
        let mut message = String::from_str("SimpleThermal has no real inputs. Got: ");
        message.append(name);
        Err(ComponentError::InvalidInput(message))
    }

    /// Switches the heater on or off. Any other name is an error.
    fn set_bool_input(&mut self, name: &str, value: bool) -> (r: ComponentResult<()>)
        ensures
            transition(
                old(self)@,
                with_bool_input(old(self)@, name@, value),
                final(self)@,
                outcome(r),
            ),
    {
        if same_text(name, "heaterOn") {
            proof {
                lemma_real_names_differ();
            }
            self.runtime.set_bool_variable("heaterOn", value)
        } else {
            let mut message = String::from_str("Unknown boolean input: ");
            message.append(name);
            Err(ComponentError::InvalidInput(message))
        }
    }

    /// The temperature or the heater's status. Any other name is an error.
    fn get_output(&self, name: &str) -> (r: ComponentResult<Real>)
        ensures
            reading(output_of(self@, name@), r),
    {
        if same_text(name, "temperature") {
            self.runtime.get_real_variable("temperature")
        } else if same_text(name, "heaterStatus") {
            self.runtime.get_real_variable("heaterStatus")
        } else {
            let mut message = String::from_str("Unknown output: ");
            message.append(name);
            Err(ComponentError::InvalidOutput(message))
        }
    }

    /// One Euler step of the runtime.
    fn step(&mut self, dt: Real) -> (r: ComponentResult<()>)
    {
        proof {
            lemma_real_names_differ();
        }
        self.runtime.step(dt)
    }

    /// As `initialize`. Always succeeds.
    fn reset(&mut self) -> (r: ComponentResult<()>)
        ensures
            r is Ok,
            final(self)@ == RuntimeState::thermal_initial(),
    {
        proof {
            lemma_reset_restores_initial_state(self@);
        }
        self.runtime.reset()
    }

    /// The temperature and the heater's status as they stand, each with its
    /// name.
    fn get_all_outputs(&self) -> (r: Vec<(String, Real)>)
        ensures
            snapshot_view(r@) == outputs_of(self@),
    {
        let mut outputs: Vec<(String, Real)> = Vec::new();
        let t = match self.runtime.get_real_variable("temperature") {
            Ok(v) => v,
            Err(_) => Real { bits: TWO_HUNDRED_FIFTY_BITS },
        };
        let h = match self.runtime.get_real_variable("heaterStatus") {
            Ok(v) => v,
            Err(_) => Real { bits: 0 },
        };
        outputs.push((String::from_str("temperature"), t));
        outputs.push((String::from_str("heaterStatus"), h));
        proof {
            assert(snapshot_view(outputs@) =~= outputs_of(self@));
        }
        outputs
    }

    fn metadata(&self) -> (r: ComponentMetadata)
        ensures
            r@ == thermal_metadata(),
    {
        let mut inputs: Vec<IOSpec> = Vec::new();
        inputs.push(
            IOSpec {
                name: String::from_str("heaterOn"),
                io_type: IOType::Boolean,
                unit: None,
                description: Some(String::from_str("Heater control signal")),
            },
        );
        let mut outputs: Vec<IOSpec> = Vec::new();
        outputs.push(
            IOSpec {
                name: String::from_str("temperature"),
                io_type: IOType::Real,
                unit: Some(String::from_str("K")),
                description: Some(String::from_str("Current room temperature")),
            },
        );
        outputs.push(
            IOSpec {
                name: String::from_str("heaterStatus"),
                io_type: IOType::Real,
                unit: None,
                description: Some(String::from_str("Heater status (0=off, 1=on)")),
            },
        );
        let r = ComponentMetadata {
            name: String::from_str("SimpleThermalMVP"),
            component_type: String::from_str("Thermal"),
            inputs,
            outputs,
        };
        proof {
            assert(r@.inputs =~= thermal_metadata().inputs);
            assert(r@.outputs =~= thermal_metadata().outputs);
        }
        r
    }
}

} // verus!
