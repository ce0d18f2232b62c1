//! The state of one simulated model: its named variables and its clock.
//!
//! The variables are declared when the runtime is made and stay the same set
//! from then on. Reads and writes go by name; a write is checked against the
//! variable's range, where it has one. Time advances by explicit first-order
//! Euler steps.

use crate::arithmetic::lemma_sum_keeps_order;
use crate::binary64::{
    lemma_named_values, Real, FIVE_HUNDRED_BITS, ONE_BITS, THOUSAND_BITS, TWO_BITS,
    TWO_HUNDRED_FIFTY_BITS, ZERO_BITS,
};
use crate::component::{
    outcome, reading, transition, ComponentError, ComponentResult, Failure,
};
use crate::table::NameTable;
use crate::text::same_text;
use vstd::prelude::*;
use vstd::string::*;

verus! {

/// The name of the one model that the runtime knows.
pub open spec fn thermal_model() -> Seq<char> {
    "SimpleThermalMVP"@
}

/// The name of the room's temperature, the state of the model.
pub open spec fn room_temp() -> Seq<char> {
    "roomTemp"@
}

/// The name of the output that tells the room's temperature.
pub open spec fn temperature() -> Seq<char> {
    "temperature"@
}

/// The name of the output that tells whether the heater ran in the last
/// step: 1 or 0.
pub open spec fn heater_status() -> Seq<char> {
    "heaterStatus"@
}

/// The name of the parameter for the room's heat capacity.
pub open spec fn room_capacity() -> Seq<char> {
    "roomCapacity"@
}

/// The name of the parameter for the temperature of the surroundings.
pub open spec fn ambient_temp() -> Seq<char> {
    "ambientTemp"@
}

/// The name of the parameter for the heater's power.
pub open spec fn heater_power() -> Seq<char> {
    "heaterPower"@
}

/// The name of the parameter for the loss of heat per degree of difference
/// to the surroundings.
pub open spec fn loss_coefficient() -> Seq<char> {
    "lossCoefficient"@
}

/// The name of the heater's switch, the model's one boolean variable.
pub open spec fn heater_on() -> Seq<char> {
    "heaterOn"@
}

/// The names of the real variables of the thermal model.
pub open spec fn thermal_real_names() -> Set<Seq<char>> {
    set![
        room_temp(),
        temperature(),
        heater_status(),
        room_capacity(),
        ambient_temp(),
        heater_power(),
        loss_coefficient(),
    ]
}

/// The lower end of the range of a temperature: 0.
pub open spec fn lower_bound() -> Real {
    Real { bits: ZERO_BITS }
}

/// The upper end of the range of a temperature: 1000.
pub open spec fn upper_bound() -> Real {
    Real { bits: THOUSAND_BITS }
}

/// Whether writes to the variable are checked against the temperature range.
pub open spec fn is_bounded(name: Seq<char>) -> bool {
    name == temperature() || name == room_temp()
}

/// Whether a finite value lies outside the temperature range.
pub open spec fn out_of_range(value: Real) -> bool {
    value.below(lower_bound()) || upper_bound().below(value)
}

/// The text of the error for a model that the runtime does not know.
pub open spec fn unknown_component_text(name: Seq<char>) -> Seq<char> {
    if name.len() == 0 {
        "Component name cannot be empty"@
    } else {
        "Unknown component: "@ + name
    }
}

/// The text of the error for a value that is not finite.
pub open spec fn not_finite_text(name: Seq<char>) -> Seq<char> {
    "Value for '"@ + name + "' must be finite"@
}

/// The text of the error for a time step that is not positive and finite.
pub open spec fn invalid_timestep_text() -> Seq<char> {
    "Invalid timestep. Must be positive and finite."@
}

/// The text of the error for a computed temperature that is not finite.
pub open spec fn non_finite_temperature_text() -> Seq<char> {
    "Temperature calculation resulted in non-finite value"@
}

/// One explicit Euler step of the room's heat balance, each operation in
/// binary64: the heater adds `power` while it is on, the walls lose
/// `loss * (room - ambient)`, and the difference, divided by `capacity` and
/// multiplied by `dt`, is added to the room's temperature.
pub open spec fn euler_update(
    room: Real,
    capacity: Real,
    ambient: Real,
    power: Real,
    loss: Real,
    heating: bool,
    dt: Real,
) -> Real {
    let gain = if heating {
        power
    } else {
        Real { bits: ZERO_BITS }
    };
    let losses = loss.product(room.difference(ambient));
    room.sum(gain.difference(losses).quotient(capacity).product(dt))
}

/// Computes [`euler_update`].
pub fn euler_temperature(
    room: Real,
    capacity: Real,
    ambient: Real,
    power: Real,
    loss: Real,
    heating: bool,
    dt: Real,
) -> (r: Real)
    ensures
        r == euler_update(room, capacity, ambient, power, loss, heating, dt),
{
    let gain = if heating {
        power
    } else {
        Real::from_bits(ZERO_BITS)
    };
    let losses = loss.times(room.minus(ambient));
    let d_temp = gain.minus(losses).divided_by(capacity).times(dt);
    room.plus(d_temp)
}

/// What a [`ModelicaRuntime`] holds.
pub struct RuntimeState {
    pub component_name: Seq<char>,
    pub reals: Map<Seq<char>, Real>,
    pub bools: Map<Seq<char>, bool>,
    pub time: Real,
}

impl RuntimeState {
    /// The state in which the thermal model starts: the room at the ambient
    /// 250, the heater off, the clock at zero.
    pub open spec fn thermal_initial() -> RuntimeState {
        RuntimeState {
            component_name: thermal_model(),
            reals: Map::<Seq<char>, Real>::empty().insert(
                room_temp(),
                Real { bits: TWO_HUNDRED_FIFTY_BITS },
            ).insert(temperature(), Real { bits: TWO_HUNDRED_FIFTY_BITS }).insert(
                heater_status(),
                Real { bits: ZERO_BITS },
            ).insert(room_capacity(), Real { bits: THOUSAND_BITS }).insert(
                ambient_temp(),
                Real { bits: TWO_HUNDRED_FIFTY_BITS },
            ).insert(heater_power(), Real { bits: FIVE_HUNDRED_BITS }).insert(
                loss_coefficient(),
                Real { bits: TWO_BITS },
            ),
            bools: Map::<Seq<char>, bool>::empty().insert(heater_on(), false),
            time: Real { bits: ZERO_BITS },
        }
    }

    /// The invariant of a runtime: it runs the thermal model, holds exactly
    /// that model's variables, every real variable is finite, the two
    /// temperatures lie in their range, and the clock shows a time that is
    /// not below zero.
    pub open spec fn valid(self) -> bool {
        &&& self.component_name == thermal_model()
        &&& self.reals.dom() == thermal_real_names()
        &&& self.bools.dom() == set![heater_on()]
        &&& forall|name: Seq<char>| #[trigger]
            self.reals.contains_key(name) ==> self.reals[name].finite()
        &&& !out_of_range(self.reals[room_temp()])
        &&& !out_of_range(self.reals[temperature()])
        &&& !self.time.nan()
        &&& self.time.scaled() >= 0
    }

    /// Reading a real variable.
    pub open spec fn get_real(self, name: Seq<char>) -> Result<Real, Failure> {
        if self.reals.contains_key(name) {
            Ok(self.reals[name])
        } else {
            Err(Failure::VariableNotFound(name))
        }
    }

    /// Reading a boolean variable.
    pub open spec fn get_bool(self, name: Seq<char>) -> Result<bool, Failure> {
        if self.bools.contains_key(name) {
            Ok(self.bools[name])
        } else {
            Err(Failure::VariableNotFound(name))
        }
    }

    /// Writing a real variable: the value must be finite, the variable
    /// declared, and the value inside the variable's range where it has one.
    pub open spec fn set_real(self, name: Seq<char>, value: Real) -> Result<RuntimeState, Failure> {
        if !value.finite() {
            Err(Failure::InvalidInput(not_finite_text(name)))
        } else if !self.reals.contains_key(name) {
            Err(Failure::VariableNotFound(name))
        } else if is_bounded(name) && out_of_range(value) {
            Err(Failure::BoundsCheckFailed(name, value, lower_bound(), upper_bound()))
        } else {
            Ok(RuntimeState { reals: self.reals.insert(name, value), ..self })
        }
    }

    /// Writing a boolean variable: the variable must be declared.
    pub open spec fn set_bool(self, name: Seq<char>, value: bool) -> Result<RuntimeState, Failure> {
        if !self.bools.contains_key(name) {
            Err(Failure::VariableNotFound(name))
        } else {
            Ok(RuntimeState { bools: self.bools.insert(name, value), ..self })
        }
    }

    /// The temperature that one Euler step of `dt` computes from this state.
    pub open spec fn next_temperature(self, dt: Real) -> Real {
        euler_update(
            self.reals[room_temp()],
            self.reals[room_capacity()],
            self.reals[ambient_temp()],
            self.reals[heater_power()],
            self.reals[loss_coefficient()],
            self.bools[heater_on()],
            dt,
        )
    }

    /// Taking over a computed temperature: it must be finite and in range;
    /// then the room's temperature and its alias take it, and the heater's
    /// status follows the heater's switch.
    pub open spec fn record_temperature(self, value: Real) -> Result<RuntimeState, Failure> {
        if !value.finite() {
            Err(Failure::StepFailed(non_finite_temperature_text()))
        } else if out_of_range(value) {
            Err(Failure::BoundsCheckFailed(room_temp(), value, lower_bound(), upper_bound()))
        } else {
            Ok(
                RuntimeState {
                    reals: self.reals.insert(room_temp(), value).insert(
                        temperature(),
                        value,
                    ).insert(
                        heater_status(),
                        if self.bools[heater_on()] {
                            Real { bits: ONE_BITS }
                        } else {
                            Real { bits: ZERO_BITS }
                        },
                    ),
                    ..self
                },
            )
        }
    }

    /// Whether `dt` is a time step that `step` accepts: finite and above
    /// zero.
    pub open spec fn accepts_timestep(dt: Real) -> bool {
        dt.finite() && dt.scaled() > 0
    }

    /// One step of `dt`: the time step must be positive and finite, the new
    /// temperature is recorded, and the clock advances by `dt`.
    pub open spec fn step(self, dt: Real) -> Result<RuntimeState, Failure> {
        if !Self::accepts_timestep(dt) {
            Err(Failure::StepFailed(invalid_timestep_text()))
        } else {
            match self.record_temperature(self.next_temperature(dt)) {
                Ok(s) => Ok(RuntimeState { time: self.time.sum(dt), ..s }),
                Err(e) => Err(e),
            }
        }
    }

    /// Going back to the start: the temperatures return to the ambient
    /// temperature as it stands now, the heater is off, the clock at zero.
    /// It fails where the ambient temperature lies outside the range of a
    /// temperature.
    pub open spec fn reset(self) -> Result<RuntimeState, Failure> {
        let ambient = self.reals[ambient_temp()];
        if out_of_range(ambient) {
            Err(Failure::BoundsCheckFailed(room_temp(), ambient, lower_bound(), upper_bound()))
        } else {
            Ok(
                RuntimeState {
                    component_name: self.component_name,
                    reals: self.reals.insert(room_temp(), ambient).insert(
                        temperature(),
                        ambient,
                    ).insert(heater_status(), Real { bits: ZERO_BITS }),
                    bools: self.bools.insert(heater_on(), false),
                    time: Real { bits: ZERO_BITS },
                },
            )
        }
    }
}

/// The seven real variables of the thermal model have seven different names.
pub proof fn lemma_real_names_differ()
    ensures
        room_temp() != temperature(),
        room_temp() != heater_status(),
        room_temp() != room_capacity(),
        room_temp() != ambient_temp(),
        room_temp() != heater_power(),
        room_temp() != loss_coefficient(),
        temperature() != heater_status(),
        temperature() != room_capacity(),
        temperature() != ambient_temp(),
        temperature() != heater_power(),
        temperature() != loss_coefficient(),
        heater_status() != room_capacity(),
        heater_status() != ambient_temp(),
        heater_status() != heater_power(),
        heater_status() != loss_coefficient(),
        room_capacity() != ambient_temp(),
        room_capacity() != heater_power(),
        room_capacity() != loss_coefficient(),
        ambient_temp() != heater_power(),
        ambient_temp() != loss_coefficient(),
        heater_power() != loss_coefficient(),
{
    reveal_strlit("roomTemp");
    reveal_strlit("temperature");
    reveal_strlit("heaterStatus");
    reveal_strlit("roomCapacity");
    reveal_strlit("ambientTemp");
    reveal_strlit("heaterPower");
    reveal_strlit("lossCoefficient");
    assert(room_temp().len() == 8);
    assert(temperature().len() == 11 && temperature()[0] == 't');
    assert(heater_status().len() == 12 && heater_status()[0] == 'h');
    assert(room_capacity().len() == 12 && room_capacity()[0] == 'r');
    assert(ambient_temp().len() == 11 && ambient_temp()[0] == 'a');
    assert(heater_power().len() == 11 && heater_power()[0] == 'h');
    assert(loss_coefficient().len() == 15);
}

/// The initial state of the thermal model meets the runtime's invariant.
pub proof fn lemma_initial_state_valid()
    ensures
        RuntimeState::thermal_initial().valid(),
{
    lemma_real_names_differ();
    lemma_named_values();
    let s = RuntimeState::thermal_initial();
    assert(s.reals.dom() =~= thermal_real_names());
    assert(s.bools.dom() =~= set![heater_on()]);
    assert(s.reals[room_temp()] == Real { bits: TWO_HUNDRED_FIFTY_BITS });
    assert(s.reals[temperature()] == Real { bits: TWO_HUNDRED_FIFTY_BITS });
    lemma_range_in_numbers(Real { bits: TWO_HUNDRED_FIFTY_BITS });
    vstd::arithmetic::power2::lemma_pow2_pos(1074);
}

/// The temperature range in numbers: a finite value is out of range exactly
/// when it is below 0 or above 1000.
pub proof fn lemma_range_in_numbers(value: Real)
    requires
        value.finite(),
    ensures
        out_of_range(value) <==> (value.scaled() < 0 || value.scaled() > 1000
            * vstd::arithmetic::power2::pow2(1074)),
{
    lemma_named_values();
}

/// A time step that is zero, negative, infinite or not a number is refused
/// with `StepFailed`, and the refused step leaves the state as it was.
pub proof fn lemma_invalid_timestep_refused(
    s: RuntimeState,
    dt: Real,
    after: RuntimeState,
    result: Result<(), Failure>,
)
    requires
        dt.nan() || dt.infinite() || dt.scaled() <= 0,
        transition(s, s.step(dt), after, result),
    ensures
        result == Err::<(), Failure>(Failure::StepFailed(invalid_timestep_text())),
        after == s,
{
}

/// A step that fails, for whatever reason, leaves the state as it was.
pub proof fn lemma_failed_step_changes_nothing(
    s: RuntimeState,
    dt: Real,
    after: RuntimeState,
    result: Result<(), Failure>,
)
    requires
        transition(s, s.step(dt), after, result),
        result is Err,
    ensures
        after == s,
{
}

/// Time does not run back: a step that succeeds leaves the clock at the sum
/// of the time before and the time step, which is not below the time
/// before, and the state valid. Whether the clock moves at all depends on
/// the rounding of the sum.
pub proof fn lemma_step_advances_time(s: RuntimeState, dt: Real)
    requires
        s.valid(),
    ensures
        s.step(dt) matches Ok(t) ==> t.time == s.time.sum(dt) && t.time.scaled()
            >= s.time.scaled() && t.valid(),
{
    if let Ok(t) = s.step(dt) {
        lemma_real_names_differ();
        lemma_named_values();
        lemma_time_after_step(s.time, dt);
        let value = s.next_temperature(dt);
        assert(t.reals.dom() =~= s.reals.dom());
    }
}

/// The sum of a time that is not below zero and a time step above zero is
/// no NaN and not below the time.
pub proof fn lemma_time_after_step(time: Real, dt: Real)
    requires
        !time.nan(),
        time.scaled() >= 0,
        RuntimeState::accepts_timestep(dt),
    ensures
        !time.sum(dt).nan(),
        time.sum(dt).scaled() >= time.scaled(),
{
    if time.finite() {
        lemma_sum_keeps_order(time, dt);
    }
}

/// Writing the temperature: a finite value below 0 or above 1000 is refused
/// with `BoundsCheckFailed`, which carries the name, the value and the two
/// bounds; a value from 0 to 1000, the ends included, is taken over.
pub proof fn lemma_temperature_range(s: RuntimeState, value: Real)
    requires
        s.valid(),
        value.finite(),
    ensures
        (value.scaled() < 0 || value.scaled() > 1000 * vstd::arithmetic::power2::pow2(1074))
            ==> s.set_real(temperature(), value) == Err::<RuntimeState, Failure>(
            Failure::BoundsCheckFailed(temperature(), value, lower_bound(), upper_bound()),
        ),
        (0 <= value.scaled() <= 1000 * vstd::arithmetic::power2::pow2(1074)) ==> s.set_real(
            temperature(),
            value,
        ) == Ok::<RuntimeState, Failure>(
            RuntimeState { reals: s.reals.insert(temperature(), value), ..s },
        ),
{
    lemma_range_in_numbers(value);
    assert(s.reals.dom().contains(temperature()));
}

/// The variables and the clock of one simulated model.
#[derive(Debug)]
pub struct ModelicaRuntime {
    component_name: String,
    real_vars: NameTable<Real>,
    bool_vars: NameTable<bool>,
    time: Real,
}

impl View for ModelicaRuntime {
    type V = RuntimeState;

    closed spec fn view(&self) -> RuntimeState {
        RuntimeState {
            component_name: self.component_name@,
            reals: self.real_vars@,
            bools: self.bool_vars@,
            time: self.time,
        }
    }
}

impl ModelicaRuntime {
    /// Neither table holds a name twice.
    pub closed spec fn tables_well_formed(&self) -> bool {
        self.real_vars.well_formed() && self.bool_vars.well_formed()
    }

    /// The runtime's invariant: see [`RuntimeState::valid`].
    pub open spec fn well_formed(&self) -> bool {
        self.tables_well_formed() && self@.valid()
    }

    /// A runtime for the model of the given name, in the model's initial
    /// state. Only the thermal model is known.
    pub fn new(component_name: &str) -> (r: ComponentResult<Self>)
        ensures
            match r {
                Ok(runtime) => component_name@ == thermal_model() && runtime.well_formed()
                    && runtime@ == RuntimeState::thermal_initial(),
                Err(e) => component_name@ != thermal_model() && e@
                    == Failure::InitializationFailed(unknown_component_text(component_name@)),
            },
    {
        if component_name.is_empty() {
            proof {
                reveal_strlit("SimpleThermalMVP");
            }
            return Err(
                ComponentError::InitializationFailed(
                    String::from_str("Component name cannot be empty"),
                ),
            );
        }
        if !same_text(component_name, "SimpleThermalMVP") {
            let mut message = String::from_str("Unknown component: ");
            message.append(component_name);
            return Err(ComponentError::InitializationFailed(message));
        }
        let mut real_vars: NameTable<Real> = NameTable::new();
        real_vars.insert("roomTemp", Real { bits: TWO_HUNDRED_FIFTY_BITS });
        real_vars.insert("temperature", Real { bits: TWO_HUNDRED_FIFTY_BITS });
        real_vars.insert("heaterStatus", Real { bits: ZERO_BITS });
        real_vars.insert("roomCapacity", Real { bits: THOUSAND_BITS });
        real_vars.insert("ambientTemp", Real { bits: TWO_HUNDRED_FIFTY_BITS });
        real_vars.insert("heaterPower", Real { bits: FIVE_HUNDRED_BITS });
        real_vars.insert("lossCoefficient", Real { bits: TWO_BITS });
        let mut bool_vars: NameTable<bool> = NameTable::new();
        bool_vars.insert("heaterOn", false);
        let runtime = ModelicaRuntime {
            component_name: String::from_str(component_name),
            real_vars,
            bool_vars,
            time: Real { bits: ZERO_BITS },
        };
        proof {
            lemma_initial_state_valid();
        }
        Ok(runtime)
    }

    /// Advances the simulation by `dt`, which must be positive and finite.
    pub fn step(&mut self, dt: Real) -> (r: ComponentResult<()>)
        requires
            old(self).well_formed(),
        ensures
            final(self).well_formed(),
            transition(old(self)@, old(self)@.step(dt), final(self)@, outcome(r)),
    {
        if !dt.is_positive_finite() {
            return Err(
                ComponentError::StepFailed(
                    String::from_str("Invalid timestep. Must be positive and finite."),
                ),
            );
        }
        self.step_simple_thermal(dt)?;
        proof {
            lemma_time_after_step(self.time, dt);
        }
        self.time = self.time.plus(dt);
        Ok(())
    }

    /// Computes the thermal model's next temperature and records it.
    fn step_simple_thermal(&mut self, dt: Real) -> (r: ComponentResult<()>)
        requires
            old(self).well_formed(),
        ensures
            final(self).well_formed(),
            transition(
                old(self)@,
                old(self)@.record_temperature(old(self)@.next_temperature(dt)),
                final(self)@,
                outcome(r),
            ),
    {
        let room_temp = self.get_real_variable("roomTemp")?;
        let room_capacity = self.get_real_variable("roomCapacity")?;
        let ambient_temp = self.get_real_variable("ambientTemp")?;
        let heater_power = self.get_real_variable("heaterPower")?;
        let loss_coefficient = self.get_real_variable("lossCoefficient")?;
        let heater_on = self.get_bool_variable("heaterOn")?;
        let new_temp = euler_temperature(
            room_temp,
            room_capacity,
            ambient_temp,
            heater_power,
            loss_coefficient,
            heater_on,
            dt,
        );
        self.record_temperature(new_temp)
    }

    /// Takes over a newly computed temperature: a value that is not finite or
    /// lies outside the temperature range is refused; otherwise the room's
    /// temperature and its alias take the value, and the heater's status
    /// becomes 1 or 0 as the heater is on or off.
    pub fn record_temperature(&mut self, value: Real) -> (r: ComponentResult<()>)
        requires
            old(self).well_formed(),
        ensures
            final(self).well_formed(),
            transition(
                old(self)@,
                old(self)@.record_temperature(value),
                final(self)@,
                outcome(r),
            ),
    {
        if !value.is_finite() {
            return Err(
                ComponentError::StepFailed(
                    String::from_str("Temperature calculation resulted in non-finite value"),
                ),
            );
        }
        proof {
            lemma_real_names_differ();
            lemma_named_values();
        }
        let heater_on = self.get_bool_variable("heaterOn")?;
        self.set_real_variable("roomTemp", value)?;
        self.set_real_variable("temperature", value)?;
        self.set_real_variable(
            "heaterStatus",
            if heater_on {
                Real { bits: ONE_BITS }
            } else {
                Real { bits: ZERO_BITS }
            },
        )?;
        Ok(())
    }

    /// Reads a real variable.
    pub fn get_real_variable(&self, name: &str) -> (r: ComponentResult<Real>)
        requires
            self.well_formed(),
        ensures
            reading(self@.get_real(name@), r),
    {
        match self.real_vars.get(name) {
            Some(value) => Ok(value),
            None => Err(ComponentError::VariableNotFound(String::from_str(name))),
        }
    }

    /// Writes a real variable, after checking the value.
    pub fn set_real_variable(&mut self, name: &str, value: Real) -> (r: ComponentResult<()>)
        requires
            old(self).well_formed(),
        ensures
            final(self).well_formed(),
            transition(old(self)@, old(self)@.set_real(name@, value), final(self)@, outcome(r)),
    {
        if !value.is_finite() {
            let mut message = String::from_str("Value for '");
            message.append(name);
            message.append("' must be finite");
            return Err(ComponentError::InvalidInput(message));
        }
        if !self.real_vars.contains_key(name) {
            return Err(ComponentError::VariableNotFound(String::from_str(name)));
        }
        if same_text(name, "temperature") || same_text(name, "roomTemp") {
            let lower = Real { bits: ZERO_BITS };
            let upper = Real { bits: THOUSAND_BITS };
            if value.lt(lower) || value.gt(upper) {
                return Err(
                    ComponentError::BoundsCheckFailed(String::from_str(name), value, lower, upper),
                );
            }
        }
        self.real_vars.insert(name, value);
        proof {
            let before = old(self)@;
            let after = self@;
            assert(after.reals.dom() =~= before.reals.dom());
            assert(after == RuntimeState { reals: before.reals.insert(name@, value), ..before });
        }
        Ok(())
    }

    /// Reads a boolean variable.
    pub fn get_bool_variable(&self, name: &str) -> (r: ComponentResult<bool>)
        requires
            self.well_formed(),
        ensures
            reading(self@.get_bool(name@), r),
    {
        match self.bool_vars.get(name) {
            Some(value) => Ok(value),
            None => Err(ComponentError::VariableNotFound(String::from_str(name))),
        }
    }

    /// Writes a boolean variable.
    pub fn set_bool_variable(&mut self, name: &str, value: bool) -> (r: ComponentResult<()>)
        requires
            old(self).well_formed(),
        ensures
            final(self).well_formed(),
            transition(old(self)@, old(self)@.set_bool(name@, value), final(self)@, outcome(r)),
    {
        if !self.bool_vars.contains_key(name) {
            return Err(ComponentError::VariableNotFound(String::from_str(name)));
        }
        self.bool_vars.insert(name, value);
        proof {
            let before = old(self)@;
            let after = self@;
            assert(after.bools.dom() =~= before.bools.dom());
            assert(after == RuntimeState { bools: before.bools.insert(name@, value), ..before });
        }
        Ok(())
    }

    /// The simulated time.
    pub fn time(&self) -> (r: Real)
        ensures
            r == self@.time,
    {
        self.time
    }

    /// Brings the simulation back to its initial conditions.
    pub fn reset(&mut self) -> (r: ComponentResult<()>)
        requires
            old(self).well_formed(),
        ensures
            final(self).well_formed(),
            transition(old(self)@, old(self)@.reset(), final(self)@, outcome(r)),
    {
        proof {
            lemma_real_names_differ();
            lemma_named_values();
        }
        let ambient = match self.real_vars.get("ambientTemp") {
            Some(value) => value,
            None => Real { bits: TWO_HUNDRED_FIFTY_BITS },
        };
        self.set_real_variable("roomTemp", ambient)?;
        self.set_real_variable("temperature", ambient)?;
        self.set_real_variable("heaterStatus", Real { bits: ZERO_BITS })?;
        self.set_bool_variable("heaterOn", false)?;
        self.time = Real { bits: ZERO_BITS };
        Ok(())
    }

    /// The name of the model that the runtime simulates.
    pub fn component_name(&self) -> (r: &str)
        ensures
            r@ == self@.component_name,
    {
        self.component_name.as_str()
    }
}

} // verus!
