//! A collection of simulation components, each under an identifier and a
//! name of the user's choice.
//!
//! A component is found by its identifier or by its name. Names are unique.
//! All components can be stepped together; they are stepped in the order in
//! which their identifiers first arrived.

use crate::binary64::Real;
use crate::component::{
    outcome, transition, ComponentError, ComponentResult, Failure, SimulationComponent,
};
use crate::table::{
    distinct_keys, has_key, key_position, lemma_keys_of_pairs, lemma_pair_in_map,
    lemma_push_inserts, lemma_remove_removes, lemma_same_keys, lemma_update_inserts, pairs_to_map,
    NameTable,
};
use vstd::prelude::*;
use vstd::string::*;

verus! {

/// The identifier of a registered component: a UUID as a 128-bit number.
#[derive(Clone, Copy, Debug, PartialEq, Eq, PartialOrd, Ord, Hash, Structural)]
pub struct ComponentId {
    pub value: u128,
}

/// The bits of a UUID that hold its version and its variant.
pub const VERSION_AND_VARIANT_MASK: u128 = 0x0000_0000_0000_f000_c000_0000_0000_0000;

/// Version 4 (random) in the version bits, the RFC 9562 variant in the
/// variant bits.
pub const RANDOM_VERSION_AND_VARIANT: u128 = 0x0000_0000_0000_4000_8000_0000_0000_0000;

/// The 62 bits below the variant, which are free.
pub const LOW_MASK: u128 = 0x3fff_ffff_ffff_ffff;

/// The 12 bits between the variant and the version, which are free.
pub const MIDDLE_MASK: u128 = 0xfff;

/// 2^122: the number of identifiers of random form.
pub const RANK_LIMIT: u128 = 0x0400_0000_0000_0000_0000_0000_0000_0000;

/// The sixteen hexadecimal digits in lower case.
pub open spec fn hex_digits() -> Seq<char> {
    seq!['0', '1', '2', '3', '4', '5', '6', '7', '8', '9', 'a', 'b', 'c', 'd', 'e', 'f']
}

/// The hexadecimal digit of `value` at place `k`, counted from the most
/// significant of its 32 digits.
pub open spec fn hex_digit_at(value: u128, k: int) -> char {
    hex_digits()[((value as int) / vstd::arithmetic::power::pow(16, (31 - k) as nat)) % 16]
}

/// The text of a UUID: its 32 hexadecimal digits in lower case, in groups of
/// 8, 4, 4, 4 and 12 with a hyphen between two groups.
pub open spec fn hyphenated(value: u128) -> Seq<char> {
    Seq::new(
        36,
        |i: int|
            if i == 8 || i == 13 || i == 18 || i == 23 {
                '-'
            } else if i < 8 {
                hex_digit_at(value, i)
            } else if i < 13 {
                hex_digit_at(value, i - 1)
            } else if i < 18 {
                hex_digit_at(value, i - 2)
            } else if i < 23 {
                hex_digit_at(value, i - 3)
            } else {
                hex_digit_at(value, i - 4)
            },
    )
}

/// The free bits of an identifier as one number: the 48 bits above the
/// version, the 12 middle bits and the 62 low bits in a row. Two identifiers
/// of random form with the same rank are the same.
pub open spec fn rank_of(value: u128) -> u128 {
    ((value >> 80) << 74) | (((value >> 64) & MIDDLE_MASK) << 62) | (value & LOW_MASK)
}

/// The identifier of random form with the given rank.
pub open spec fn with_rank(rank: u128) -> u128 {
    ((rank >> 74) << 80) | RANDOM_VERSION_AND_VARIANT | (((rank >> 62) & MIDDLE_MASK) << 64) | (rank
        & LOW_MASK)
}

/// The `k`-th identifier of random form after the one with rank `start`,
/// counting round.
pub open spec fn candidate(start: nat, k: nat) -> ComponentId {
    ComponentId { value: with_rank(((start + k) % (RANK_LIMIT as nat)) as u128) }
}

/// Every rank is below 2^122, and an identifier of random form is the
/// identifier with its rank.
pub proof fn lemma_rank_of(value: u128)
    ensures
        rank_of(value) < RANK_LIMIT,
        (ComponentId { value }).is_random_form() ==> with_rank(rank_of(value)) == value,
{
    let rank = ((value >> 80) << 74) | (((value >> 64) & 0xfffu128) << 62) | (value
        & 0x3fff_ffff_ffff_ffffu128);
    assert(rank < 0x0400_0000_0000_0000_0000_0000_0000_0000u128 && (value
        & 0x0000_0000_0000_f000_c000_0000_0000_0000u128
        == 0x0000_0000_0000_4000_8000_0000_0000_0000u128 ==> (((rank >> 74) << 80)
        | 0x0000_0000_0000_4000_8000_0000_0000_0000u128 | (((rank >> 62) & 0xfffu128) << 64) | (rank
        & 0x3fff_ffff_ffff_ffffu128)) == value)) by (bit_vector)
        requires
            rank == ((value >> 80) << 74) | (((value >> 64) & 0xfffu128) << 62) | (value
                & 0x3fff_ffff_ffff_ffffu128),
    ;
}

/// The identifier with a rank has random form and that rank.
pub proof fn lemma_with_rank(rank: u128)
    requires
        rank < RANK_LIMIT,
    ensures
        (ComponentId { value: with_rank(rank) }).is_random_form(),
        rank_of(with_rank(rank)) == rank,
{
    let value = ((rank >> 74) << 80) | 0x0000_0000_0000_4000_8000_0000_0000_0000u128 | (((rank
        >> 62) & 0xfffu128) << 64) | (rank & 0x3fff_ffff_ffff_ffffu128);
    assert(rank < 0x0400_0000_0000_0000_0000_0000_0000_0000u128 ==> value
        & 0x0000_0000_0000_f000_c000_0000_0000_0000u128
        == 0x0000_0000_0000_4000_8000_0000_0000_0000u128 && (((value >> 80) << 74) | (((value
        >> 64) & 0xfffu128) << 62) | (value & 0x3fff_ffff_ffff_ffffu128)) == rank)
        by (bit_vector)
        requires
            value == ((rank >> 74) << 80) | 0x0000_0000_0000_4000_8000_0000_0000_0000u128 | (((rank
                >> 62) & 0xfffu128) << 64) | (rank & 0x3fff_ffff_ffff_ffffu128),
    ;
}

/// Counting on from one identifier, different counts below 2^64 give
/// different identifiers.
pub proof fn lemma_candidates_differ(start: nat, j: nat, k: nat)
    requires
        start < RANK_LIMIT,
        j < k,
        k <= 0xffff_ffff_ffff_ffff,
    ensures
        candidate(start, j) != candidate(start, k),
{
    let a = ((start + j) % (RANK_LIMIT as nat)) as u128;
    let b = ((start + k) % (RANK_LIMIT as nat)) as u128;
    assert(a != b);
    lemma_with_rank(a);
    lemma_with_rank(b);
}

/// Among the first `n + 1` identifiers counted on from any one, there is
/// one that is not among `n` given ones.
pub proof fn lemma_some_candidate_free<V>(entries: Seq<(ComponentId, V)>, start: nat)
    requires
        start < RANK_LIMIT,
        entries.len() <= 0xffff_ffff_ffff_ffff,
    ensures
        exists|j: int|
            0 <= j <= entries.len() && !has_key(entries, #[trigger] candidate(start, j as nat)),
{
    let n = entries.len() as int;
    if forall|j: int| 0 <= j <= n ==> has_key(entries, #[trigger] candidate(start, j as nat)) {
        // Then n + 1 different identifiers would be among n.
        let counts = vstd::set_lib::set_int_range(0, n + 1);
        vstd::set_lib::lemma_int_range(0, n + 1);
        let f = |j: int| candidate(start, j as nat);
        assert forall|a: int, b: int|
            counts.contains(a) && counts.contains(b) && #[trigger] f(a) == #[trigger] f(
                b,
            ) implies a == b by {
            if a < b {
                lemma_candidates_differ(start, a as nat, b as nat);
            } else if b < a {
                lemma_candidates_differ(start, b as nat, a as nat);
            }
        }
        assert(vstd::relations::injective_on(f, counts));
        let image = counts.map(f);
        vstd::set_lib::lemma_map_size(counts, image, f);
        let keys = entries.map_values(|e: (ComponentId, V)| e.0);
        keys.lemma_cardinality_of_set();
        assert(image.subset_of(keys.to_set())) by {
            assert forall|id: ComponentId| image.contains(id) implies keys.to_set().contains(
                id,
            ) by {
                let j = choose|j: int| counts.contains(j) && f(j) == id;
                assert(has_key(entries, candidate(start, j as nat)));
                let i = key_position(entries, id);
                assert(keys[i] == id);
            }
        }
        vstd::seq_lib::seq_to_set_is_finite(keys);
        vstd::set_lib::lemma_len_subset(image, keys.to_set());
        assert(false);
    }
}

/// Calls `uuid::Uuid::new_v4` and takes the result as a number with
/// `Uuid::as_u128`. Trusted: whatever the random bits are, the version is 4
/// and the variant is the RFC's, as `new_v4` sets them. `new_v4` panics
/// where the operating system gives no random bytes.
#[verifier::external_body]
fn random_uuid() -> (r: u128)
    ensures
        r & VERSION_AND_VARIANT_MASK == RANDOM_VERSION_AND_VARIANT,
{
    uuid::Uuid::new_v4().as_u128()
}

/// Calls `uuid::Uuid::from_u128` and formats the result with the `Display`
/// of `Uuid`. Trusted: the text is the hyphenated lower-case form, the
/// digits of the number from the most significant down.
#[verifier::external_body]
fn uuid_text(value: u128) -> (r: String)
    ensures
        r@ == hyphenated(value),
{
    uuid::Uuid::from_u128(value).to_string()
}

impl ComponentId {
    /// Whether the identifier has the form of a random UUID.
    pub open spec fn is_random_form(self) -> bool {
        self.value & VERSION_AND_VARIANT_MASK == RANDOM_VERSION_AND_VARIANT
    }

    pub fn from_u128(value: u128) -> (r: ComponentId)
        ensures
            r.value == value,
    {
        ComponentId { value }
    }

    pub fn as_u128(self) -> (r: u128)
        ensures
            r == self.value,
    {
        self.value
    }

    /// A new random identifier.
    pub fn random() -> (r: ComponentId)
        ensures
            r.is_random_form(),
    {
        ComponentId { value: random_uuid() }
    }

    /// The identifier as text.
    pub fn to_text(self) -> (r: String)
        ensures
            r@ == hyphenated(self.value),
    {
        uuid_text(self.value)
    }
}

/// The text of the error for a name that is registered already.
pub open spec fn name_taken_text(name: Seq<char>) -> Seq<char> {
    "Component with name '"@ + name + "' already exists"@
}

/// The text of the error for an identifier that is not registered.
pub open spec fn not_found_text(id: ComponentId) -> Seq<char> {
    "Component "@ + hyphenated(id.value) + " not found"@
}

/// What a [`ComponentRegistry`] holds: the components by identifier, and
/// the identifier that each name stands for.
#[verifier::reject_recursive_types(C)]
pub struct RegistryState<C> {
    pub components: Map<ComponentId, C>,
    pub names: Map<Seq<char>, ComponentId>,
}

impl<C> RegistryState<C> {
    /// Every name stands for a component that is there.
    pub open spec fn consistent(self) -> bool {
        forall|name: Seq<char>| #[trigger]
            self.names.contains_key(name) ==> self.components.contains_key(self.names[name])
    }

    /// The state with `component` under `id`, and `name` standing for `id`.
    pub open spec fn with_component(self, id: ComponentId, name: Seq<char>, component: C) -> Self {
        RegistryState {
            components: self.components.insert(id, component),
            names: self.names.insert(name, id),
        }
    }

    /// The state with `component` in the place of the one under `id`.
    pub open spec fn with_changed(self, id: ComponentId, component: C) -> Self {
        RegistryState { components: self.components.insert(id, component), names: self.names }
    }

    /// The names without those that stand for `id`.
    pub open spec fn names_without(self, id: ComponentId) -> Map<Seq<char>, ComponentId> {
        Map::new(
            |name: Seq<char>| self.names.contains_key(name) && self.names[name] != id,
            |name: Seq<char>| self.names[name],
        )
    }

    /// Registering `component` under `id` and `name`: refused where the name
    /// is taken.
    pub open spec fn add_component(self, id: ComponentId, name: Seq<char>, component: C) -> Result<
        Self,
        Failure,
    > {
        if self.names.contains_key(name) {
            Err(Failure::InitializationFailed(name_taken_text(name)))
        } else {
            Ok(self.with_component(id, name, component))
        }
    }

    /// Removing the component under `id`, and with it every name that stands
    /// for `id`: refused where no component is under `id`.
    pub open spec fn remove(self, id: ComponentId) -> Result<Self, Failure> {
        if !self.components.contains_key(id) {
            Err(Failure::InvalidInput(not_found_text(id)))
        } else {
            Ok(
                RegistryState {
                    components: self.components.remove(id),
                    names: self.names_without(id),
                },
            )
        }
    }

    /// The component under an identifier, if there is one.
    pub open spec fn get(self, id: ComponentId) -> Option<C> {
        if self.components.contains_key(id) {
            Some(self.components[id])
        } else {
            None
        }
    }

    /// The component that a name stands for, if the name is registered.
    pub open spec fn get_by_name(self, name: Seq<char>) -> Option<C> {
        if self.names.contains_key(name) {
            self.get(self.names[name])
        } else {
            None
        }
    }
}

/// `id` is the first identifier, counting on from the one of random form
/// that has the free bits of `drawn`, under which `components` holds
/// nothing.
pub open spec fn first_free<C>(
    components: Map<ComponentId, C>,
    drawn: ComponentId,
    id: ComponentId,
) -> bool {
    exists|k: int|
        0 <= k && id == #[trigger] candidate(rank_of(drawn.value) as nat, k as nat)
            && !components.contains_key(id) && forall|j: int|
            0 <= j < k ==> components.contains_key(
                #[trigger] candidate(rank_of(drawn.value) as nat, j as nat),
            )
}

/// The first free identifier has random form, and it is the drawn one where
/// that has random form and is free.
pub proof fn lemma_first_free<C>(components: Map<ComponentId, C>, drawn: ComponentId, id: ComponentId)
    requires
        first_free(components, drawn, id),
    ensures
        id.is_random_form(),
        !components.contains_key(id),
        drawn.is_random_form() && !components.contains_key(drawn) ==> id == drawn,
{
    let start = rank_of(drawn.value) as nat;
    lemma_rank_of(drawn.value);
    let k = choose|k: int|
        0 <= k && id == #[trigger] candidate(start, k as nat) && !components.contains_key(id)
            && forall|j: int|
            0 <= j < k ==> components.contains_key(#[trigger] candidate(start, j as nat));
    lemma_with_rank(((start + k as nat) % (RANK_LIMIT as nat)) as u128);
    if drawn.is_random_form() && !components.contains_key(drawn) {
        let first = 0int;
        assert(candidate(start, first as nat) == drawn);
        if k > 0 {
            assert(components.contains_key(candidate(start, first as nat)));
        }
    }
}

/// What registering `component` under `name` and an identifier of the
/// registry's choice comes to: on success the identifier was free and the
/// component stands under it and the name; a name that is taken is refused,
/// and nothing changes.
pub open spec fn registered<C>(
    before: RegistryState<C>,
    name: Seq<char>,
    component: C,
    after: RegistryState<C>,
    result: ComponentResult<ComponentId>,
) -> bool {
    match result {
        Ok(id) => {
            &&& !before.components.contains_key(id)
            &&& before.add_component(id, name, component) == Ok::<RegistryState<C>, Failure>(after)
        },
        Err(e) => {
            &&& before.names.contains_key(name)
            &&& e@ == Failure::InitializationFailed(name_taken_text(name))
            &&& after == before
        },
    }
}

/// A name can be registered once: after a component has been added under a
/// name, adding another under the same name fails, whatever its identifier.
pub proof fn lemma_second_add_under_same_name_fails<C>(
    s: RegistryState<C>,
    first_id: ComponentId,
    first: C,
    second_id: ComponentId,
    second: C,
    name: Seq<char>,
)
    ensures
        s.add_component(first_id, name, first) matches Ok(t) ==> t.add_component(
            second_id,
            name,
            second,
        ) == Err::<RegistryState<C>, Failure>(Failure::InitializationFailed(name_taken_text(name))),
{
}

/// Removing an identifier under which nothing is registered fails; so does
/// removing the same identifier a second time.
pub proof fn lemma_remove_of_absent_fails<C>(s: RegistryState<C>, id: ComponentId)
    ensures
        !s.components.contains_key(id) ==> s.remove(id) == Err::<RegistryState<C>, Failure>(
            Failure::InvalidInput(not_found_text(id)),
        ),
        s.remove(id) matches Ok(t) ==> t.remove(id) is Err,
{
}

/// After a component has been removed, no name that stood for it finds
/// anything, and the registry is still consistent.
pub proof fn lemma_name_absent_after_remove<C>(
    s: RegistryState<C>,
    id: ComponentId,
    name: Seq<char>,
)
    requires
        s.consistent(),
        s.names.contains_key(name),
        s.names[name] == id,
    ensures
        s.remove(id) matches Ok(t) && t.get_by_name(name) is None && t.consistent(),
{
}

/// `after` holds the same identifiers as `before` at the same places.
pub open spec fn same_identifiers<C>(
    before: Seq<(ComponentId, C)>,
    after: Seq<(ComponentId, C)>,
) -> bool {
    &&& after.len() == before.len()
    &&& forall|j: int| 0 <= j < before.len() ==> (#[trigger] after[j]).0 == before[j].0
}

/// The components at the first `count` places of `before` have been stepped
/// by `dt` with success; `after` holds them as the steps left them.
pub open spec fn stepped_until<C: SimulationComponent>(
    before: Seq<(ComponentId, C)>,
    after: Seq<(ComponentId, C)>,
    dt: Real,
    count: int,
) -> bool {
    forall|j: int|
        0 <= j < count ==> (#[trigger] before[j]).1.step_outcome(dt, &after[j].1, Ok(()))
}

/// Stepping all components stopped at place `k`: those before it have been
/// stepped with success, the one at `k` has been stepped and failed with
/// `failure`, and those behind it are untouched.
pub open spec fn stopped_at<C: SimulationComponent>(
    before: Seq<(ComponentId, C)>,
    after: Seq<(ComponentId, C)>,
    dt: Real,
    k: int,
    failure: Failure,
) -> bool {
    &&& 0 <= k < before.len()
    &&& stepped_until(before, after, dt, k)
    &&& before[k].1.step_outcome(dt, &after[k].1, Err(failure))
    &&& forall|j: int| k < j < before.len() ==> #[trigger] after[j] == before[j]
}

/// A component with its identifier.
pub struct Registered<C> {
    id: ComponentId,
    component: C,
}

/// The registry of components of one kind.
pub struct ComponentRegistry<C: SimulationComponent> {
    components: Vec<Registered<C>>,
    name_to_id: NameTable<ComponentId>,
}

impl<C: SimulationComponent> View for ComponentRegistry<C> {
    type V = RegistryState<C>;

    closed spec fn view(&self) -> RegistryState<C> {
        RegistryState { components: pairs_to_map(self.entries()), names: self.name_to_id@ }
    }
}

impl<C: SimulationComponent> ComponentRegistry<C> {
    /// The components with their identifiers, in the order in which they are
    /// stepped and listed.
    pub closed spec fn entries(&self) -> Seq<(ComponentId, C)> {
        self.components@.map_values(|r: Registered<C>| (r.id, r.component))
    }

    /// The names with the identifiers they stand for, in the order in which
    /// they are listed.
    pub closed spec fn name_entries(&self) -> Seq<(Seq<char>, ComponentId)> {
        self.name_to_id.pairs()
    }

    /// The registry's invariant: no identifier and no name occurs twice,
    /// every name stands for a component that is there, and every component
    /// meets its own invariant.
    pub closed spec fn well_formed(&self) -> bool {
        &&& distinct_keys(self.entries())
        &&& self.name_to_id.well_formed()
        &&& self@.consistent()
        &&& forall|i: int|
            0 <= i < self.entries().len() ==> (#[trigger] self.entries()[i]).1.well_formed()
    }

    /// How the two models of a well-formed registry belong together: the
    /// maps are those that the sequences define, no key occurs twice in
    /// either sequence, and every component is well-formed.
    pub proof fn lemma_models_agree(&self)
        requires
            self.well_formed(),
        ensures
            self@.components == pairs_to_map(self.entries()),
            self@.names == pairs_to_map(self.name_entries()),
            distinct_keys(self.entries()),
            distinct_keys(self.name_entries()),
            self@.consistent(),
            forall|i: int|
                0 <= i < self.entries().len() ==> (#[trigger] self.entries()[i]).1.well_formed(),
            forall|id: ComponentId| #[trigger]
                self@.components.contains_key(id) ==> self@.components[id].well_formed(),
    {
        self.name_to_id.lemma_view_is_map_of_pairs();
        assert forall|id: ComponentId| #[trigger]
            self@.components.contains_key(id) implies self@.components[id].well_formed() by {
            let i = key_position(self.entries(), id);
            lemma_pair_in_map(self.entries(), i);
        }
    }

    /// A registry that differs from a well-formed one only in its
    /// components, which are well-formed, is well-formed.
    proof fn lemma_same_identifiers(&self, other: &Self)
        requires
            other.well_formed(),
            self.name_to_id == other.name_to_id,
            same_identifiers(other.entries(), self.entries()),
            forall|j: int|
                0 <= j < self.entries().len() ==> (#[trigger] self.entries()[j]).1.well_formed(),
        ensures
            self.well_formed(),
            self@.names == other@.names,
            self@.components.dom() == other@.components.dom(),
            self.name_entries() == other.name_entries(),
    {
        lemma_same_keys(other.entries(), self.entries());
        assert forall|name: Seq<char>| #[trigger] self@.names.contains_key(name) implies self@
            .components.contains_key(self@.names[name]) by {
            assert(other@.names.contains_key(name));
            assert(other@.components.dom().contains(other@.names[name]));
        }
    }

    /// An empty registry.
    pub fn new() -> (r: Self)
        ensures
            r.well_formed(),
            r@.components == Map::<ComponentId, C>::empty(),
            r@.names == Map::<Seq<char>, ComponentId>::empty(),
    {
        let r = ComponentRegistry { components: Vec::new(), name_to_id: NameTable::new() };
        proof {
            assert(r.entries() =~= Seq::<(ComponentId, C)>::empty());
            assert(r@.components =~= Map::<ComponentId, C>::empty());
        }
        r
    }

    /// The position of an identifier among the components.
    fn position(&self, id: ComponentId) -> (r: Option<usize>)
        ensures
            match r {
                Some(i) => i < self.entries().len() && self.entries()[i as int].0 == id,
                None => !has_key(self.entries(), id),
            },
    {
        let mut i: usize = 0;
        while i < self.components.len()
            invariant
                i <= self.components.len(),
                forall|j: int| 0 <= j < i ==> (#[trigger] self.entries()[j]).0 != id,
            decreases self.components.len() - i,
        {
            if self.components[i].id == id {
                return Some(i);
            }
            i += 1;
        }
        None
    }

    /// Registers `component` under the identifier `id` and the name `name`.
    /// A name that is registered already is refused. A component that was
    /// under `id` before is replaced.
    pub fn add_component(&mut self, id: ComponentId, name: String, component: C) -> (r:
        ComponentResult<()>)
        requires
            old(self).well_formed(),
            component.well_formed(),
        ensures
            final(self).well_formed(),
            transition(
                old(self)@,
                old(self)@.add_component(id, name@, component),
                final(self)@,
                outcome(r),
            ),
    {
        if self.name_to_id.contains_key(name.as_str()) {
            let mut message = String::from_str("Component with name '");
            message.append(name.as_str());
            message.append("' already exists");
            return Err(ComponentError::InitializationFailed(message));
        }
        let ghost before = self.entries();
        match self.position(id) {
            Some(i) => {
                proof {
                    lemma_update_inserts(before, i as int, component);
                }
                self.components[i].component = component;
                proof {
                    assert(self.entries() =~= before.update(i as int, (id, component)));
                }
            },
            None => {
                proof {
                    lemma_push_inserts(before, id, component);
                }
                self.components.push(Registered { id, component });
                proof {
                    assert(self.entries() =~= before.push((id, component)));
                }
            },
        }
        self.name_to_id.insert(name.as_str(), id);
        proof {
            assert(self@.components == old(self)@.components.insert(id, component));
            assert(self@.names == old(self)@.names.insert(name@, id));
            assert(self@ == old(self)@.with_component(id, name@, component));
        }
        Ok(())
    }

    /// The first identifier under which nothing is registered, counting on
    /// from the one of random form that has the free bits of `drawn`.
    fn unused_identifier(&self, drawn: ComponentId) -> (id: ComponentId)
        requires
            self.well_formed(),
        ensures
            first_free(self@.components, drawn, id),
    {
        let value = drawn.value;
        let start: u128 = ((value >> 80) << 74) | (((value >> 64) & MIDDLE_MASK) << 62) | (value
            & LOW_MASK);
        proof {
            lemma_rank_of(value);
        }
        let mut k: usize = 0;
        loop
            invariant
                k <= self.components.len(),
                start == rank_of(drawn.value),
                start < RANK_LIMIT,
                forall|j: int|
                    0 <= j < k ==> has_key(
                        self.entries(),
                        #[trigger] candidate(start as nat, j as nat),
                    ),
            decreases self.components.len() - k,
        {
            let rank: u128 = (start + k as u128) % RANK_LIMIT;
            let id = ComponentId {
                value: ((rank >> 74) << 80) | RANDOM_VERSION_AND_VARIANT | (((rank >> 62)
                    & MIDDLE_MASK) << 64) | (rank & LOW_MASK),
            };
            proof {
                assert(id == candidate(start as nat, k as nat));
            }
            if self.position(id).is_none() {
                proof {
                    let count = k as int;
                    let from = rank_of(drawn.value) as nat;
                    assert(id == candidate(from, count as nat));
                    assert(!self@.components.contains_key(id));
                    assert forall|j: int| 0 <= j < count implies self@.components.contains_key(
                        #[trigger] candidate(from, j as nat),
                    ) by {
                        assert(has_key(self.entries(), candidate(start as nat, j as nat)));
                    }
                }
                return id;
            }
            proof {
                if k == self.components.len() {
                    lemma_some_candidate_free(self.entries(), start as nat);
                }
            }
            k += 1;
        }
    }

    /// Registers `component` under `name` and the identifier `drawn`, made
    /// to have random form; or, where the registry holds that identifier
    /// already, under the next free one of random form. Returns the
    /// identifier.
    pub fn add_drawn(&mut self, drawn: ComponentId, name: String, component: C) -> (r:
        ComponentResult<ComponentId>)
        requires
            old(self).well_formed(),
            component.well_formed(),
        ensures
            final(self).well_formed(),
            registered(old(self)@, name@, component, final(self)@, r),
            r matches Ok(id) ==> first_free(old(self)@.components, drawn, id),
    {
        let id = self.unused_identifier(drawn);
        proof {
            lemma_first_free(self@.components, drawn, id);
        }
        self.add_component(id, name, component)?;
        Ok(id)
    }

    /// Registers `component` under `name` and a new identifier, and returns
    /// the identifier. The identifier is a random UUID; should the registry
    /// hold that very one already, the next free one is taken.
    pub fn add(&mut self, name: String, component: C) -> (r: ComponentResult<ComponentId>)
        requires
            old(self).well_formed(),
            component.well_formed(),
        ensures
            final(self).well_formed(),
            registered(old(self)@, name@, component, final(self)@, r),
            r matches Ok(id) ==> id.is_random_form(),
    {
        let drawn = ComponentId::random();
        let r = self.add_drawn(drawn, name, component);
        proof {
            if let Ok(id) = r {
                lemma_first_free(old(self)@.components, drawn, id);
            }
        }
        r
    }

    /// Removes the component under `id` and every name that stands for it.
    pub fn remove(&mut self, id: ComponentId) -> (r: ComponentResult<()>)
        requires
            old(self).well_formed(),
        ensures
            final(self).well_formed(),
            transition(old(self)@, old(self)@.remove(id), final(self)@, outcome(r)),
    {
        match self.position(id) {
            None => {
                let mut message = String::from_str("Component ");
                let text = id.to_text();
                message.append(text.as_str());
                message.append(" not found");
                Err(ComponentError::InvalidInput(message))
            },
            Some(i) => {
                proof {
                    lemma_remove_removes(self.entries(), i as int);
                    lemma_pair_in_map(self.entries(), i as int);
                }
                let ghost before = self.entries();
                let _ = self.components.remove(i);
                proof {
                    assert(self.entries() =~= before.remove(i as int));
                }
                self.forget_names_of(id);
                proof {
                    assert(self@.components == old(self)@.components.remove(id));
                    assert(self@.names == old(self)@.names_without(id));
                }
                Ok(())
            },
        }
    }

    /// Drops every name that stands for `id`.
    fn forget_names_of(&mut self, id: ComponentId)
        requires
            old(self).name_to_id.well_formed(),
        ensures
            final(self).name_to_id.well_formed(),
            final(self).components == old(self).components,
            final(self)@.names == old(self)@.names_without(id),
    {
        let mut i: usize = 0;
        while i < self.name_to_id.len()
            invariant
                self.name_to_id.well_formed(),
                self.components == old(self).components,
                i <= self.name_to_id.pairs().len(),
                forall|j: int| 0 <= j < i ==> (#[trigger] self.name_to_id.pairs()[j]).1 != id,
                self@.names_without(id) == old(self)@.names_without(id),
            decreases self.name_to_id.pairs().len() - i,
        {
            if self.name_to_id.value_at(i) == id {
                let ghost before = self@;
                proof {
                    self.name_to_id.lemma_view_is_map_of_pairs();
                    lemma_pair_in_map(self.name_to_id.pairs(), i as int);
                }
                self.name_to_id.remove_at(i);
                proof {
                    assert(self@.names_without(id) =~= before.names_without(id));
                }
            } else {
                i += 1;
            }
        }
        proof {
            self.name_to_id.lemma_view_is_map_of_pairs();
            let pairs = self.name_to_id.pairs();
            assert forall|name: Seq<char>| #[trigger]
                self@.names.contains_key(name) implies self@.names[name] != id by {
                let j = key_position(pairs, name);
                lemma_pair_in_map(pairs, j);
            }
            assert(self@.names =~= self@.names_without(id));
        }
    }

    /// The component under an identifier.
    pub fn get(&self, id: ComponentId) -> (r: Option<&C>)
        requires
            self.well_formed(),
        ensures
            match r {
                Some(c) => self@.get(id) == Some(*c) && c.well_formed(),
                None => self@.get(id) is None,
            },
    {
        match self.position(id) {
            Some(i) => {
                proof {
                    lemma_pair_in_map(self.entries(), i as int);
                }
                Some(&self.components[i].component)
            },
            None => None,
        }
    }

    /// The component that a name stands for.
    pub fn get_by_name(&self, name: &str) -> (r: Option<&C>)
        requires
            self.well_formed(),
        ensures
            match r {
                Some(c) => self@.get_by_name(name@) == Some(*c) && c.well_formed(),
                None => self@.get_by_name(name@) is None,
            },
    {
        match self.name_to_id.get(name) {
            Some(id) => self.get(id),
            None => None,
        }
    }

    /// The component under an identifier, to be changed in place. The
    /// registry is well-formed again once the component is.
    pub fn get_mut(&mut self, id: ComponentId) -> (r: Option<&mut C>)
        requires
            old(self).well_formed(),
        ensures
            match r {
                Some(c) => {
                    &&& old(self)@.get(id) == Some(*c)
                    &&& c.well_formed()
                    &&& final(self)@ == old(self)@.with_changed(id, *final(c))
                    &&& final(c).well_formed() ==> final(self).well_formed()
                },
                None => {
                    &&& old(self)@.get(id) is None
                    &&& final(self)@ == old(self)@
                    &&& final(self).well_formed()
                },
            },
    {
        match self.position(id) {
            Some(i) => {
                let ghost before = self.entries();
                let ghost after = *final(self);
                proof {
                    lemma_pair_in_map(before, i as int);
                }
                let c = &mut self.components[i].component;
                proof {
                    let changed = *final(c);
                    lemma_update_inserts(before, i as int, changed);
                    assert(after.entries() =~= before.update(i as int, (id, changed)));
                }
                Some(c)
            },
            None => None,
        }
    }

    /// The component that a name stands for, to be changed in place. The
    /// registry is well-formed again once the component is.
    pub fn get_mut_by_name(&mut self, name: &str) -> (r: Option<&mut C>)
        requires
            old(self).well_formed(),
        ensures
            match r {
                Some(c) => {
                    &&& old(self)@.get_by_name(name@) == Some(*c)
                    &&& c.well_formed()
                    &&& final(self)@ == old(self)@.with_changed(old(self)@.names[name@], *final(c))
                    &&& final(c).well_formed() ==> final(self).well_formed()
                },
                None => {
                    &&& old(self)@.get_by_name(name@) is None
                    &&& final(self)@ == old(self)@
                    &&& final(self).well_formed()
                },
            },
    {
        match self.name_to_id.get(name) {
            Some(id) => self.get_mut(id),
            None => None,
        }
    }

    /// Steps every component by `dt`, in the order of [`Self::entries`]. The
    /// first failure stops the walk and is returned: the components before
    /// it stay stepped, those behind it are not stepped.
    pub fn step_all(&mut self, dt: Real) -> (r: ComponentResult<()>)
        requires
            old(self).well_formed(),
        ensures
            final(self).well_formed(),
            final(self)@.names == old(self)@.names,
            final(self)@.components.dom() == old(self)@.components.dom(),
            final(self).name_entries() == old(self).name_entries(),
            same_identifiers(old(self).entries(), final(self).entries()),
            match r {
                Ok(_) => stepped_until(
                    old(self).entries(),
                    final(self).entries(),
                    dt,
                    old(self).entries().len() as int,
                ),
                Err(e) => exists|k: int|
                    stopped_at(old(self).entries(), final(self).entries(), dt, k, e@),
            },
    {
        let mut i: usize = 0;
        while i < self.components.len()
            invariant
                i <= self.components.len(),
                self.components.len() == old(self).components.len(),
                self.name_to_id == old(self).name_to_id,
                old(self).well_formed(),
                same_identifiers(old(self).entries(), self.entries()),
                forall|j: int|
                    0 <= j < self.entries().len() ==> (#[trigger] self.entries()[j]).1.well_formed(),
                stepped_until(old(self).entries(), self.entries(), dt, i as int),
                forall|j: int|
                    i <= j < self.entries().len() ==> #[trigger] self.entries()[j] == old(self)
                        .entries()[j],
            decreases self.components.len() - i,
        {
            let ghost before = self.entries();
            assert(before[i as int].1.well_formed());
            let stepped = self.components[i].component.step(dt);
            proof {
                assert(self.entries() =~= before.update(
                    i as int,
                    (before[i as int].0, self.components[i as int].component),
                ));
                assert forall|j: int| 0 <= j < self.entries().len() implies (
                #[trigger] self.entries()[j]).1.well_formed() by {
                    if j != i {
                        assert(before[j].1.well_formed());
                    }
                }
            }
            match stepped {
                Ok(_) => {},
                Err(e) => {
                    proof {
                        self.lemma_same_identifiers(old(self));
                        assert(stopped_at(old(self).entries(), self.entries(), dt, i as int, e@));
                    }
                    return Err(e);
                },
            }
            i += 1;
        }
        proof {
            self.lemma_same_identifiers(old(self));
        }
        Ok(())
    }

    /// The identifiers of all components, each once, in the order of
    /// [`Self::entries`].
    pub fn list_ids(&self) -> (r: Vec<ComponentId>)
        requires
            self.well_formed(),
        ensures
            r@ == self.entries().map_values(|e: (ComponentId, C)| e.0),
            r@.no_duplicates(),
            r@.to_set() == self@.components.dom(),
    {
        let mut out: Vec<ComponentId> = Vec::new();
        let mut i: usize = 0;
        while i < self.components.len()
            invariant
                i <= self.components.len(),
                out@.len() == i,
                forall|j: int| 0 <= j < i ==> #[trigger] out@[j] == self.entries()[j].0,
            decreases self.components.len() - i,
        {
            out.push(self.components[i].id);
            i += 1;
        }
        proof {
            assert(out@ =~= self.entries().map_values(|e: (ComponentId, C)| e.0));
            lemma_keys_of_pairs(self.entries());
        }
        out
    }

    /// All registered names, each once, in the order of
    /// [`Self::name_entries`].
    pub fn list_names(&self) -> (r: Vec<String>)
        requires
            self.well_formed(),
        ensures
            r@.map_values(|s: String| s@) == self.name_entries().map_values(
                |e: (Seq<char>, ComponentId)| e.0,
            ),
            r@.map_values(|s: String| s@).no_duplicates(),
            r@.map_values(|s: String| s@).to_set() == self@.names.dom(),
    {
        let out = self.name_to_id.names();
        proof {
            assert(out@.map_values(|s: String| s@) =~= self.name_entries().map_values(
                |e: (Seq<char>, ComponentId)| e.0,
            ));
            self.name_to_id.lemma_view_is_map_of_pairs();
            lemma_keys_of_pairs(self.name_entries());
        }
        out
    }
}

} // verus!
