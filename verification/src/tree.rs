//! The tree as a whole: a world together with the trixel records that the
//! store holds for it, what an accepted update does to all of them, and
//! what therefore holds after any number of updates.

use crate::errors::ErrorCode;
use crate::helpers::htm::{
    leading_digit, lemma_ancestor_chain, lemma_ancestor_of_ancestor, lemma_child_by_slot,
    lemma_leading_digit_range, lemma_valid_shape, spec_ancestors, spec_resolution,
    valid_trixel_id,
};
use crate::helpers::pda::spec_trixel_address;
use crate::ixns::update_trixel::{
    lemma_ancestor_step, spec_authorized, spec_climb, spec_leaf_step, spec_update_trixel,
    spec_world_step, Climb, Outcome, TrixelAccountView, UpdateTrixelArgs,
};
use crate::state::trixel::TrixelView;
use crate::state::trixel_data::{
    lemma_inner_update, lemma_leaf_update, LeafUpdate, TrixelData, TrixelDataType,
};
use crate::state::world::WorldView;
use vstd::prelude::*;

verus! {

/// A world and the trixel records of its tree, each under its identifier.
pub struct Tree {
    pub world_key: Seq<u8>,
    pub program_id: Seq<u8>,
    pub world: WorldView,
    pub trixels: Map<u64, TrixelView>,
}

/// One call of the update: who sent it, what it carries, and when.
pub struct Observation {
    pub payer: Seq<u8>,
    pub args: UpdateTrixelArgs,
    pub now: i64,
}

/// `x` is the trixel `id` or one of its ancestors.
pub open spec fn is_under(id: u64, x: u64) -> bool {
    x == id || spec_ancestors(id).contains(x)
}

/// `records` written into `trixels` under the first `count` of `ids`.
pub open spec fn put_all(
    trixels: Map<u64, TrixelView>,
    ids: Seq<u64>,
    records: Seq<TrixelView>,
    count: nat,
) -> Map<u64, TrixelView>
    decreases count,
{
    if count == 0 {
        trixels
    } else {
        put_all(trixels, ids, records, (count - 1) as nat).insert(
            ids[count - 1],
            records[count - 1],
        )
    }
}

impl Tree {
    /// The store holds a record for the trixel `id` and for each of its
    /// ancestors.
    pub open spec fn holds(self, id: u64) -> bool {
        forall|x: u64| is_under(id, x) ==> self.trixels.dom().contains(x)
    }

    /// The address that the store keeps the trixel `id` at.
    pub open spec fn address(self, id: u64) -> Seq<u8> {
        spec_trixel_address(id, self.world_key, self.program_id)->Some_0.0
    }

    /// The accounts of the ancestors of `id` as the store hands them to an
    /// update, nearest first.
    pub open spec fn ancestor_accounts(self, id: u64) -> Seq<TrixelAccountView> {
        Seq::new(
            spec_ancestors(id).len(),
            |i: int|
                TrixelAccountView {
                    key: self.address(spec_ancestors(id)[i]),
                    trixel: self.trixels[spec_ancestors(id)[i]],
                },
        )
    }

    /// What the update makes of the records that the store hands it for an
    /// observation.
    pub open spec fn outcome(self, observation: Observation) -> Result<Outcome, ErrorCode> {
        spec_update_trixel(
            observation.payer,
            self.world_key,
            self.world,
            self.trixels[observation.args.id],
            self.ancestor_accounts(observation.args.id),
            self.program_id,
            observation.args,
            observation.now,
        )
    }

    /// The tree after an observation, where the store holds the records it
    /// lands on and the update is accepted.
    pub open spec fn update(self, observation: Observation) -> Option<Tree> {
        let id = observation.args.id;
        if !self.holds(id) {
            None
        } else {
            match self.outcome(observation) {
                Err(_) => None,
                Ok(outcome) => Some(
                    Tree {
                        world: outcome.world,
                        trixels: put_all(
                            self.trixels,
                            spec_ancestors(id),
                            outcome.ancestors,
                            spec_ancestors(id).len(),
                        ).insert(id, outcome.trixel),
                        ..self
                    },
                ),
            }
        }
    }

    /// The tree after a run of observations, where each of them in turn is
    /// accepted.
    pub open spec fn replay(self, history: Seq<Observation>) -> Option<Tree>
        decreases history.len(),
    {
        if history.len() == 0 {
            Some(self)
        } else {
            match self.replay(history.drop_last()) {
                None => None,
                Some(tree) => tree.update(history.last()),
            }
        }
    }
}

/// `x` is among the first `count` of `ids`.
pub open spec fn among(ids: Seq<u64>, count: nat, x: u64) -> bool {
    exists|i: int| 0 <= i < count && ids[i] == x
}

/// What `put_all` leaves under each identifier, where the identifiers
/// written are all different.
proof fn lemma_put_all(
    trixels: Map<u64, TrixelView>,
    ids: Seq<u64>,
    records: Seq<TrixelView>,
    count: nat,
)
    requires
        count <= ids.len(),
        count <= records.len(),
        forall|i: int, j: int| 0 <= i < j < ids.len() ==> ids[i] != ids[j],
    ensures
        forall|i: int|
            0 <= i < count ==> put_all(trixels, ids, records, count)[#[trigger] ids[i]]
                == records[i],
        forall|x: u64|
            !among(ids, count, x) ==> #[trigger] put_all(trixels, ids, records, count)[x]
                == trixels[x],
        forall|x: u64|
            #[trigger] put_all(trixels, ids, records, count).dom().contains(x) <==> (
            trixels.dom().contains(x) || among(ids, count, x)),
    decreases count,
{
    if count > 0 {
        let before = (count - 1) as nat;
        let last = ids[before as int];
        lemma_put_all(trixels, ids, records, before);
        let earlier = put_all(trixels, ids, records, before);
        let now = put_all(trixels, ids, records, count);
        assert(now == earlier.insert(last, records[before as int]));
        assert forall|x: u64| among(ids, count, x) <==> (among(ids, before, x) || x == last) by {
            if among(ids, before, x) {
                let k = choose|k: int| 0 <= k < before && ids[k] == x;
                assert(0 <= k < count && ids[k] == x);
            }
            if x == last {
                assert(0 <= before < count && ids[before as int] == x);
            }
        }
        assert forall|i: int| 0 <= i < count implies now[#[trigger] ids[i]] == records[i] by {
            if i < before {
                assert(ids[i] != ids[before as int]);
            }
        }
        assert forall|x: u64| !among(ids, count, x) implies #[trigger] now[x] == trixels[x] by {
            assert(!among(ids, before, x));
            assert(x != last);
        }
        assert forall|x: u64| #[trigger]
            now.dom().contains(x) <==> (trixels.dom().contains(x) || among(ids, count, x)) by {
            assert(earlier.dom().contains(x) <==> (trixels.dom().contains(x) || among(
                ids,
                before,
                x,
            )));
        }
    }
}

impl Tree {
    /// The kind of statistic that the world keeps.
    pub open spec fn kind(self) -> TrixelDataType {
        self.world.data.spec_data_type()
    }

    /// What an observation does to the statistic of its leaf.
    pub open spec fn change(self, observation: Observation) -> Result<LeafUpdate, ErrorCode> {
        self.trixels[observation.args.id].data.spec_update_leaf(
            self.kind(),
            observation.args.value,
        )
    }

    /// The walk that an accepted observation takes up from its leaf.
    pub open spec fn climb(self, observation: Observation) -> Climb {
        let id = observation.args.id;
        let stepped = spec_leaf_step(
            self.trixels[id],
            self.kind(),
            observation.args.value,
            observation.now,
        )->Ok_0;
        spec_climb(
            self.ancestor_accounts(id),
            id,
            self.world_key,
            self.program_id,
            self.kind(),
            stepped.1,
            stepped.2,
            observation.now,
            stepped.0.hash,
        )
    }

    /// What the update makes of the records handed to it, where it accepts
    /// them.
    proof fn lemma_outcome(self, observation: Observation)
        requires
            self.outcome(observation) is Ok,
        ensures
            ({
                let outcome = self.outcome(observation)->Ok_0;
                let id = observation.args.id;
                let change = self.change(observation);
                let climb = self.climb(observation);
                &&& valid_trixel_id(id as nat)
                &&& spec_resolution(id as nat) == self.world.canonical_resolution
                &&& spec_authorized(self.world, observation.payer)
                &&& change is Ok
                &&& climb.delta == change->Ok_0.delta
                &&& climb.activated == change->Ok_0.activated
                &&& climb.walk(spec_ancestors(id).len()) is Ok
                &&& outcome.trixel == spec_leaf_step(
                    self.trixels[id],
                    self.kind(),
                    observation.args.value,
                    observation.now,
                )->Ok_0.0
                &&& outcome.trixel.data == change->Ok_0.data
                &&& outcome.trixel.hash_is_current()
                &&& outcome.ancestors == climb.walk(spec_ancestors(id).len())->Ok_0.done
                &&& spec_world_step(
                    self.world,
                    climb.delta,
                    climb.activated,
                    climb.walk(spec_ancestors(id).len())->Ok_0.slot,
                    climb.walk(spec_ancestors(id).len())->Ok_0.carry,
                ) == Ok::<WorldView, ErrorCode>(outcome.world)
            }),
    {
    }

    /// What the world's step leaves of the world.
    proof fn lemma_world_step(
        world: WorldView,
        delta: i64,
        activated: bool,
        slot: int,
        carry: Seq<u8>,
    )
        requires
            spec_world_step(world, delta, activated, slot, carry) is Ok,
        ensures
            ({
                let after = spec_world_step(world, delta, activated, slot, carry)->Ok_0;
                &&& world.data.spec_update_inner(world.data.spec_data_type(), delta, activated)
                    == Ok::<TrixelData, ErrorCode>(after.data)
                &&& after.data.spec_data_type() == world.data.spec_data_type()
                &&& after.child_hashes == world.child_hashes.update(slot, carry)
                &&& after.root_is_current()
                &&& after.updates == world.updates + 2
                &&& after.canonical_resolution == world.canonical_resolution
                &&& after.authority == world.authority
                &&& after.name == world.name
                &&& after.permissioned_updates == world.permissioned_updates
                &&& slot < 8
            }),
    {
    }

    /// Under the identifiers of the ancestors an accepted update leaves
    /// the records that its walk has made, and under that of the leaf the
    /// leaf it has made; every other record is as it was.
    proof fn lemma_update_writes(self, observation: Observation)
        requires
            self.update(observation) is Some,
        ensures
            ({
                let after = self.update(observation)->Some_0;
                let id = observation.args.id;
                let outcome = self.outcome(observation)->Ok_0;
                &&& self.outcome(observation) is Ok
                &&& self.holds(id)
                &&& after.world == outcome.world
                &&& after.world_key == self.world_key
                &&& after.program_id == self.program_id
                &&& after.trixels[id] == outcome.trixel
                &&& outcome.ancestors.len() == spec_ancestors(id).len()
                &&& forall|i: int|
                    0 <= i < spec_ancestors(id).len() ==> (
                    #[trigger] after.trixels[spec_ancestors(id)[i]]) == outcome.ancestors[i]
                &&& forall|x: u64| !is_under(id, x) ==> #[trigger] after.trixels[x] == self.trixels[x]
                &&& after.trixels.dom() == self.trixels.dom()
            }),
    {
        let after = self.update(observation)->Some_0;
        let id = observation.args.id;
        let ids = spec_ancestors(id);
        let outcome = self.outcome(observation)->Ok_0;
        self.lemma_outcome(observation);
        self.climb(observation).lemma_walk_steps(ids.len());
        lemma_ancestor_chain(id);
        lemma_put_all(self.trixels, ids, outcome.ancestors, ids.len());
        let written = put_all(self.trixels, ids, outcome.ancestors, ids.len());
        assert forall|x: u64| among(ids, ids.len(), x) <==> ids.contains(x) by {
            if ids.contains(x) {
                let k = choose|k: int| 0 <= k < ids.len() && ids[k] == x;
                assert(0 <= k < ids.len() && ids[k] == x);
            }
        }
        assert(!ids.contains(id)) by {
            if ids.contains(id) {
                let k = choose|k: int| 0 <= k < ids.len() && ids[k] == id;
                assert(ids[0] >= ids[k]);
            }
        }
        assert forall|i: int| 0 <= i < ids.len() implies (#[trigger] after.trixels[ids[i]])
            == outcome.ancestors[i] by {
            assert(ids.contains(ids[i]));
            assert(written[ids[i]] == outcome.ancestors[i]);
        }
        assert(after.trixels.dom() =~= self.trixels.dom()) by {
            assert forall|x: u64| after.trixels.dom().contains(x) <==> self.trixels.dom().contains(
                x,
            ) by {
                if among(ids, ids.len(), x) || x == id {
                    assert(is_under(id, x));
                }
            }
        }
    }

    /// An accepted update leaves the leaf with the observation taken in,
    /// and each ancestor and the world with the change of the leaf taken
    /// in; it leaves every other record, and what a record is the record
    /// of, as they were.
    pub proof fn lemma_update_effect(self, observation: Observation)
        requires
            self.update(observation) is Some,
        ensures
            ({
                let after = self.update(observation)->Some_0;
                let id = observation.args.id;
                let change = self.change(observation);
                &&& valid_trixel_id(id as nat)
                &&& spec_resolution(id as nat) == self.world.canonical_resolution
                &&& self.holds(id)
                &&& change is Ok
                &&& after.trixels[id].data == change->Ok_0.data
                &&& self.world.data.spec_update_inner(
                    self.kind(),
                    change->Ok_0.delta,
                    change->Ok_0.activated,
                ) == Ok::<TrixelData, ErrorCode>(after.world.data)
                &&& forall|i: int|
                    0 <= i < spec_ancestors(id).len() ==> self.trixels[spec_ancestors(
                        id,
                    )[i]].data.spec_update_inner(
                        self.kind(),
                        change->Ok_0.delta,
                        change->Ok_0.activated,
                    ) == Ok::<TrixelData, ErrorCode>(
                        (#[trigger] after.trixels[spec_ancestors(id)[i]]).data,
                    )
                &&& forall|x: u64| !is_under(id, x) ==> #[trigger] after.trixels[x] == self.trixels[x]
                &&& forall|x: u64|
                    is_under(id, x) ==> {
                        &&& (#[trigger] after.trixels[x]).id == self.trixels[x].id
                        &&& after.trixels[x].world == self.trixels[x].world
                        &&& after.trixels[x].resolution == self.trixels[x].resolution
                        &&& after.trixels[x].hash_is_current()
                    }
                &&& after.trixels.dom() == self.trixels.dom()
                &&& after.world_key == self.world_key
                &&& after.program_id == self.program_id
                &&& after.world.canonical_resolution == self.world.canonical_resolution
                &&& after.world.authority == self.world.authority
                &&& after.world.name == self.world.name
                &&& after.world.permissioned_updates == self.world.permissioned_updates
                &&& after.kind() == self.kind()
                &&& after.world.root_is_current()
            }),
    {
        let after = self.update(observation)->Some_0;
        let id = observation.args.id;
        let ids = spec_ancestors(id);
        let outcome = self.outcome(observation)->Ok_0;
        let climb = self.climb(observation);
        self.lemma_update_writes(observation);
        self.lemma_outcome(observation);
        climb.lemma_walk_steps(ids.len());
        let walked = climb.walk(ids.len())->Ok_0;
        Self::lemma_world_step(self.world, climb.delta, climb.activated, walked.slot, walked.carry);
        assert forall|i: int| 0 <= i < ids.len() implies {
            let x = ids[i];
            &&& self.trixels[x].data.spec_update_inner(self.kind(), climb.delta, climb.activated)
                == Ok::<TrixelData, ErrorCode>((#[trigger] after.trixels[ids[i]]).data)
            &&& after.trixels[x].id == self.trixels[x].id
            &&& after.trixels[x].world == self.trixels[x].world
            &&& after.trixels[x].resolution == self.trixels[x].resolution
            &&& after.trixels[x].hash_is_current()
        } by {
            let before = climb.walk(i as nat)->Ok_0;
            assert(after.trixels[ids[i]] == outcome.ancestors[i]);
            assert(outcome.ancestors[i] == climb.taken(i));
            lemma_ancestor_step(
                climb.accounts[i],
                ids[i],
                climb.world_key,
                climb.program_id,
                climb.world_type,
                climb.delta,
                climb.activated,
                before.slot,
                before.carry,
                climb.now,
            );
        }
        assert forall|x: u64| is_under(id, x) implies {
            &&& (#[trigger] after.trixels[x]).id == self.trixels[x].id
            &&& after.trixels[x].world == self.trixels[x].world
            &&& after.trixels[x].resolution == self.trixels[x].resolution
            &&& after.trixels[x].hash_is_current()
        } by {
            if x != id {
                let k = choose|k: int| 0 <= k < ids.len() && ids[k] == x;
                assert(after.trixels[ids[k]].id == self.trixels[x].id);
            }
        }
    }
}

/// The leaves that the observations land on, in the order of the
/// observations.
pub open spec fn leaves_of(history: Seq<Observation>) -> Seq<u64> {
    Seq::new(history.len(), |i: int| history[i].args.id)
}

/// How many of the observations land on the trixel `x` or below it.
pub open spec fn landed_under(history: Seq<Observation>, x: u64) -> nat
    decreases history.len(),
{
    if history.len() == 0 {
        0
    } else {
        landed_under(history.drop_last(), x) + if is_under(history.last().args.id, x) {
            1nat
        } else {
            0nat
        }
    }
}

/// Of two trixels at the same depth neither lies under the other.
proof fn lemma_under_same_depth(id: u64, x: u64)
    requires
        valid_trixel_id(id as nat),
        spec_resolution(id as nat) == spec_resolution(x as nat),
    ensures
        is_under(id, x) <==> x == id,
{
    lemma_ancestor_chain(id);
    if spec_ancestors(id).contains(x) {
        let k = choose|k: int| 0 <= k < spec_ancestors(id).len() && spec_ancestors(id)[k] == x;
        assert(spec_resolution(spec_ancestors(id)[k] as nat) == spec_resolution(id as nat) - 1 - k);
    }
}

impl Tree {
    /// What no run of accepted updates changes: the world's configuration
    /// and which records there are. Every observation of such a run lands
    /// on a well-formed leaf at the world's canonical resolution.
    pub proof fn lemma_replay_keeps(self, history: Seq<Observation>)
        requires
            self.replay(history) is Some,
        ensures
            ({
                let after = self.replay(history)->Some_0;
                &&& after.kind() == self.kind()
                &&& after.world.canonical_resolution == self.world.canonical_resolution
                &&& after.world.authority == self.world.authority
                &&& after.world.name == self.world.name
                &&& after.world.permissioned_updates == self.world.permissioned_updates
                &&& after.world_key == self.world_key
                &&& after.program_id == self.program_id
                &&& after.trixels.dom() == self.trixels.dom()
                &&& forall|j: int|
                    0 <= j < history.len() ==> {
                        &&& valid_trixel_id((#[trigger] history[j]).args.id as nat)
                        &&& spec_resolution(history[j].args.id as nat)
                            == self.world.canonical_resolution
                        &&& self.holds(history[j].args.id)
                    }
            }),
        decreases history.len(),
    {
        if history.len() > 0 {
            let earlier = history.drop_last();
            self.lemma_replay_keeps(earlier);
            let before = self.replay(earlier)->Some_0;
            before.lemma_update_effect(history.last());
            assert forall|j: int| 0 <= j < history.len() implies {
                &&& valid_trixel_id((#[trigger] history[j]).args.id as nat)
                &&& spec_resolution(history[j].args.id as nat) == self.world.canonical_resolution
                &&& self.holds(history[j].args.id)
            } by {
                if j < history.len() - 1 {
                    assert(history[j] == earlier[j]);
                }
            }
        }
    }

    /// In a world that counts, after any run of accepted updates the world
    /// has counted every one of them, and each record has counted those
    /// that landed on its trixel or below it.
    pub proof fn lemma_count_totals(self, history: Seq<Observation>)
        requires
            self.kind() == TrixelDataType::Count,
            self.replay(history) is Some,
        ensures
            ({
                let after = self.replay(history)->Some_0;
                &&& after.world.data.total() == self.world.data.total() + history.len()
                &&& forall|x: u64|
                    self.trixels.dom().contains(x) ==> (#[trigger] after.trixels[x]).data.total()
                        == self.trixels[x].data.total() + landed_under(history, x)
            }),
        decreases history.len(),
    {
        if history.len() > 0 {
            let earlier = history.drop_last();
            let last = history.last();
            let id = last.args.id;
            self.lemma_count_totals(earlier);
            self.lemma_replay_keeps(earlier);
            let before = self.replay(earlier)->Some_0;
            let after = self.replay(history)->Some_0;
            before.lemma_update_effect(last);
            assert forall|x: u64| self.trixels.dom().contains(x) implies (
            #[trigger] after.trixels[x]).data.total() == self.trixels[x].data.total()
                + landed_under(history, x) by {
                if x == id {
                } else if spec_ancestors(id).contains(x) {
                    let k = choose|k: int|
                        0 <= k < spec_ancestors(id).len() && spec_ancestors(id)[k] == x;
                    assert(after.trixels[spec_ancestors(id)[k]].data.total()
                        == before.trixels[x].data.total() + 1);
                } else {
                    assert(!is_under(id, x));
                }
            }
        }
    }

    /// In a world that counts and starts with nothing counted, after any
    /// run of accepted updates the world's count is the number of updates,
    /// and the count of each leaf is the number of updates that landed on it:
    /// the leaves' counts add up to the world's.
    pub proof fn lemma_count_leaves(self, history: Seq<Observation>)
        requires
            self.kind() == TrixelDataType::Count,
            self.world.data.total() == 0,
            forall|j: int|
                0 <= j < history.len() ==> (#[trigger] self.trixels[history[j].args.id]).data.total()
                    == 0,
            self.replay(history) is Some,
        ensures
            ({
                let after = self.replay(history)->Some_0;
                let landed = leaves_of(history).to_multiset();
                &&& after.world.data.total() == landed.len()
                &&& forall|j: int|
                    0 <= j < history.len() ==> (#[trigger] after.trixels[history[j].args.id]).data.total()
                        == landed.count(history[j].args.id)
            }),
    {
        self.lemma_count_totals(history);
        self.lemma_replay_keeps(history);
        leaves_of(history).to_multiset_ensures();
        assert forall|j: int| 0 <= j < history.len() implies landed_under(
            history,
            #[trigger] history[j].args.id,
        ) == leaves_of(history).to_multiset().count(history[j].args.id) by {
            Self::lemma_landed_on_leaf(
                history,
                history[j].args.id,
                self.world.canonical_resolution,
            );
        }
        assert forall|j: int| 0 <= j < history.len() implies self.trixels.dom().contains(
            #[trigger] history[j].args.id,
        ) by {
            assert(self.holds(history[j].args.id));
            assert(is_under(history[j].args.id, history[j].args.id));
        }
    }

    /// Among observations that all land at one depth, those that land on a
    /// trixel of that depth or below it are those that land on it.
    proof fn lemma_landed_on_leaf(history: Seq<Observation>, x: u64, depth: u8)
        requires
            spec_resolution(x as nat) == depth,
            forall|j: int|
                0 <= j < history.len() ==> valid_trixel_id((#[trigger] history[j]).args.id as nat)
                    && spec_resolution(history[j].args.id as nat) == depth,
        ensures
            landed_under(history, x) == leaves_of(history).to_multiset().count(x),
        decreases history.len(),
    {
        if history.len() == 0 {
            assert(leaves_of(history) =~= Seq::<u64>::empty());
            leaves_of(history).to_multiset_ensures();
            assert(leaves_of(history).to_multiset().len() == 0);
        } else {
            let earlier = history.drop_last();
            let id = history.last().args.id;
            assert forall|j: int| 0 <= j < earlier.len() implies valid_trixel_id(
                (#[trigger] earlier[j]).args.id as nat,
            ) && spec_resolution(earlier[j].args.id as nat) == depth by {
                assert(earlier[j] == history[j]);
            }
            Self::lemma_landed_on_leaf(earlier, x, depth);
            lemma_under_same_depth(id, x);
            assert(leaves_of(history) =~= leaves_of(earlier).push(id));
            vstd::seq_lib::to_multiset_build(leaves_of(earlier), id);
            vstd::multiset::lemma_insert_increases_count_by_1(leaves_of(earlier).to_multiset(), id);
            if x != id {
                vstd::multiset::lemma_insert_other_elements_unchanged(
                    leaves_of(earlier).to_multiset(),
                    id,
                    x,
                );
            }
        }
    }

    /// In a world that counts, a run of `n` accepted updates of one leaf
    /// adds `n` to the count of the leaf, of each of its ancestors and of
    /// the world.
    pub proof fn lemma_count_one_leaf(self, history: Seq<Observation>, id: u64)
        requires
            self.kind() == TrixelDataType::Count,
            self.replay(history) is Some,
            forall|j: int| 0 <= j < history.len() ==> (#[trigger] history[j]).args.id == id,
        ensures
            ({
                let after = self.replay(history)->Some_0;
                &&& after.world.data.total() == self.world.data.total() + history.len()
                &&& forall|x: u64|
                    is_under(id, x) && self.trixels.dom().contains(x) ==> (
                    #[trigger] after.trixels[x]).data.total() == self.trixels[x].data.total()
                        + history.len()
            }),
    {
        self.lemma_count_totals(history);
        assert forall|x: u64| is_under(id, x) implies landed_under(history, x)
            == history.len() by {
            Self::lemma_all_landed(history, id, x);
        }
    }

    /// Observations that all land on one leaf all land under each trixel
    /// that the leaf lies under.
    proof fn lemma_all_landed(history: Seq<Observation>, id: u64, x: u64)
        requires
            forall|j: int| 0 <= j < history.len() ==> (#[trigger] history[j]).args.id == id,
            is_under(id, x),
        ensures
            landed_under(history, x) == history.len(),
        decreases history.len(),
    {
        if history.len() > 0 {
            let earlier = history.drop_last();
            assert forall|j: int| 0 <= j < earlier.len() implies (#[trigger] earlier[j]).args.id
                == id by {
                assert(earlier[j] == history[j]);
            }
            Self::lemma_all_landed(earlier, id, x);
        }
    }
}

/// The leaves that observations landed on.
pub open spec fn leaves_seen(history: Seq<Observation>) -> Set<u64>
    decreases history.len(),
{
    if history.len() == 0 {
        Set::empty()
    } else {
        leaves_seen(history.drop_last()).insert(history.last().args.id)
    }
}

/// The leaves that observations landed on and that are the trixel `x` or
/// lie below it.
pub open spec fn leaves_seen_under(history: Seq<Observation>, x: u64) -> Set<u64>
    decreases history.len(),
{
    if history.len() == 0 {
        Set::empty()
    } else if is_under(history.last().args.id, x) {
        leaves_seen_under(history.drop_last(), x).insert(history.last().args.id)
    } else {
        leaves_seen_under(history.drop_last(), x)
    }
}

/// The leaves seen are finitely many, and those seen under a trixel are
/// those of them that lie under it.
proof fn lemma_leaves_seen(history: Seq<Observation>, x: u64)
    ensures
        leaves_seen(history).finite(),
        leaves_seen_under(history, x).finite(),
        forall|y: u64|
            #[trigger] leaves_seen_under(history, x).contains(y) <==> leaves_seen(
                history,
            ).contains(y) && is_under(y, x),
    decreases history.len(),
{
    if history.len() > 0 {
        lemma_leaves_seen(history.drop_last(), x);
    }
}

impl Tree {
    /// In a world that keeps a mean and starts with nothing observed,
    /// after any run of accepted updates the denominator of the world is
    /// the number of leaves that were observed at least once, and the
    /// denominator of each record is the number of such leaves on its
    /// trixel or below it: one for a leaf that was observed.
    pub proof fn lemma_mean_weights(self, history: Seq<Observation>)
        requires
            self.kind().is_mean(),
            self.world.data.weight() == 0,
            forall|x: u64|
                self.trixels.dom().contains(x) ==> (#[trigger] self.trixels[x]).data.weight() == 0,
            self.replay(history) is Some,
        ensures
            ({
                let after = self.replay(history)->Some_0;
                &&& after.world.data.weight() == leaves_seen(history).len()
                &&& forall|x: u64|
                    self.trixels.dom().contains(x) ==> (#[trigger] after.trixels[x]).data.weight()
                        == leaves_seen_under(history, x).len()
            }),
        decreases history.len(),
    {
        if history.len() > 0 {
            let earlier = history.drop_last();
            let last = history.last();
            let id = last.args.id;
            self.lemma_mean_weights(earlier);
            self.lemma_replay_keeps(earlier);
            self.lemma_replay_keeps(history);
            let before = self.replay(earlier)->Some_0;
            let after = self.replay(history)->Some_0;
            before.lemma_update_effect(last);
            let change = before.change(last)->Ok_0;
            lemma_leaves_seen(earlier, id);
            assert(change.activated <==> !leaves_seen(earlier).contains(id)) by {
                assert(before.trixels[id].data.weight() == leaves_seen_under(earlier, id).len());
                if leaves_seen(earlier).contains(id) {
                    assert(leaves_seen_under(earlier, id).contains(id));
                    assert(leaves_seen_under(earlier, id).len() != 0);
                } else {
                    assert forall|y: u64| !leaves_seen_under(earlier, id).contains(y) by {
                        if leaves_seen_under(earlier, id).contains(y) {
                            Self::lemma_seen_at_depth(
                                earlier,
                                y,
                                self.world.canonical_resolution,
                            );
                            lemma_under_same_depth(y, id);
                        }
                    }
                    assert(leaves_seen_under(earlier, id) =~= Set::<u64>::empty());
                }
            }
            assert forall|x: u64| self.trixels.dom().contains(x) implies (
            #[trigger] after.trixels[x]).data.weight() == leaves_seen_under(history, x).len() by {
                lemma_leaves_seen(earlier, x);
                if x == id {
                    assert(after.trixels[id].data.weight() == 1);
                    assert(leaves_seen_under(history, id) =~= Set::<u64>::empty().insert(id)) by {
                        assert forall|y: u64|
                            leaves_seen_under(earlier, id).contains(y) implies y == id by {
                            Self::lemma_seen_at_depth(
                                earlier,
                                y,
                                self.world.canonical_resolution,
                            );
                            lemma_under_same_depth(y, id);
                        }
                    }
                } else if spec_ancestors(id).contains(x) {
                    let k = choose|k: int|
                        0 <= k < spec_ancestors(id).len() && spec_ancestors(id)[k] == x;
                    assert(after.trixels[spec_ancestors(id)[k]].data.weight()
                        == before.trixels[x].data.weight() + if change.activated {
                        1int
                    } else {
                        0int
                    });
                } else {
                    assert(!is_under(id, x));
                }
            }
        }
    }

    /// A leaf that was seen in a run of observations that all land at one
    /// depth is a well-formed leaf at that depth.
    proof fn lemma_seen_at_depth(history: Seq<Observation>, y: u64, depth: u8)
        requires
            leaves_seen(history).contains(y),
            forall|j: int|
                0 <= j < history.len() ==> valid_trixel_id((#[trigger] history[j]).args.id as nat)
                    && spec_resolution(history[j].args.id as nat) == depth,
        ensures
            valid_trixel_id(y as nat),
            spec_resolution(y as nat) == depth,
        decreases history.len(),
    {
        if history.len() > 0 {
            let earlier = history.drop_last();
            if y != history.last().args.id {
                assert forall|j: int| 0 <= j < earlier.len() implies valid_trixel_id(
                    (#[trigger] earlier[j]).args.id as nat,
                ) && spec_resolution(earlier[j].args.id as nat) == depth by {
                    assert(earlier[j] == history[j]);
                }
                Self::lemma_seen_at_depth(earlier, y, depth);
            }
        }
    }
}

impl Tree {
    /// Every record on the way from the trixel `id` to the root has a
    /// place for each child: four in a trixel, eight in the world.
    pub open spec fn shaped(self, id: u64) -> bool {
        &&& self.world.child_hashes.len() == 8
        &&& forall|x: u64| is_under(id, x) ==> (#[trigger] self.trixels[x]).child_hashes.len() == 4
    }

    /// In a world that overwrites, an update that brings a leaf the value
    /// that the update before it brought changes nothing that is hashed:
    /// the leaf, each of its ancestors and the world keep their statistic,
    /// their child hashes and their hash, and every other record is as it
    /// was.
    pub proof fn lemma_overwrite_twice(self, first: Observation, second: Observation)
        requires
            self.kind() == TrixelDataType::AggregateOverwrite || self.kind()
                == TrixelDataType::MeanOverwrite,
            self.shaped(first.args.id),
            second.args.id == first.args.id,
            second.args.value == first.args.value,
            self.update(first) is Some,
            self.update(first)->Some_0.update(second) is Some,
        ensures
            ({
                let once = self.update(first)->Some_0;
                let twice = once.update(second)->Some_0;
                &&& twice.world.same_content(once.world)
                &&& forall|x: u64|
                    is_under(first.args.id, x) ==> (#[trigger] twice.trixels[x]).same_content(
                        once.trixels[x],
                    )
                &&& forall|x: u64|
                    !is_under(first.args.id, x) ==> #[trigger] twice.trixels[x] == self.trixels[x]
            }),
    {
        let id = first.args.id;
        let ids = spec_ancestors(id);
        let once = self.update(first)->Some_0;
        let twice = once.update(second)->Some_0;
        let up = self.climb(first);
        let again = once.climb(second);
        self.lemma_update_writes(first);
        self.lemma_outcome(first);
        self.lemma_update_effect(first);
        once.lemma_update_writes(second);
        once.lemma_outcome(second);
        up.lemma_walk_steps(ids.len());
        again.lemma_walk_steps(ids.len());
        lemma_leading_digit_range(id as nat);
        let leaf_once = once.trixels[id];
        let leaf_twice = twice.trixels[id];
        assert(leaf_twice.data == leaf_once.data);
        assert(leaf_twice.child_hashes == leaf_once.child_hashes);
        assert(leaf_twice.hash == leaf_once.hash);
        assert forall|i: int| 0 <= i < ids.len() implies (#[trigger] again.accounts[i]).trixel
            == up.taken(i) && (#[trigger] up.accounts[i]).trixel.child_hashes.len() == 4 by {
            assert(once.trixels[ids[i]] == up.taken(i));
            assert(ids.contains(ids[i]));
            assert(is_under(id, ids[i]));
        }
        again.lemma_walk_again(up, ids.len());
        let walked = up.walk(ids.len())->Ok_0;
        let rewalked = again.walk(ids.len())->Ok_0;
        Self::lemma_world_step(self.world, up.delta, up.activated, walked.slot, walked.carry);
        Self::lemma_world_step(
            once.world,
            again.delta,
            again.activated,
            rewalked.slot,
            rewalked.carry,
        );
        assert(twice.world.child_hashes =~= once.world.child_hashes);
        assert forall|x: u64| is_under(id, x) implies (#[trigger] twice.trixels[x]).same_content(
            once.trixels[x],
        ) by {
            if x != id {
                let k = choose|k: int| 0 <= k < ids.len() && ids[k] == x;
                assert(twice.trixels[ids[k]] == again.taken(k));
                assert(once.trixels[ids[k]] == up.taken(k));
            }
        }
    }
}

impl Tree {
    /// The world's root hash is that of the hashes it holds, and the hash
    /// of every record is that of what the record holds.
    pub open spec fn authenticated(self) -> bool {
        &&& self.world.root_is_current()
        &&& forall|x: u64|
            self.trixels.dom().contains(x) ==> (#[trigger] self.trixels[x]).hash_is_current()
    }

    /// In a tree whose hashes are all current, they are all current after
    /// any run of accepted updates.
    pub proof fn lemma_stays_authenticated(self, history: Seq<Observation>)
        requires
            self.authenticated(),
            self.replay(history) is Some,
        ensures
            self.replay(history)->Some_0.authenticated(),
        decreases history.len(),
    {
        if history.len() > 0 {
            let earlier = history.drop_last();
            self.lemma_stays_authenticated(earlier);
            let before = self.replay(earlier)->Some_0;
            let after = self.replay(history)->Some_0;
            before.lemma_update_effect(history.last());
            assert forall|x: u64| after.trixels.dom().contains(x) implies (
            #[trigger] after.trixels[x]).hash_is_current() by {
                if !is_under(history.last().args.id, x) {
                    assert(after.trixels[x] == before.trixels[x]);
                }
            }
        }
    }
}

impl Tree {
    /// An accepted update moves the total of the leaf, of each of its
    /// ancestors and of the world by the same amount: by one in a world
    /// that counts, by the value where it accumulates, and by the
    /// difference to what the leaf held where it overwrites.
    pub proof fn lemma_totals_move_together(self, observation: Observation)
        requires
            self.update(observation) is Some,
        ensures
            ({
                let after = self.update(observation)->Some_0;
                let id = observation.args.id;
                let moved = after.trixels[id].data.total() - self.trixels[id].data.total();
                &&& after.world.data.total() == self.world.data.total() + moved
                &&& forall|x: u64|
                    is_under(id, x) ==> (#[trigger] after.trixels[x]).data.total()
                        == self.trixels[x].data.total() + moved
                &&& moved == if self.kind() == TrixelDataType::Count {
                    1
                } else if self.kind() == TrixelDataType::AggregateOverwrite || self.kind()
                    == TrixelDataType::MeanOverwrite {
                    observation.args.value - self.trixels[id].data.total()
                } else {
                    observation.args.value as int
                }
            }),
    {
        let after = self.update(observation)->Some_0;
        let id = observation.args.id;
        self.lemma_update_effect(observation);
        let change = self.change(observation)->Ok_0;
        lemma_leaf_update(self.trixels[id].data, self.kind(), observation.args.value);
        lemma_inner_update(self.world.data, self.kind(), change.delta, change.activated);
        assert forall|x: u64| is_under(id, x) implies (#[trigger] after.trixels[x]).data.total()
            == self.trixels[x].data.total() + change.delta by {
            if x != id {
                let k = choose|k: int|
                    0 <= k < spec_ancestors(id).len() && spec_ancestors(id)[k] == x;
                assert(self.trixels[x].data.spec_update_inner(
                    self.kind(),
                    change.delta,
                    change.activated,
                ) == Ok::<TrixelData, ErrorCode>(after.trixels[spec_ancestors(id)[k]].data));
                lemma_inner_update(self.trixels[x].data, self.kind(), change.delta, change.activated);
            }
        }
    }
}

/// The trixel just below the ancestor at place `i` of the leaf `id`: the
/// leaf itself below its parent, else the ancestor before.
pub open spec fn below(id: u64, i: int) -> u64 {
    if i == 0 {
        id
    } else {
        spec_ancestors(id)[i - 1]
    }
}

impl Tree {
    /// The child hashes of the record above the trixel `x`: those of its
    /// parent, or those of the world above a base trixel.
    pub open spec fn hashes_above(self, x: u64) -> Seq<Seq<u8>> {
        if spec_ancestors(x).len() == 0 {
            self.world.child_hashes
        } else {
            self.trixels[spec_ancestors(x)[0]].child_hashes
        }
    }

    /// The record of the trixel `x` hangs in the tree: it is kept under
    /// the well-formed identifier it names, its parent is in the store, and
    /// its parent, or the world above a base trixel, holds its hash in the
    /// slot of its leftmost digit.
    pub open spec fn hangs(self, x: u64) -> bool {
        &&& valid_trixel_id(x as nat)
        &&& self.trixels[x].id == x
        &&& self.trixels[x].child_hashes.len() == 4
        &&& spec_ancestors(x).len() > 0 ==> self.trixels.dom().contains(spec_ancestors(x)[0])
        &&& self.hashes_above(x)[leading_digit(x as nat) - 1] == self.trixels[x].hash
    }

    /// The records hang together as a tree: the world has a place for each
    /// base trixel, and every record of the store hangs in the tree.
    pub open spec fn linked(self) -> bool {
        &&& self.world.child_hashes.len() == 8
        &&& forall|x: u64| #[trigger] self.trixels.dom().contains(x) ==> self.hangs(x)
    }

    /// What an accepted update writes into the child hashes on the way up,
    /// where each record on the way names the trixel it is kept under: into
    /// each ancestor, and at last into the world, the new hash of the
    /// record just below, at the slot of that record's leftmost digit.
    proof fn lemma_update_hashes(self, observation: Observation)
        requires
            self.update(observation) is Some,
            forall|x: u64|
                is_under(observation.args.id, x) ==> (#[trigger] self.trixels[x]).id == x,
        ensures
            ({
                let after = self.update(observation)->Some_0;
                let id = observation.args.id;
                let ids = spec_ancestors(id);
                let n = ids.len() as int;
                &&& after.trixels[id].child_hashes == self.trixels[id].child_hashes
                &&& forall|i: int|
                    0 <= i < n ==> {
                        &&& (#[trigger] after.trixels[ids[i]]).child_hashes
                            == self.trixels[ids[i]].child_hashes.update(
                            leading_digit(below(id, i) as nat) - 1,
                            after.trixels[below(id, i)].hash,
                        )
                        &&& 0 <= leading_digit(below(id, i) as nat) - 1 < 4
                    }
                &&& after.world.child_hashes == self.world.child_hashes.update(
                    leading_digit(below(id, n) as nat) - 1,
                    after.trixels[below(id, n)].hash,
                )
                &&& 0 <= leading_digit(below(id, n) as nat) - 1 < 8
            }),
    {
        let after = self.update(observation)->Some_0;
        let id = observation.args.id;
        let ids = spec_ancestors(id);
        let n = ids.len() as int;
        let outcome = self.outcome(observation)->Ok_0;
        let climb = self.climb(observation);
        self.lemma_update_writes(observation);
        self.lemma_outcome(observation);
        climb.lemma_walk_steps(ids.len());
        lemma_ancestor_chain(id);
        lemma_leading_digit_range(id as nat);
        assert forall|i: int| 0 <= i <= n implies {
            &&& (#[trigger] climb.walk(i as nat)) is Ok
            &&& climb.walk(i as nat)->Ok_0.slot == leading_digit(below(id, i) as nat) - 1
            &&& climb.walk(i as nat)->Ok_0.carry == after.trixels[below(id, i)].hash
            &&& 0 <= climb.walk(i as nat)->Ok_0.slot
        } by {
            if i > 0 {
                let j = i - 1;
                assert(after.trixels[ids[j]] == outcome.ancestors[j]);
                assert(outcome.ancestors[j] == climb.taken(j));
                assert(ids.contains(ids[j]));
                assert(is_under(id, ids[j]));
                let before = climb.walk(j as nat)->Ok_0;
                lemma_ancestor_step(
                    climb.accounts[j],
                    ids[j],
                    climb.world_key,
                    climb.program_id,
                    climb.world_type,
                    climb.delta,
                    climb.activated,
                    before.slot,
                    before.carry,
                    climb.now,
                );
                assert(climb.taken(j).id == ids[j]);
                lemma_leading_digit_range(ids[j] as nat);
            }
        }
        assert forall|i: int| 0 <= i < n implies {
            &&& (#[trigger] after.trixels[ids[i]]).child_hashes
                == self.trixels[ids[i]].child_hashes.update(
                leading_digit(below(id, i) as nat) - 1,
                after.trixels[below(id, i)].hash,
            )
            &&& 0 <= leading_digit(below(id, i) as nat) - 1 < 4
        } by {
            let before = climb.walk(i as nat)->Ok_0;
            assert(climb.walk(i as nat) is Ok);
            assert(after.trixels[ids[i]] == outcome.ancestors[i]);
            assert(outcome.ancestors[i] == climb.taken(i));
            lemma_ancestor_step(
                climb.accounts[i],
                ids[i],
                climb.world_key,
                climb.program_id,
                climb.world_type,
                climb.delta,
                climb.activated,
                before.slot,
                before.carry,
                climb.now,
            );
        }
        let walked = climb.walk(n as nat)->Ok_0;
        assert(climb.walk(n as nat) is Ok);
        Self::lemma_world_step(self.world, climb.delta, climb.activated, walked.slot, walked.carry);
    }

    /// What an accepted update leaves alone, where each record on the way
    /// names the trixel it is kept under.
    proof fn lemma_update_frame(self, observation: Observation)
        requires
            self.update(observation) is Some,
        ensures
            ({
                let after = self.update(observation)->Some_0;
                let id = observation.args.id;
                &&& valid_trixel_id(id as nat)
                &&& after.trixels.dom() == self.trixels.dom()
                &&& forall|x: u64| !is_under(id, x) ==> #[trigger] after.trixels[x] == self.trixels[x]
                &&& forall|x: u64|
                    is_under(id, x) ==> (#[trigger] after.trixels[x]).id == self.trixels[x].id
                        && self.trixels.dom().contains(x)
            }),
    {
        self.lemma_update_effect(observation);
    }

    /// After an accepted update in a tree that hangs together, the record
    /// at place `i` of the way up hangs in the tree.
    proof fn lemma_way_hangs(self, observation: Observation, i: int)
        requires
            self.linked(),
            self.update(observation) is Some,
            0 <= i <= spec_ancestors(observation.args.id).len(),
        ensures
            self.update(observation)->Some_0.hangs(below(observation.args.id, i)),
            is_under(observation.args.id, below(observation.args.id, i)),
    {
        let after = self.update(observation)->Some_0;
        let id = observation.args.id;
        let ids = spec_ancestors(id);
        let n = ids.len() as int;
        let x = below(id, i);
        self.lemma_update_frame(observation);
        lemma_ancestor_chain(id);
        if i > 0 {
            assert(ids.contains(ids[i - 1]));
        }
        assert(is_under(id, x));
        assert forall|y: u64| is_under(id, y) implies (#[trigger] self.trixels[y]).id == y by {
            assert(self.trixels.dom().contains(y));
        }
        self.lemma_update_hashes(observation);
        assert(self.trixels.dom().contains(x));
        assert(self.hangs(x));
        if i < n {
            assert(ids.contains(ids[i]));
            assert(is_under(id, ids[i]));
            if i > 0 {
                lemma_ancestor_of_ancestor(id, i - 1);
            }
            assert(spec_ancestors(x).len() > 0 && spec_ancestors(x)[0] == ids[i]);
            assert(self.trixels.dom().contains(ids[i]));
            assert(self.hangs(ids[i]));
        } else {
            assert(spec_ancestors(x).len() == 0);
        }
        if i > 0 {
            assert(after.trixels[ids[i - 1]].child_hashes.len() == 4);
        }
    }

    /// After an accepted update in a tree that hangs together, a record
    /// that is not on the way up hangs in the tree as before.
    proof fn lemma_rest_hangs(self, observation: Observation, x: u64)
        requires
            self.linked(),
            self.update(observation) is Some,
            self.trixels.dom().contains(x),
            !is_under(observation.args.id, x),
        ensures
            self.update(observation)->Some_0.hangs(x),
    {
        let after = self.update(observation)->Some_0;
        let id = observation.args.id;
        let ids = spec_ancestors(id);
        let n = ids.len() as int;
        self.lemma_update_frame(observation);
        lemma_ancestor_chain(id);
        assert forall|y: u64| is_under(id, y) implies (#[trigger] self.trixels[y]).id == y by {
            assert(self.trixels.dom().contains(y));
        }
        self.lemma_update_hashes(observation);
        assert(self.hangs(x));
        lemma_valid_top(x);
        if spec_ancestors(x).len() == 0 {
            let top = below(id, n);
            self.lemma_way_hangs(observation, n);
            lemma_valid_top(top);
            if n > 0 {
                assert(spec_resolution(ids[n - 1] as nat) == 0);
            }
            assert(spec_ancestors(top).len() == 0);
            if leading_digit(top as nat) == leading_digit(x as nat) {
                lemma_child_by_slot(top, x);
            }
        } else {
            let parent = spec_ancestors(x)[0];
            if ids.contains(parent) {
                let k = choose|k: int| 0 <= k < ids.len() && ids[k] == parent;
                let other = below(id, k);
                self.lemma_way_hangs(observation, k);
                lemma_valid_top(other);
                if k > 0 {
                    lemma_ancestor_of_ancestor(id, k - 1);
                }
                assert(spec_ancestors(other).len() > 0 && spec_ancestors(other)[0] == parent);
                if leading_digit(other as nat) == leading_digit(x as nat) {
                    lemma_child_by_slot(other, x);
                }
            } else if parent == id {
            } else {
                assert(!is_under(id, parent));
            }
        }
    }

    /// An accepted update leaves the records hanging together as a tree.
    pub proof fn lemma_update_keeps_links(self, observation: Observation)
        requires
            self.linked(),
            self.update(observation) is Some,
        ensures
            self.update(observation)->Some_0.linked(),
    {
        let after = self.update(observation)->Some_0;
        let id = observation.args.id;
        let ids = spec_ancestors(id);
        self.lemma_update_frame(observation);
        self.lemma_way_hangs(observation, ids.len() as int);
        assert(after.world.child_hashes.len() == 8) by {
            assert forall|y: u64| is_under(id, y) implies (#[trigger] self.trixels[y]).id == y by {
                assert(self.trixels.dom().contains(y));
            }
            self.lemma_update_hashes(observation);
        }
        assert forall|x: u64| after.trixels.dom().contains(x) implies after.hangs(x) by {
            if x == id {
                self.lemma_way_hangs(observation, 0);
            } else if ids.contains(x) {
                let k = choose|k: int| 0 <= k < ids.len() && ids[k] == x;
                self.lemma_way_hangs(observation, k + 1);
            } else {
                self.lemma_rest_hangs(observation, x);
            }
        }
    }
}

/// A well-formed identifier starts with a digit up to 8, and with one up
/// to 4 where it has a parent.
proof fn lemma_valid_top(x: u64)
    requires
        valid_trixel_id(x as nat),
    ensures
        1 <= leading_digit(x as nat) <= 8,
        spec_ancestors(x).len() > 0 ==> leading_digit(x as nat) <= 4,
        spec_ancestors(x).len() == 0 ==> x == leading_digit(x as nat),
{
    lemma_ancestor_chain(x);
    lemma_valid_shape(x as nat);
}

} // verus!
