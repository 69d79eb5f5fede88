//! A body that lies just beyond the lower border of its region is not sent
//! back and forth: its simulator keeps it through `MIN_SENDBACK_DELAY`
//! elections before it lets it go to a smaller region.

use crate::api_types::simulation::{region_lt, SimulationBounds};
use crate::runner::connected_components::ConnectedComponent;
use crate::runner::ownership::lemma_position_of;
use crate::runner::physics::RigidBodyHandle;
use crate::runner::region_assignment::{lemma_region_order, Election, MIN_SENDBACK_DELAY};
use vstd::prelude::*;

verus! {

/// Whether the body at `p` stands in one of `components`.
pub open spec fn stands_in(e: Election, components: Seq<ConnectedComponent>, p: int) -> bool {
    &&& 0 <= p < e.records.len()
    &&& exists|c: int, k: int|
        0 <= c < components.len() && 0 <= k < components[c].bodies@.len()
            && #[trigger] components[c].bodies@[k] == e.records[p].handle
}

/// Whether `run` is what one body goes through at its simulator, election
/// after election: at each election the body stands in one of the components,
/// at the place that `places` gives, and what is remembered of it when the
/// next election is held is what was remembered after this one.
pub open spec fn is_run(
    run: Seq<Election>,
    components: Seq<Seq<ConnectedComponent>>,
    places: Seq<int>,
) -> bool {
    &&& components.len() == run.len()
    &&& places.len() == run.len()
    &&& forall|k: int| 0 <= k < run.len() ==> stands_in(#[trigger] run[k], components[k], places[k])
    &&& forall|k: int|
        0 < k < run.len() ==> (#[trigger] run[k]).records[places[k]] == run[k - 1].record_after(
            components[k - 1],
            places[k - 1],
        )
}

/// Whether the body points to a smaller region at each election of `run`.
pub open spec fn points_back(run: Seq<Election>, places: Seq<int>) -> bool {
    forall|k: int|
        0 <= k < run.len() ==> region_lt((#[trigger] run[k]).raw_candidate(places[k]), run[k].own)
}

/// A body that has never been kept and that points to a smaller region at
/// each election is held back at the first `MIN_SENDBACK_DELAY` elections,
/// where it votes for the region of its simulator, and at no later one: the
/// first election at which it votes for the smaller region is the one after
/// these. The body is counted once for each election that holds it back.
pub proof fn lemma_held_back_through_delay(
    run: Seq<Election>,
    components: Seq<Seq<ConnectedComponent>>,
    places: Seq<int>,
    k: int,
)
    requires
        is_run(run, components, places),
        points_back(run, places),
        0 <= k < run.len(),
        run[0].records[places[0]].sendback_delay == 0,
    ensures
        k < MIN_SENDBACK_DELAY ==> run[k].records[places[k]].sendback_delay == k,
        k >= MIN_SENDBACK_DELAY ==> run[k].records[places[k]].sendback_delay == MIN_SENDBACK_DELAY,
        run[k].held_back(places[k]) == (k < MIN_SENDBACK_DELAY),
        k < MIN_SENDBACK_DELAY ==> run[k].candidate(places[k]) == run[k].own,
        k >= MIN_SENDBACK_DELAY ==> region_lt(run[k].candidate(places[k]), run[k].own),
    decreases k,
{
    assert(region_lt(run[k].raw_candidate(places[k]), run[k].own));
    if k > 0 {
        lemma_held_back_through_delay(run, components, places, k - 1);
        assert(stands_in(run[k - 1], components[k - 1], places[k - 1]));
        assert(run[k].records[places[k]] == run[k - 1].record_after(
            components[k - 1],
            places[k - 1],
        ));
        assert(run[k - 1].delayed(components[k - 1], components[k - 1].len(), places[k - 1])
            == run[k - 1].held_back(places[k - 1]));
    }
}

/// While the body is held back, no component that it stands in is elected
/// to a smaller region: the body leaves for none.
pub proof fn lemma_not_sent_back_early(
    run: Seq<Election>,
    components: Seq<Seq<ConnectedComponent>>,
    places: Seq<int>,
    k: int,
    bodies: Seq<RigidBodyHandle>,
    at: int,
)
    requires
        is_run(run, components, places),
        points_back(run, places),
        0 <= k < run.len(),
        k < MIN_SENDBACK_DELAY,
        run[0].records[places[0]].sendback_delay == 0,
        forall|a: int, b: int|
            0 <= a < b < run[k].records.len() ==> run[k].records[a].handle
                != run[k].records[b].handle,
        0 <= at < bodies.len(),
        bodies[at] == run[k].records[places[k]].handle,
    ensures
        !region_lt(run[k].elected(bodies), run[k].own),
{
    lemma_held_back_through_delay(run, components, places, k);
    assert(stands_in(run[k], components[k], places[k]));
    lemma_position_of(run[k].records, places[k]);
    if region_lt(run[k].elected(bodies), run[k].own) {
        run[k].lemma_sent_back_only_after_delay(bodies, at);
    }
}

/// Once the body has been held back `MIN_SENDBACK_DELAY` times, a component
/// that holds nothing else is elected to a smaller region and leaves.
pub proof fn lemma_sent_back_after_delay(
    run: Seq<Election>,
    components: Seq<Seq<ConnectedComponent>>,
    places: Seq<int>,
    k: int,
)
    requires
        is_run(run, components, places),
        points_back(run, places),
        MIN_SENDBACK_DELAY <= k < run.len(),
        run[0].records[places[0]].sendback_delay == 0,
        forall|a: int, b: int|
            0 <= a < b < run[k].records.len() ==> run[k].records[a].handle
                != run[k].records[b].handle,
    ensures
        region_lt(run[k].elected(seq![run[k].records[places[k]].handle]), run[k].own),
        run[k].migrates(seq![run[k].records[places[k]].handle]),
{
    let e = run[k];
    let bodies = seq![e.records[places[k]].handle];
    lemma_held_back_through_delay(run, components, places, k);
    assert(stands_in(e, components[k], places[k]));
    lemma_position_of(e.records, places[k]);
    let vote = e.candidate(places[k]);
    assert(bodies[0] == e.records[places[k]].handle);
    assert(e.best(bodies, 0) == SimulationBounds::smallest_spec());
    assert(e.best(bodies, 1) == if region_lt(SimulationBounds::smallest_spec(), vote) {
        vote
    } else {
        SimulationBounds::smallest_spec()
    });
    lemma_region_order(SimulationBounds::smallest_spec(), vote, e.own);
    assert(!region_lt(vote, SimulationBounds::smallest_spec()));
}

} // verus!
