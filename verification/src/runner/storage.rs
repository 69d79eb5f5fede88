//! What a worker answers to those who ask for its watch sets and snapshots.

use crate::api_types::objects::{ClientBodyObject, ClientBodyObjectSet, ClientBodyObjectView};
use crate::api_types::simulation::{parse_region, SimulationBounds};
use crate::text::{
    chars_of, decimal, decimal_digits, field, find_sep, free_of, is_digit, joined,
    lemma_decimal_digits, lemma_decimal_free, lemma_fields_of_joined, lemma_joined_free,
    lemma_parse_decimal_u64, lemma_single_field, parse_u64, read_u64, rest_after,
};
use vstd::prelude::*;

verus! {

/// Whether a viewer that has seen the step `step_id` still needs `object`:
/// the body is awake, or fell asleep no earlier than that step.
pub open spec fn is_fresh(object: ClientBodyObjectView, step_id: u64) -> bool {
    match object.sleep_start_frame {
        Some(sleep_frame) => sleep_frame >= step_id,
        None => true,
    }
}

/// Those of the first `n` objects that are fresh, in order.
pub open spec fn fresh_objects(objects: Seq<ClientBodyObjectView>, step_id: u64, n: nat) -> Seq<
    ClientBodyObjectView,
>
    decreases n,
{
    if n == 0 {
        Seq::empty()
    } else if is_fresh(objects[n - 1], step_id) {
        fresh_objects(objects, step_id, (n - 1) as nat).push(objects[n - 1])
    } else {
        fresh_objects(objects, step_id, (n - 1) as nat)
    }
}

/// Only fresh objects are among the fresh objects.
pub proof fn lemma_fresh_objects(objects: Seq<ClientBodyObjectView>, step_id: u64, n: nat)
    requires
        n <= objects.len(),
    ensures
        forall|t: int|
            0 <= t < fresh_objects(objects, step_id, n).len() ==> is_fresh(
                #[trigger] fresh_objects(objects, step_id, n)[t],
                step_id,
            ),
        forall|i: int|
            0 <= i < n && is_fresh(#[trigger] objects[i], step_id) ==> fresh_objects(
                objects,
                step_id,
                n,
            ).contains(objects[i]),
    decreases n,
{
    if n > 0 {
        lemma_fresh_objects(objects, step_id, (n - 1) as nat);
        let before = fresh_objects(objects, step_id, (n - 1) as nat);
        let now = fresh_objects(objects, step_id, n);
        assert forall|i: int|
            0 <= i < n && is_fresh(#[trigger] objects[i], step_id) implies now.contains(
            objects[i],
        ) by {
            if i < n - 1 {
                assert(before.contains(objects[i]));
                let t = choose|t: int| 0 <= t < before.len() && before[t] == objects[i];
                assert(now[t] == objects[i]);
            } else {
                assert(now[now.len() - 1] == objects[i]);
            }
        }
    }
}

/// Each of the fresh objects is one of the objects, and is fresh.
pub proof fn lemma_fresh_is_listed(
    objects: Seq<ClientBodyObjectView>,
    step_id: u64,
    n: nat,
    t: int,
)
    requires
        n <= objects.len(),
        0 <= t < fresh_objects(objects, step_id, n).len(),
    ensures
        exists|j: int|
            0 <= j < n && #[trigger] objects[j] == fresh_objects(objects, step_id, n)[t]
                && is_fresh(objects[j], step_id),
    decreases n,
{
    let before = fresh_objects(objects, step_id, (n - 1) as nat);
    if is_fresh(objects[n - 1], step_id) && t == before.len() {
        assert(objects[n - 1] == fresh_objects(objects, step_id, n)[t]);
    } else {
        lemma_fresh_is_listed(objects, step_id, (n - 1) as nat, t);
        let j = choose|j: int|
            0 <= j < n - 1 && #[trigger] objects[j] == before[t] && is_fresh(objects[j], step_id);
        assert(objects[j] == fresh_objects(objects, step_id, n)[t]);
    }
}

/// A viewer is not told again of a body that has been asleep since before
/// the step that it has seen: where no two objects are the same body,
/// nothing is left of such a body among the fresh objects.
pub proof fn lemma_stale_object_left_out(
    objects: Seq<ClientBodyObjectView>,
    step_id: u64,
    i: int,
)
    requires
        0 <= i < objects.len(),
        !is_fresh(objects[i], step_id),
        forall|a: int, b: int| 0 <= a < b < objects.len() ==> objects[a].uuid != objects[b].uuid,
    ensures
        forall|t: int|
            0 <= t < fresh_objects(objects, step_id, objects.len()).len() ==> (
            #[trigger] fresh_objects(objects, step_id, objects.len())[t]).uuid != objects[i].uuid,
{
    let fresh = fresh_objects(objects, step_id, objects.len());
    assert forall|t: int| 0 <= t < fresh.len() implies (#[trigger] fresh[t]).uuid
        != objects[i].uuid by {
        lemma_fresh_is_listed(objects, step_id, objects.len(), t);
        let j = choose|j: int|
            0 <= j < objects.len() && #[trigger] objects[j] == fresh[t] && is_fresh(
                objects[j],
                step_id,
            );
        if j < i {
            assert(objects[j].uuid != objects[i].uuid);
        } else if i < j {
            assert(objects[i].uuid != objects[j].uuid);
        }
    }
}

/// The snapshot for a viewer that has seen the step `step_id`: the bodies
/// that have been asleep since before that step are left out, for the viewer
/// knows where they lie.
pub fn filter_object_set(step_id: u64, object_set: &ClientBodyObjectSet) -> (result: ClientBodyObjectSet)
    ensures
        result.timestamp == object_set.timestamp,
        result.objects_view() == fresh_objects(
            object_set.objects_view(),
            step_id,
            object_set.objects@.len(),
        ),
        forall|t: int|
            0 <= t < result.objects@.len() ==> match (#[trigger] result.objects@[t]).sleep_start_frame {
                Some(sleep_frame) => sleep_frame >= step_id,
                None => true,
            },
{
    let mut objects: Vec<ClientBodyObject> = Vec::new();
    let ghost all = object_set.objects_view();
    let mut i: usize = 0;
    while i < object_set.objects.len()
        invariant
            i <= object_set.objects@.len(),
            all == object_set.objects_view(),
            objects@.map_values(|o: ClientBodyObject| o@) == fresh_objects(all, step_id, i as nat),
            forall|t: int| 0 <= t < objects@.len() ==> is_fresh((#[trigger] objects@[t])@, step_id),
        decreases object_set.objects@.len() - i,
    {
        let object = &object_set.objects[i];
        assert(all[i as int] == object@);
        let keep = match object.sleep_start_frame {
            Some(sleep_frame) => sleep_frame >= step_id,
            None => true,
        };
        if keep {
            let ghost shown = objects@.map_values(|o: ClientBodyObject| o@);
            objects.push(object.clone());
            assert(objects@.map_values(|o: ClientBodyObject| o@) =~= shown.push(object@));
        }
        i += 1;
    }
    let result = ClientBodyObjectSet { timestamp: object_set.timestamp, objects };
    assert forall|t: int| 0 <= t < result.objects@.len() implies match (
    #[trigger] result.objects@[t]).sleep_start_frame {
        Some(sleep_frame) => sleep_frame >= step_id,
        None => true,
    } by {
        assert(is_fresh(result.objects@[t]@, step_id));
    }
    result
}

/// What the parameters of a request for a snapshot ask for: the region, and
/// the step that the viewer has seen, joined by `&`.
pub open spec fn client_objects_query(params: Seq<char>) -> Option<(SimulationBounds, u64)> {
    match (field(params, '&', 0), field(params, '&', 1)) {
        (Some(region), Some(step)) => match (parse_region(region), parse_u64(step)) {
            (Some(bounds), Some(step_id)) => Some((bounds, step_id)),
            _ => None,
        },
        _ => None,
    }
}

/// The region that the parameters of a request for a watch set name.
pub fn parse_watch_query(params: &str) -> (r: Option<SimulationBounds>)
    ensures
        r == parse_region(params@),
{
    SimulationBounds::from_str(params)
}

/// The region and the step that the parameters of a request for a snapshot name.
pub fn parse_client_objects_query(params: &str) -> (r: Option<(SimulationBounds, u64)>)
    ensures
        r == client_objects_query(params@),
{
    let chars = chars_of(params);
    let ghost s = params@;
    assert(chars@.skip(0) =~= s);
    assert(rest_after(s, '&', 0) == Some(s));
    let end = find_sep(&chars, 0, '&');
    if end >= chars.len() {
        assert(field(s, '&', 1).is_none());
        return None;
    }
    let start = end + 1;
    assert(chars@.skip(start as int) =~= s.skip(end + 1));
    assert(rest_after(s, '&', 1) == Some(chars@.skip(start as int)));
    let stop = find_sep(&chars, start, '&');
    let region_text = params.substring_char(0, end);
    assert(region_text@ =~= s.take(end as int));
    let region = SimulationBounds::from_str(region_text);
    let step = read_u64(&chars, start, stop);
    match (region, step) {
        (Some(bounds), Some(step_id)) => Some((bounds, step_id)),
        _ => None,
    }
}

/// The name of a region holds no `&`.
pub proof fn lemma_region_text_free(bounds: SimulationBounds)
    ensures
        free_of(bounds.text(), '&'),
{
    let t6 = decimal(bounds.maxs[2] as int);
    let t5 = joined(decimal(bounds.maxs[1] as int), '_', t6);
    let t4 = joined(decimal(bounds.maxs[0] as int), '_', t5);
    let t3 = joined(Seq::empty(), '_', t4);
    let t2 = joined(decimal(bounds.mins[2] as int), '_', t3);
    let t1 = joined(decimal(bounds.mins[1] as int), '_', t2);
    lemma_decimal_free(bounds.mins[0] as int);
    lemma_decimal_free(bounds.mins[1] as int);
    lemma_decimal_free(bounds.mins[2] as int);
    lemma_decimal_free(bounds.maxs[0] as int);
    lemma_decimal_free(bounds.maxs[1] as int);
    lemma_decimal_free(bounds.maxs[2] as int);
    lemma_joined_free(decimal(bounds.maxs[1] as int), '_', t6, '&');
    lemma_joined_free(decimal(bounds.maxs[0] as int), '_', t5, '&');
    lemma_joined_free(Seq::empty(), '_', t4, '&');
    lemma_joined_free(decimal(bounds.mins[2] as int), '_', t3, '&');
    lemma_joined_free(decimal(bounds.mins[1] as int), '_', t2, '&');
    lemma_joined_free(decimal(bounds.mins[0] as int), '_', t1, '&');
}

/// The parameters that a viewer writes for a region and a step are read as
/// that region and that step.
pub proof fn lemma_client_objects_query_round_trip(bounds: SimulationBounds, step_id: u64)
    ensures
        client_objects_query(joined(bounds.text(), '&', decimal_digits(step_id as nat))) == Some(
            (bounds, step_id),
        ),
{
    let digits = decimal_digits(step_id as nat);
    let params = joined(bounds.text(), '&', digits);
    lemma_region_text_free(bounds);
    lemma_fields_of_joined(bounds.text(), '&', digits, 0);
    lemma_decimal_digits(step_id as nat);
    assert forall|i: int| 0 <= i < digits.len() implies #[trigger] digits[i] != '&' by {
        assert(is_digit(digits[i]));
    }
    lemma_single_field(digits, '&');
    bounds.lemma_text_round_trip();
    lemma_parse_decimal_u64(step_id);
}

} // verus!
