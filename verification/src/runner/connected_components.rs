//! Connected components: the bodies that contacts and joints hold together.
//! Bodies change owner by whole components.

use crate::api_types::objects::RigidBodyType;
use crate::geometry::Aabb;
use crate::runner::physics::{find_body, BodyState, ImpulseJointHandle, JointLink, RigidBodyHandle};
use vstd::prelude::*;

verus! {

/// Bodies that are joined or in contact, directly or through each other.
pub struct ConnectedComponent {
    pub bodies: Vec<RigidBodyHandle>,
    pub joints: Vec<(RigidBodyHandle, RigidBodyHandle, ImpulseJointHandle)>,
    /// The extent of all that the bodies sweep during the next step.
    pub swept_aabb: Aabb,
}

impl Default for ConnectedComponent {
    fn default() -> (r: Self)
        ensures
            r.bodies@.len() == 0,
            r.joints@.len() == 0,
            r.swept_aabb == Aabb::invalid(),
    {
        Self { bodies: Vec::new(), joints: Vec::new(), swept_aabb: Aabb::new_invalid() }
    }
}

/// Whether no body is reported twice.
pub open spec fn handles_distinct(reported: Seq<BodyState>) -> bool {
    forall|i: int, j: int|
        0 <= i < j < reported.len() ==> reported[i].handle != reported[j].handle
}

/// Whether the `i`-th reported body is one that forces move.
pub open spec fn dynamic_at(reported: Seq<BodyState>, i: int) -> bool {
    0 <= i < reported.len() && reported[i].body_type == RigidBodyType::Dynamic
}

/// Whether the report of the `a`-th body names the `b`-th: as a body that it
/// touches, or as the other end of one of its joints.
pub open spec fn touches(reported: Seq<BodyState>, a: int, b: int) -> bool {
    ||| exists|j: int|
        0 <= j < reported[a].contacts@.len() && #[trigger] reported[a].contacts@[j]
            == reported[b].handle
    ||| exists|j: int|
        0 <= j < reported[a].joints@.len() && (#[trigger] reported[a].joints@[j]).other_end(
            reported[a].handle,
        ) == reported[b].handle
}

/// Whether a contact or a joint leads from the dynamic body `a` to the dynamic body `b`.
pub open spec fn linked(reported: Seq<BodyState>, a: int, b: int) -> bool {
    dynamic_at(reported, a) && dynamic_at(reported, b) && touches(reported, a, b)
}

/// Whether `n` links lead from the dynamic body `a` to `b`, one after the other.
pub open spec fn reaches_in(reported: Seq<BodyState>, a: int, b: int, n: nat) -> bool
    decreases n,
{
    if n == 0 {
        a == b && dynamic_at(reported, a)
    } else {
        exists|m: int| reaches_in(reported, a, m, (n - 1) as nat) && linked(reported, m, b)
    }
}

/// Whether links lead from the dynamic body `a` to `b`.
pub open spec fn reaches(reported: Seq<BodyState>, a: int, b: int) -> bool {
    exists|n: nat| reaches_in(reported, a, b, n)
}

/// Where the body `handle` stands in the report.
pub open spec fn body_index(reported: Seq<BodyState>, handle: RigidBodyHandle) -> int {
    choose|i: int| 0 <= i < reported.len() && reported[i].handle == handle
}

/// Where the bodies of `component` stand in the report.
pub open spec fn members(reported: Seq<BodyState>, component: ConnectedComponent) -> Seq<int> {
    component.bodies@.map_values(|h: RigidBodyHandle| body_index(reported, h))
}

/// The extent of all that the bodies at the first `n` of `indices` sweep.
pub open spec fn swept_hull(reported: Seq<BodyState>, indices: Seq<int>, n: nat) -> Aabb
    decreases n,
{
    if n == 0 {
        Aabb::invalid()
    } else {
        swept_hull(reported, indices, (n - 1) as nat).merged_spec(
            &reported[indices[n - 1]].swept_aabb,
        )
    }
}

/// Whether the body at `i` stands in one of the first `n` of `groups`.
pub open spec fn grouped(groups: Seq<Seq<int>>, n: int, i: int) -> bool {
    exists|c: int, k: int| 0 <= c < n && 0 <= k < groups[c].len() && #[trigger] groups[c][k] == i
}

/// Whether `groups` are the connected components of the dynamic bodies of
/// the report, in the order in which the report lists their first bodies.
///
/// Every dynamic body stands in exactly one group and no other body in any.
/// Each group starts with the first dynamic body that no earlier group holds,
/// holds only bodies that links lead to from there, and holds every body
/// that a link leads to from one of its bodies, unless an earlier group does.
pub open spec fn are_components(reported: Seq<BodyState>, groups: Seq<Seq<int>>) -> bool {
    &&& forall|c: int, k: int|
        0 <= c < groups.len() && 0 <= k < groups[c].len() ==> dynamic_at(
            reported,
            #[trigger] groups[c][k],
        )
    &&& forall|i: int| dynamic_at(reported, i) ==> grouped(groups, groups.len() as int, i)
    &&& forall|c: int, k: int, d: int, l: int|
        0 <= c < groups.len() && 0 <= k < groups[c].len() && 0 <= d < groups.len() && 0 <= l
            < groups[d].len() && #[trigger] groups[c][k] == #[trigger] groups[d][l] ==> c == d && k
            == l
    &&& forall|c: int| 0 <= c < groups.len() ==> (#[trigger] groups[c]).len() > 0
    &&& forall|c: int, k: int|
        0 <= c < groups.len() && 0 <= k < groups[c].len() ==> reaches(
            reported,
            groups[c][0],
            #[trigger] groups[c][k],
        )
    &&& forall|c: int, k: int, b: int|
        0 <= c < groups.len() && 0 <= k < groups[c].len() && linked(
            reported,
            #[trigger] groups[c][k],
            b,
        ) ==> #[trigger] grouped(groups, c + 1, b)
    &&& forall|c: int, i: int|
        0 <= c < groups.len() && 0 <= i < groups[c][0] && dynamic_at(reported, i)
            ==> #[trigger] grouped(groups, c, i)
}

/// A joint as a component lists it: its two bodies, then its name.
pub open spec fn link_entry(link: JointLink) -> (RigidBodyHandle, RigidBodyHandle, ImpulseJointHandle) {
    (link.body1, link.body2, link.joint)
}

/// Whether `entry` is a joint of one of the bodies of `group`.
pub open spec fn is_link_of(
    reported: Seq<BodyState>,
    group: Seq<int>,
    entry: (RigidBodyHandle, RigidBodyHandle, ImpulseJointHandle),
) -> bool {
    exists|k: int, l: int|
        0 <= k < group.len() && 0 <= l < reported[group[k]].joints@.len() && link_entry(
            #[trigger] reported[group[k]].joints@[l],
        ) == entry
}

/// Whether `joint` is listed among the joints of one of the first `n` components.
pub open spec fn joint_listed(
    components: Seq<ConnectedComponent>,
    n: int,
    joint: ImpulseJointHandle,
) -> bool {
    exists|c: int, j: int|
        0 <= c < n && 0 <= j < components[c].joints@.len() && (
        #[trigger] components[c].joints@[j]).2 == joint
}

/// Whether the joints of `components` are those of their bodies, each listed once:
/// a component lists a joint of one of its bodies unless an earlier component does.
pub open spec fn joints_listed(reported: Seq<BodyState>, components: Seq<ConnectedComponent>) -> bool {
    &&& forall|c: int, j: int|
        0 <= c < components.len() && 0 <= j < components[c].joints@.len() ==> is_link_of(
            reported,
            members(reported, components[c]),
            #[trigger] components[c].joints@[j],
        )
    &&& forall|c: int, k: int, l: int|
        0 <= c < components.len() && 0 <= k < components[c].bodies@.len() && 0 <= l
            < reported[members(reported, components[c])[k]].joints@.len() ==> joint_listed(
            components,
            c + 1,
            (#[trigger] reported[members(reported, components[c])[k]].joints@[l]).joint,
        )
    &&& forall|c: int, j: int, d: int, i: int|
        0 <= c < components.len() && 0 <= j < components[c].joints@.len() && 0 <= d
            < components.len() && 0 <= i < components[d].joints@.len() && (
        #[trigger] components[c].joints@[j]).2 == (#[trigger] components[d].joints@[i]).2 ==> c
            == d && j == i
}

/// How many of `s` are false.
pub open spec fn count_false(s: Seq<bool>) -> nat
    decreases s.len(),
{
    if s.len() == 0 {
        0
    } else if s.last() {
        count_false(s.drop_last())
    } else {
        count_false(s.drop_last()) + 1
    }
}

/// Setting one that was false leaves one less.
proof fn lemma_count_false_update(s: Seq<bool>, x: int)
    requires
        0 <= x < s.len(),
        !s[x],
    ensures
        count_false(s.update(x, true)) == count_false(s) - 1,
    decreases s.len(),
{
    let t = s.update(x, true);
    if x == s.len() - 1 {
        assert(t.drop_last() =~= s.drop_last());
    } else {
        assert(t.drop_last() =~= s.drop_last().update(x, true));
        lemma_count_false_update(s.drop_last(), x);
    }
}

/// Whether `b` waits on the stack.
pub open spec fn on_stack(stack: Seq<usize>, b: int) -> bool {
    exists|s: int| 0 <= s < stack.len() && #[trigger] stack[s] == b
}

/// Whether one of the bodies of `group` touches `b`.
pub open spec fn touched_by(reported: Seq<BodyState>, group: Seq<int>, b: int) -> bool {
    exists|k: int| 0 <= k < group.len() && touches(reported, #[trigger] group[k], b)
}

/// Whether every link from a visited body leads to a visited body.
pub open spec fn closed_under_links(reported: Seq<BodyState>, visited: Seq<bool>) -> bool {
    forall|a: int, b: int|
        0 <= a < reported.len() && 0 <= b < reported.len() && visited[a] && #[trigger] linked(
            reported,
            a,
            b,
        ) ==> visited[b]
}

/// Whether the bodies of `group` are different bodies.
pub open spec fn group_distinct(group: Seq<int>) -> bool {
    forall|k: int, l: int| 0 <= k < l < group.len() ==> group[k] != group[l]
}

/// One more link prolongs a chain of links.
proof fn lemma_reaches_step(reported: Seq<BodyState>, a: int, m: int, b: int)
    requires
        reaches(reported, a, m),
        linked(reported, m, b),
    ensures
        reaches(reported, a, b),
{
    let n = choose|n: nat| reaches_in(reported, a, m, n);
    assert(reaches_in(reported, a, b, n + 1));
}

/// Whether `joint` stands in `seen`.
fn contains_joint(seen: &Vec<ImpulseJointHandle>, joint: ImpulseJointHandle) -> (r: bool)
    ensures
        r == seen@.contains(joint),
{
    let mut i: usize = 0;
    while i < seen.len()
        invariant
            i <= seen@.len(),
            forall|j: int| 0 <= j < i ==> seen@[j] != joint,
        decreases seen@.len() - i,
    {
        if seen[i] == joint {
            return true;
        }
        i += 1;
    }
    false
}

/// Puts on the stack every body that the body at `x` touches.
fn push_contacts(reported: &Vec<BodyState>, x: usize, stack: &mut Vec<usize>)
    requires
        handles_distinct(reported@),
        x < reported@.len(),
    ensures
        final(stack)@.len() >= old(stack)@.len(),
        final(stack)@.take(old(stack)@.len() as int) == old(stack)@,
        forall|s: int|
            old(stack)@.len() <= s < final(stack)@.len() ==> (#[trigger] final(stack)@[s])
                < reported@.len() && touches(reported@, x as int, final(stack)@[s] as int),
        forall|b: int, j: int|
            0 <= b < reported@.len() && 0 <= j < reported@[x as int].contacts@.len()
                && #[trigger] reported@[x as int].contacts@[j] == (
            #[trigger] reported@[b]).handle ==> on_stack(final(stack)@, b),
{
    let body = &reported[x];
    let mut j: usize = 0;
    while j < body.contacts.len()
        invariant
            j <= body.contacts@.len(),
            handles_distinct(reported@),
            x < reported@.len(),
            *body == reported@[x as int],
            stack@.len() >= old(stack)@.len(),
            stack@.take(old(stack)@.len() as int) == old(stack)@,
            forall|s: int|
                old(stack)@.len() <= s < stack@.len() ==> (#[trigger] stack@[s]) < reported@.len()
                    && touches(reported@, x as int, stack@[s] as int),
            forall|b: int, i: int|
                0 <= b < reported@.len() && 0 <= i < j && #[trigger] body.contacts@[i] == (
                #[trigger] reported@[b]).handle ==> on_stack(stack@, b),
        decreases body.contacts@.len() - j,
    {
        let ghost before = stack@;
        match find_body(reported, body.contacts[j]) {
            Some(b) => {
                stack.push(b);
                proof {
                    assert(stack@.take(old(stack)@.len() as int) =~= before.take(
                        old(stack)@.len() as int,
                    ));
                    assert(reported@[x as int].contacts@[j as int] == reported@[b as int].handle);
                    assert forall|c: int, i: int|
                        0 <= c < reported@.len() && 0 <= i < j + 1 && #[trigger] body.contacts@[i]
                            == (#[trigger] reported@[c]).handle implies on_stack(stack@, c) by {
                        if i < j {
                            assert(on_stack(before, c));
                            let s = choose|s: int| 0 <= s < before.len() && #[trigger] before[s] == c;
                            assert(stack@[s] == c);
                        } else {
                            if c < b {
                                assert(reported@[c].handle != reported@[b as int].handle);
                            } else if b < c {
                                assert(reported@[b as int].handle != reported@[c].handle);
                            }
                            assert(stack@[before.len() as int] == c);
                        }
                    }
                }
            },
            None => {},
        }
        j += 1;
    }
}

/// Whether `joint` is the name of one of the entries of `joints` from `from` on.
pub open spec fn joint_among(
    joints: Seq<(RigidBodyHandle, RigidBodyHandle, ImpulseJointHandle)>,
    from: int,
    joint: ImpulseJointHandle,
) -> bool {
    exists|t: int| from <= t < joints.len() && (#[trigger] joints[t]).2 == joint
}

/// Whether `entry` is one of the joints of the body at `x`.
pub open spec fn is_joint_of(
    reported: Seq<BodyState>,
    x: int,
    entry: (RigidBodyHandle, RigidBodyHandle, ImpulseJointHandle),
) -> bool {
    exists|l: int|
        0 <= l < reported[x].joints@.len() && link_entry(#[trigger] reported[x].joints@[l]) == entry
}

/// Puts on the stack every body at the other end of a joint of the body at
/// `x`, and lists each of these joints that has not been seen before.
fn push_joints(
    reported: &Vec<BodyState>,
    x: usize,
    stack: &mut Vec<usize>,
    seen: &mut Vec<ImpulseJointHandle>,
    joints: &mut Vec<(RigidBodyHandle, RigidBodyHandle, ImpulseJointHandle)>,
)
    requires
        handles_distinct(reported@),
        x < reported@.len(),
    ensures
        final(stack)@.len() >= old(stack)@.len(),
        final(stack)@.take(old(stack)@.len() as int) == old(stack)@,
        forall|s: int|
            old(stack)@.len() <= s < final(stack)@.len() ==> (#[trigger] final(stack)@[s])
                < reported@.len() && touches(reported@, x as int, final(stack)@[s] as int),
        forall|b: int, l: int|
            0 <= b < reported@.len() && 0 <= l < reported@[x as int].joints@.len() && (
            #[trigger] reported@[x as int].joints@[l]).other_end(reported@[x as int].handle) == (
            #[trigger] reported@[b]).handle ==> on_stack(final(stack)@, b),
        final(joints)@.len() >= old(joints)@.len(),
        final(joints)@.take(old(joints)@.len() as int) == old(joints)@,
        forall|t: int|
            old(joints)@.len() <= t < final(joints)@.len() ==> is_joint_of(
                reported@,
                x as int,
                #[trigger] final(joints)@[t],
            ) && !old(seen)@.contains(final(joints)@[t].2),
        forall|t: int, u: int|
            old(joints)@.len() <= t < u < final(joints)@.len() ==> (#[trigger] final(joints)@[t]).2
                != (#[trigger] final(joints)@[u]).2,
        forall|h: ImpulseJointHandle| #[trigger]
            final(seen)@.contains(h) <==> old(seen)@.contains(h) || joint_among(
                final(joints)@,
                old(joints)@.len() as int,
                h,
            ),
        forall|l: int|
            0 <= l < reported@[x as int].joints@.len() ==> final(seen)@.contains(
                (#[trigger] reported@[x as int].joints@[l]).joint,
            ),
{
    let body = &reported[x];
    let ghost first = old(joints)@.len() as int;
    let mut l: usize = 0;
    while l < body.joints.len()
        invariant
            l <= body.joints@.len(),
            handles_distinct(reported@),
            x < reported@.len(),
            *body == reported@[x as int],
            first == old(joints)@.len(),
            stack@.len() >= old(stack)@.len(),
            stack@.take(old(stack)@.len() as int) == old(stack)@,
            forall|s: int|
                old(stack)@.len() <= s < stack@.len() ==> (#[trigger] stack@[s]) < reported@.len()
                    && touches(reported@, x as int, stack@[s] as int),
            forall|b: int, i: int|
                0 <= b < reported@.len() && 0 <= i < l && (#[trigger] body.joints@[i]).other_end(
                    body.handle,
                ) == (#[trigger] reported@[b]).handle ==> on_stack(stack@, b),
            joints@.len() >= first,
            joints@.take(first) == old(joints)@,
            forall|t: int|
                first <= t < joints@.len() ==> is_joint_of(reported@, x as int, #[trigger] joints@[t])
                    && !old(seen)@.contains(joints@[t].2),
            forall|t: int, u: int|
                first <= t < u < joints@.len() ==> (#[trigger] joints@[t]).2 != (
                #[trigger] joints@[u]).2,
            forall|h: ImpulseJointHandle| #[trigger]
                seen@.contains(h) <==> old(seen)@.contains(h) || joint_among(joints@, first, h),
            forall|i: int| 0 <= i < l ==> seen@.contains((#[trigger] body.joints@[i]).joint),
        decreases body.joints@.len() - l,
    {
        let link = body.joints[l];
        let other = if link.body1 == body.handle {
            link.body2
        } else {
            link.body1
        };
        assert(other == link.other_end(body.handle));
        let ghost seen_before = seen@;
        let ghost joints_before = joints@;
        if !contains_joint(seen, link.joint) {
            seen.push(link.joint);
            joints.push((link.body1, link.body2, link.joint));
            proof {
                assert(joints@.take(first) =~= joints_before.take(first));
                assert(link_entry(reported@[x as int].joints@[l as int]) == joints@[joints_before.len() as int]);
                assert forall|t: int| first <= t < joints@.len() implies is_joint_of(
                    reported@,
                    x as int,
                    #[trigger] joints@[t],
                ) && !old(seen)@.contains(joints@[t].2) by {
                    if t < joints_before.len() {
                        assert(joints@[t] == joints_before[t]);
                    }
                }
                assert forall|t: int, u: int| first <= t < u < joints@.len() implies (
                #[trigger] joints@[t]).2 != (#[trigger] joints@[u]).2 by {
                    assert(joints@[t] == joints_before[t]);
                    if u < joints_before.len() {
                        assert(joints@[u] == joints_before[u]);
                    } else {
                        assert(joint_among(joints_before, first, joints_before[t].2));
                    }
                }
                assert forall|h: ImpulseJointHandle| #[trigger]
                    seen@.contains(h) <==> old(seen)@.contains(h) || joint_among(
                        joints@,
                        first,
                        h,
                    ) by {
                    if seen@.contains(h) {
                        let i = choose|i: int| 0 <= i < seen@.len() && seen@[i] == h;
                        if i < seen_before.len() {
                            assert(seen_before[i] == h);
                            assert(seen_before.contains(h));
                            if joint_among(joints_before, first, h) {
                                let t = choose|t: int|
                                    first <= t < joints_before.len() && (
                                    #[trigger] joints_before[t]).2 == h;
                                assert(joints@[t].2 == h);
                            }
                        } else {
                            assert(joints@[joints_before.len() as int].2 == h);
                        }
                    }
                    if old(seen)@.contains(h) {
                        assert(seen_before.contains(h));
                        let i = choose|i: int| 0 <= i < seen_before.len() && seen_before[i] == h;
                        assert(seen@[i] == h);
                    }
                    if joint_among(joints@, first, h) {
                        let t = choose|t: int|
                            first <= t < joints@.len() && (#[trigger] joints@[t]).2 == h;
                        if t < joints_before.len() {
                            assert(joints_before[t].2 == h);
                            assert(joint_among(joints_before, first, h));
                            assert(seen_before.contains(h));
                            let i = choose|i: int|
                                0 <= i < seen_before.len() && seen_before[i] == h;
                            assert(seen@[i] == h);
                        } else {
                            assert(seen@[seen_before.len() as int] == h);
                        }
                    }
                }
            }
        }
        proof {
            assert forall|i: int| 0 <= i < l + 1 implies seen@.contains(
                (#[trigger] body.joints@[i]).joint,
            ) by {
                if i < l {
                    assert(seen_before.contains(body.joints@[i].joint));
                    let q = choose|q: int|
                        0 <= q < seen_before.len() && seen_before[q] == body.joints@[i].joint;
                    assert(seen@[q] == body.joints@[i].joint);
                } else {
                    if seen_before.contains(link.joint) {
                        let q = choose|q: int|
                            0 <= q < seen_before.len() && seen_before[q] == link.joint;
                        assert(seen@[q] == link.joint);
                    } else {
                        assert(seen@[seen_before.len() as int] == link.joint);
                    }
                }
            }
        }
        let ghost before = stack@;
        match find_body(reported, other) {
            Some(b) => {
                stack.push(b);
                proof {
                    assert(stack@.take(old(stack)@.len() as int) =~= before.take(
                        old(stack)@.len() as int,
                    ));
                    assert(reported@[x as int].joints@[l as int].other_end(
                        reported@[x as int].handle,
                    ) == reported@[b as int].handle);
                    assert forall|c: int, i: int|
                        0 <= c < reported@.len() && 0 <= i < l + 1 && (
                        #[trigger] body.joints@[i]).other_end(body.handle) == (
                        #[trigger] reported@[c]).handle implies on_stack(stack@, c) by {
                        if i < l {
                            assert(on_stack(before, c));
                            let s = choose|s: int| 0 <= s < before.len() && #[trigger] before[s] == c;
                            assert(stack@[s] == c);
                        } else {
                            if c < b {
                                assert(reported@[c].handle != reported@[b as int].handle);
                            } else if b < c {
                                assert(reported@[b as int].handle != reported@[c].handle);
                            }
                            assert(stack@[before.len() as int] == c);
                        }
                    }
                }
            },
            None => {},
        }
        l += 1;
    }
}

/// The names of the bodies at `group`.
pub open spec fn handles_of(reported: Seq<BodyState>, group: Seq<int>) -> Seq<RigidBodyHandle> {
    group.map_values(|i: int| reported[i].handle)
}

/// Gathers the component of the body at `root`: every body that links lead
/// to from there and that has not been visited yet.
#[verifier::rlimit(100)]
#[verifier::spinoff_prover]
fn grow_component(
    reported: &Vec<BodyState>,
    root: usize,
    visited: &mut Vec<bool>,
    seen: &mut Vec<ImpulseJointHandle>,
) -> (r: (ConnectedComponent, Ghost<Seq<int>>))
    requires
        handles_distinct(reported@),
        root < reported@.len(),
        old(visited)@.len() == reported@.len(),
        !old(visited)@[root as int],
        dynamic_at(reported@, root as int),
        closed_under_links(reported@, old(visited)@),
    ensures
        final(visited)@.len() == reported@.len(),
        forall|i: int|
            0 <= i < reported@.len() ==> #[trigger] final(visited)@[i] == (old(visited)@[i]
                || r.1@.contains(i)),
        forall|k: int|
            0 <= k < r.1@.len() ==> 0 <= #[trigger] r.1@[k] < reported@.len()
                && !old(visited)@[r.1@[k]] && dynamic_at(reported@, r.1@[k]),
        group_distinct(r.1@),
        r.1@.len() > 0,
        r.1@[0] == root,
        forall|k: int| 0 <= k < r.1@.len() ==> reaches(reported@, root as int, #[trigger] r.1@[k]),
        closed_under_links(reported@, final(visited)@),
        r.0.bodies@ == handles_of(reported@, r.1@),
        r.0.swept_aabb == swept_hull(reported@, r.1@, r.1@.len()),
        forall|j: int|
            0 <= j < r.0.joints@.len() ==> is_link_of(reported@, r.1@, #[trigger] r.0.joints@[j])
                && !old(seen)@.contains(r.0.joints@[j].2),
        forall|t: int, u: int|
            0 <= t < u < r.0.joints@.len() ==> (#[trigger] r.0.joints@[t]).2 != (
            #[trigger] r.0.joints@[u]).2,
        forall|h: ImpulseJointHandle| #[trigger]
            final(seen)@.contains(h) <==> old(seen)@.contains(h) || joint_among(r.0.joints@, 0, h),
        forall|k: int, l: int|
            0 <= k < r.1@.len() && 0 <= l < reported@[r.1@[k]].joints@.len()
                ==> final(seen)@.contains((#[trigger] reported@[r.1@[k]].joints@[l]).joint),
{
    let ghost visited0 = visited@;
    let ghost seen0 = seen@;
    let ghost n = reported@.len();
    let mut stack: Vec<usize> = Vec::new();
    stack.push(root);
    let mut bodies: Vec<RigidBodyHandle> = Vec::new();
    let mut joints: Vec<(RigidBodyHandle, RigidBodyHandle, ImpulseJointHandle)> = Vec::new();
    let mut swept = Aabb::new_invalid();
    let ghost mut group: Seq<int> = Seq::empty();
    assert(bodies@ =~= handles_of(reported@, group));
    while stack.len() > 0
        invariant
            handles_distinct(reported@),
            n == reported@.len(),
            root < n,
            dynamic_at(reported@, root as int),
            visited0.len() == n,
            !visited0[root as int],
            visited@.len() == n,
            closed_under_links(reported@, visited0),
            forall|s: int| 0 <= s < stack@.len() ==> (#[trigger] stack@[s]) < n,
            forall|i: int| 0 <= i < n ==> #[trigger] visited@[i] == (visited0[i] || group.contains(i)),
            forall|k: int|
                0 <= k < group.len() ==> 0 <= #[trigger] group[k] < n && !visited0[group[k]]
                    && dynamic_at(reported@, group[k]),
            group_distinct(group),
            forall|k: int| 0 <= k < group.len() ==> reaches(reported@, root as int, #[trigger] group[k]),
            forall|s: int|
                0 <= s < stack@.len() ==> (#[trigger] stack@[s]) == root || touched_by(
                    reported@,
                    group,
                    stack@[s] as int,
                ),
            forall|k: int, b: int|
                0 <= k < group.len() && 0 <= b < n && #[trigger] linked(reported@, group[k], b)
                    ==> visited@[b] || on_stack(stack@, b),
            group.len() == 0 ==> stack@ == seq![root],
            group.len() > 0 ==> group[0] == root,
            bodies@ == handles_of(reported@, group),
            swept == swept_hull(reported@, group, group.len()),
            forall|j: int|
                0 <= j < joints@.len() ==> is_link_of(reported@, group, #[trigger] joints@[j])
                    && !seen0.contains(joints@[j].2),
            forall|t: int, u: int|
                0 <= t < u < joints@.len() ==> (#[trigger] joints@[t]).2 != (
                #[trigger] joints@[u]).2,
            forall|h: ImpulseJointHandle| #[trigger]
                seen@.contains(h) <==> seen0.contains(h) || joint_among(joints@, 0, h),
            forall|k: int, l: int|
                0 <= k < group.len() && 0 <= l < reported@[group[k]].joints@.len()
                    ==> seen@.contains((#[trigger] reported@[group[k]].joints@[l]).joint),
        decreases count_false(visited@), stack@.len(),
    {
        let ghost stack_before = stack@;
        let ghost visited_before = visited@;
        let x = stack.pop().unwrap();
        assert(stack_before[stack_before.len() - 1] == x);
        assert(stack@ =~= stack_before.drop_last());
        if !visited[x] && reported[x].body_type.is_dynamic() {
            let ghost group_before = group;
            let ghost joints_before = joints@;
            let ghost seen_before = seen@;
            visited.set(x, true);
            bodies.push(reported[x].handle);
            swept = swept.merged(&reported[x].swept_aabb);
            proof {
                lemma_count_false_update(visited_before, x as int);
                assert(visited@ =~= visited_before.update(x as int, true));
                group = group.push(x as int);
                assert(bodies@ =~= handles_of(reported@, group));
                assert(!group_before.contains(x as int));
                assert(group_distinct(group)) by {
                    assert forall|k: int, l: int| 0 <= k < l < group.len() implies group[k]
                        != group[l] by {
                        if l == group.len() - 1 {
                            assert(group_before[k] == group[k]);
                            assert(group_before.contains(group_before[k]));
                        } else {
                            assert(group_before[k] == group[k] && group_before[l] == group[l]);
                        }
                    }
                }
                // Links lead from the root to the body.
                if x != root {
                    assert(touched_by(reported@, group_before, x as int));
                    let k = choose|k: int|
                        0 <= k < group_before.len() && touches(
                            reported@,
                            #[trigger] group_before[k],
                            x as int,
                        );
                    assert(linked(reported@, group_before[k], x as int));
                    lemma_reaches_step(reported@, root as int, group_before[k], x as int);
                } else {
                    assert(reaches_in(reported@, root as int, root as int, 0));
                }
                assert forall|k: int| 0 <= k < group.len() implies reaches(
                    reported@,
                    root as int,
                    #[trigger] group[k],
                ) by {
                    if k < group_before.len() {
                        assert(group[k] == group_before[k]);
                    }
                }
                assert forall|i: int| 0 <= i < n implies #[trigger] visited@[i] == (visited0[i]
                    || group.contains(i)) by {
                    if i == x {
                        assert(group[group.len() - 1] == x);
                    } else {
                        assert(visited@[i] == visited_before[i]);
                        if group_before.contains(i) {
                            let k = choose|k: int| 0 <= k < group_before.len() && group_before[k] == i;
                            assert(group[k] == i);
                        }
                        if group.contains(i) {
                            let k = choose|k: int| 0 <= k < group.len() && group[k] == i;
                            assert(group_before[k] == i);
                        }
                    }
                }
                assert forall|k: int|
                    0 <= k < group.len() implies 0 <= #[trigger] group[k] < n && !visited0[group[k]]
                    && dynamic_at(reported@, group[k]) by {
                    if k < group_before.len() {
                        assert(group[k] == group_before[k]);
                    } else {
                        assert(visited_before[x as int] == (visited0[x as int]
                            || group_before.contains(x as int)));
                    }
                }
                // The extent grows by what the body sweeps.
                assert(swept_hull(reported@, group, (group.len() - 1) as nat) == swept_hull(
                    reported@,
                    group_before,
                    group_before.len(),
                )) by {
                    lemma_swept_hull_prefix(reported@, group_before, group, group_before.len());
                }
            }
            let ghost stack_mid = stack@;
            push_contacts(reported, x, &mut stack);
            let ghost stack_mid2 = stack@;
            push_joints(reported, x, &mut stack, seen, &mut joints);
            proof {
                assert(stack_mid2 =~= stack@.take(stack_mid2.len() as int));
                assert(stack_mid =~= stack_mid2.take(stack_mid.len() as int));
                // What waited on the stack still waits there.
                assert forall|b: int| on_stack(stack_mid, b) implies on_stack(stack@, b) by {
                    let s = choose|s: int| 0 <= s < stack_mid.len() && #[trigger] stack_mid[s] == b;
                    assert(stack_mid2[s] == stack_mid[s]);
                    assert(stack@[s] == stack_mid2[s]);
                }
                assert forall|b: int| on_stack(stack_mid2, b) implies on_stack(stack@, b) by {
                    let s = choose|s: int| 0 <= s < stack_mid2.len() && #[trigger] stack_mid2[s] == b;
                    assert(stack@[s] == stack_mid2[s]);
                }
                assert forall|s: int| 0 <= s < stack@.len() implies (#[trigger] stack@[s]) < n && (
                stack@[s] == root || touched_by(reported@, group, stack@[s] as int)) by {
                    if s < stack_mid.len() {
                        assert(stack@[s] == stack_mid2[s] && stack_mid2[s] == stack_mid[s]);
                        assert(stack_mid[s] == stack_before[s]);
                        if stack@[s] != root {
                            assert(touched_by(reported@, group_before, stack@[s] as int));
                            let k = choose|k: int|
                                0 <= k < group_before.len() && touches(
                                    reported@,
                                    #[trigger] group_before[k],
                                    stack@[s] as int,
                                );
                            assert(group[k] == group_before[k]);
                        }
                    } else {
                        if s < stack_mid2.len() {
                            assert(stack@[s] == stack_mid2[s]);
                        }
                        assert(touches(reported@, x as int, stack@[s] as int));
                        assert(group[group.len() - 1] == x);
                    }
                }
                assert forall|k: int, b: int|
                    0 <= k < group.len() && 0 <= b < n && #[trigger] linked(
                        reported@,
                        group[k],
                        b,
                    ) implies visited@[b] || on_stack(stack@, b) by {
                    if k < group_before.len() {
                        assert(group[k] == group_before[k]);
                        assert(visited_before[b] || on_stack(stack_before, b));
                        if !visited_before[b] && b != x {
                            let s = choose|s: int|
                                0 <= s < stack_before.len() && #[trigger] stack_before[s] == b;
                            assert(s < stack_before.len() - 1);
                            assert(stack_mid[s] == b);
                            assert(on_stack(stack_mid, b));
                        }
                    } else {
                        assert(touches(reported@, x as int, b));
                        if exists|j: int|
                            0 <= j < reported@[x as int].contacts@.len()
                                && #[trigger] reported@[x as int].contacts@[j]
                                == reported@[b].handle {
                            let j = choose|j: int|
                                0 <= j < reported@[x as int].contacts@.len()
                                    && #[trigger] reported@[x as int].contacts@[j]
                                    == reported@[b].handle;
                            assert(on_stack(stack_mid2, b));
                        } else {
                            let l = choose|l: int|
                                0 <= l < reported@[x as int].joints@.len() && (
                                #[trigger] reported@[x as int].joints@[l]).other_end(
                                    reported@[x as int].handle,
                                ) == reported@[b].handle;
                            assert(on_stack(stack@, b));
                        }
                    }
                }
                // The joints.
                assert(joints_before =~= joints@.take(joints_before.len() as int));
                assert forall|j: int| 0 <= j < joints@.len() implies is_link_of(
                    reported@,
                    group,
                    #[trigger] joints@[j],
                ) && !seen0.contains(joints@[j].2) by {
                    if j < joints_before.len() {
                        assert(joints@[j] == joints_before[j]);
                        let (k, l) = choose|k: int, l: int|
                            0 <= k < group_before.len() && 0 <= l
                                < reported@[group_before[k]].joints@.len() && link_entry(
                                #[trigger] reported@[group_before[k]].joints@[l],
                            ) == joints_before[j];
                        assert(group[k] == group_before[k]);
                        assert(link_entry(reported@[group[k]].joints@[l]) == joints@[j]);
                    } else {
                        assert(is_joint_of(reported@, x as int, joints@[j]));
                        let l = choose|l: int|
                            0 <= l < reported@[x as int].joints@.len() && link_entry(
                                #[trigger] reported@[x as int].joints@[l],
                            ) == joints@[j];
                        assert(group[group.len() - 1] == x);
                        assert(link_entry(reported@[group[group.len() - 1]].joints@[l])
                            == joints@[j]);
                        assert(!seen_before.contains(joints@[j].2));
                    }
                }
                assert forall|t: int, u: int| 0 <= t < u < joints@.len() implies (
                #[trigger] joints@[t]).2 != (#[trigger] joints@[u]).2 by {
                    if u < joints_before.len() {
                        assert(joints@[t] == joints_before[t] && joints@[u] == joints_before[u]);
                    } else if t < joints_before.len() {
                        assert(joints@[t] == joints_before[t]);
                        assert(joint_among(joints_before, 0, joints_before[t].2));
                        assert(seen_before.contains(joints_before[t].2));
                    }
                }
                assert forall|h: ImpulseJointHandle| #[trigger]
                    seen@.contains(h) <==> seen0.contains(h) || joint_among(joints@, 0, h) by {
                    if joint_among(joints_before, 0, h) {
                        let t = choose|t: int|
                            0 <= t < joints_before.len() && (#[trigger] joints_before[t]).2 == h;
                        assert(joints@[t].2 == h);
                    }
                    if joint_among(joints@, joints_before.len() as int, h) {
                        let t = choose|t: int|
                            joints_before.len() <= t < joints@.len() && (#[trigger] joints@[t]).2
                                == h;
                        assert(joints@[t].2 == h);
                    }
                    if joint_among(joints@, 0, h) {
                        let t = choose|t: int|
                            0 <= t < joints@.len() && (#[trigger] joints@[t]).2 == h;
                        if t < joints_before.len() {
                            assert(joints_before[t].2 == h);
                        }
                    }
                }
                assert forall|k: int, l: int|
                    0 <= k < group.len() && 0 <= l < reported@[group[k]].joints@.len()
                    implies seen@.contains((#[trigger] reported@[group[k]].joints@[l]).joint) by {
                    if k < group_before.len() {
                        assert(group[k] == group_before[k]);
                        assert(seen_before.contains(reported@[group_before[k]].joints@[l].joint));
                    }
                }
            }
        } else {
            proof {
                assert forall|s: int| 0 <= s < stack@.len() implies (#[trigger] stack@[s]) < n && (
                stack@[s] == root || touched_by(reported@, group, stack@[s] as int)) by {
                    assert(stack@[s] == stack_before[s]);
                }
                assert forall|k: int, b: int|
                    0 <= k < group.len() && 0 <= b < n && #[trigger] linked(
                        reported@,
                        group[k],
                        b,
                    ) implies visited@[b] || on_stack(stack@, b) by {
                    if !visited@[b] {
                        assert(on_stack(stack_before, b));
                        let s = choose|s: int|
                            0 <= s < stack_before.len() && #[trigger] stack_before[s] == b;
                        assert(b != x);
                        assert(stack@[s] == b);
                    }
                }
                if group.len() == 0 {
                    // Only the root waits, and the root is visited as soon as it is met.
                    assert(stack_before[0] == root);
                    assert(x == root);
                    assert(visited@[x as int] == (visited0[x as int] || group.contains(x as int)));
                }
            }
        }
    }
    proof {
        assert forall|a: int, b: int|
            0 <= a < n && 0 <= b < n && visited@[a] && #[trigger] linked(
                reported@,
                a,
                b,
            ) implies visited@[b] by {
            if visited0[a] {
                assert(visited0[b]);
            } else {
                assert(group.contains(a));
                let k = choose|k: int| 0 <= k < group.len() && group[k] == a;
                assert(linked(reported@, group[k], b));
                assert(!on_stack(stack@, b));
            }
        }
    }
    (ConnectedComponent { bodies, joints, swept_aabb: swept }, Ghost(group))
}

/// The extent of the first `n` bodies does not depend on those behind them.
proof fn lemma_swept_hull_prefix(reported: Seq<BodyState>, a: Seq<int>, b: Seq<int>, n: nat)
    requires
        n <= a.len(),
        n <= b.len(),
        forall|k: int| 0 <= k < n ==> a[k] == b[k],
    ensures
        swept_hull(reported, a, n) == swept_hull(reported, b, n),
    decreases n,
{
    if n > 0 {
        lemma_swept_hull_prefix(reported, a, b, (n - 1) as nat);
    }
}

/// Where the bodies of each of `components` stand in the report.
pub open spec fn groups_of(reported: Seq<BodyState>, components: Seq<ConnectedComponent>) -> Seq<
    Seq<int>,
> {
    components.map_values(|c: ConnectedComponent| members(reported, c))
}

/// A body is found where it stands.
proof fn lemma_body_index(reported: Seq<BodyState>, i: int)
    requires
        handles_distinct(reported),
        0 <= i < reported.len(),
    ensures
        body_index(reported, reported[i].handle) == i,
{
    let j = body_index(reported, reported[i].handle);
    assert(0 <= j < reported.len() && reported[j].handle == reported[i].handle);
    if j < i {
        assert(reported[j].handle != reported[i].handle);
    } else if i < j {
        assert(reported[i].handle != reported[j].handle);
    }
}

/// A group in range is the first `n` groups' business only if one of them holds it.
proof fn lemma_grouped_push(groups: Seq<Seq<int>>, group: Seq<int>, n: int, i: int)
    requires
        0 <= n <= groups.len(),
    ensures
        grouped(groups.push(group), n, i) == grouped(groups, n, i),
        grouped(groups.push(group), groups.len() as int + 1, i) == (grouped(groups, groups.len() as int, i)
            || group.contains(i)),
        grouped(groups, n, i) ==> grouped(groups, groups.len() as int, i),
{
    let more = groups.push(group);
    if grouped(groups, n, i) {
        let (c, k) = choose|c: int, k: int|
            0 <= c < n && 0 <= k < groups[c].len() && #[trigger] groups[c][k] == i;
        assert(more[c][k] == i);
        assert(groups[c][k] == i);
    }
    if grouped(more, n, i) {
        let (c, k) = choose|c: int, k: int|
            0 <= c < n && 0 <= k < more[c].len() && #[trigger] more[c][k] == i;
        assert(groups[c][k] == i);
    }
    if grouped(groups, groups.len() as int, i) {
        let (c, k) = choose|c: int, k: int|
            0 <= c < groups.len() && 0 <= k < groups[c].len() && #[trigger] groups[c][k] == i;
        assert(more[c][k] == i);
    }
    if group.contains(i) {
        let k = choose|k: int| 0 <= k < group.len() && group[k] == i;
        assert(more[groups.len() as int][k] == i);
    }
    if grouped(more, groups.len() as int + 1, i) {
        let (c, k) = choose|c: int, k: int|
            0 <= c < groups.len() + 1 && 0 <= k < more[c].len() && #[trigger] more[c][k] == i;
        if c < groups.len() {
            assert(groups[c][k] == i);
        } else {
            assert(group[k] == i);
        }
    }
}

/// The connected components of the dynamic bodies of the report.
///
/// Two dynamic bodies stand in one component where contacts and joints lead
/// from one to the other through dynamic bodies. Bodies that forces do not
/// move stand in no component and connect nothing. The components come in
/// the order in which the report lists their first bodies; each has the
/// extent of all that its bodies sweep, and lists the joints of its bodies.
#[verifier::rlimit(100)]
#[verifier::spinoff_prover]
pub fn calculate_connected_components(reported: &Vec<BodyState>) -> (result: Vec<ConnectedComponent>)
    requires
        handles_distinct(reported@),
    ensures
        are_components(reported@, groups_of(reported@, result@)),
        forall|c: int, k: int|
            0 <= c < result@.len() && 0 <= k < result@[c].bodies@.len() ==> {
                let i = members(reported@, result@[c])[k];
                0 <= i < reported@.len() && reported@[i].handle == #[trigger] result@[c].bodies@[k]
            },
        forall|c: int|
            0 <= c < result@.len() ==> (#[trigger] result@[c]).swept_aabb == swept_hull(
                reported@,
                members(reported@, result@[c]),
                result@[c].bodies@.len(),
            ),
        joints_listed(reported@, result@),
{
    let n = reported.len();
    let mut visited: Vec<bool> = Vec::new();
    while visited.len() < n
        invariant
            visited@.len() <= n,
            forall|i: int| 0 <= i < visited@.len() ==> !visited@[i],
        decreases n - visited@.len(),
    {
        visited.push(false);
    }
    let mut seen: Vec<ImpulseJointHandle> = Vec::new();
    let mut result: Vec<ConnectedComponent> = Vec::new();
    let ghost mut groups: Seq<Seq<int>> = Seq::empty();
    let mut root: usize = 0;
    while root < n
        invariant
            root <= n,
            n == reported@.len(),
            handles_distinct(reported@),
            visited@.len() == n,
            result@.len() == groups.len(),
            closed_under_links(reported@, visited@),
            forall|c: int|
                0 <= c < groups.len() ==> (#[trigger] result@[c]).bodies@ == handles_of(
                    reported@,
                    groups[c],
                ) && result@[c].swept_aabb == swept_hull(reported@, groups[c], groups[c].len()),
            forall|i: int|
                0 <= i < n ==> #[trigger] visited@[i] == grouped(groups, groups.len() as int, i),
            forall|i: int| 0 <= i < root && dynamic_at(reported@, i) ==> #[trigger] visited@[i],
            forall|c: int, k: int|
                0 <= c < groups.len() && 0 <= k < groups[c].len() ==> 0 <= #[trigger] groups[c][k]
                    < n && dynamic_at(reported@, groups[c][k]),
            forall|c: int, k: int, d: int, l: int|
                0 <= c < groups.len() && 0 <= k < groups[c].len() && 0 <= d < groups.len() && 0
                    <= l < groups[d].len() && #[trigger] groups[c][k] == #[trigger] groups[d][l]
                    ==> c == d && k == l,
            forall|c: int| 0 <= c < groups.len() ==> (#[trigger] groups[c]).len() > 0,
            forall|c: int, k: int|
                0 <= c < groups.len() && 0 <= k < groups[c].len() ==> reaches(
                    reported@,
                    groups[c][0],
                    #[trigger] groups[c][k],
                ),
            forall|c: int, k: int, b: int|
                0 <= c < groups.len() && 0 <= k < groups[c].len() && linked(
                    reported@,
                    #[trigger] groups[c][k],
                    b,
                ) ==> #[trigger] grouped(groups, c + 1, b),
            forall|c: int, i: int|
                0 <= c < groups.len() && 0 <= i < groups[c][0] && dynamic_at(reported@, i)
                    ==> #[trigger] grouped(groups, c, i),
            forall|h: ImpulseJointHandle| #[trigger]
                seen@.contains(h) <==> joint_listed(result@, result@.len() as int, h),
            forall|c: int, j: int|
                0 <= c < result@.len() && 0 <= j < result@[c].joints@.len() ==> is_link_of(
                    reported@,
                    groups[c],
                    #[trigger] result@[c].joints@[j],
                ),
            forall|c: int, k: int, l: int|
                0 <= c < groups.len() && 0 <= k < groups[c].len() && 0 <= l
                    < reported@[groups[c][k]].joints@.len() ==> joint_listed(
                    result@,
                    c + 1,
                    (#[trigger] reported@[groups[c][k]].joints@[l]).joint,
                ),
            forall|c: int, j: int, d: int, i: int|
                0 <= c < result@.len() && 0 <= j < result@[c].joints@.len() && 0 <= d
                    < result@.len() && 0 <= i < result@[d].joints@.len() && (
                #[trigger] result@[c].joints@[j]).2 == (#[trigger] result@[d].joints@[i]).2 ==> c
                    == d && j == i,
        decreases n - root,
    {
        if !visited[root] && reported[root].body_type.is_dynamic() {
            let ghost groups_before = groups;
            let ghost result_before = result@;
            let ghost visited_before = visited@;
            let ghost seen_before = seen@;
            let ghost m = groups.len() as int;
            let (component, Ghost(group)) = grow_component(reported, root, &mut visited, &mut seen);
            let ghost listed = component.joints@;
            result.push(component);
            proof {
                groups = groups.push(group);
                assert forall|c: int| 0 <= c < m implies #[trigger] result@[c]
                    == result_before[c] && groups[c] == groups_before[c] by {}
                assert(groups[m] == group && result@[m].joints@ == listed);
                assert forall|i: int| 0 <= i < n implies #[trigger] visited@[i] == grouped(
                    groups,
                    groups.len() as int,
                    i,
                ) by {
                    lemma_grouped_push(groups_before, group, m, i);
                    assert(visited_before[i] == grouped(groups_before, m, i));
                }
                assert forall|c: int, k: int|
                    0 <= c < groups.len() && 0 <= k < groups[c].len() implies 0
                    <= #[trigger] groups[c][k] < n && dynamic_at(reported@, groups[c][k]) by {
                    if c < m {
                        assert(groups_before[c][k] == groups[c][k]);
                    }
                }
                assert forall|c: int, k: int, d: int, l: int|
                    0 <= c < groups.len() && 0 <= k < groups[c].len() && 0 <= d < groups.len()
                        && 0 <= l < groups[d].len() && #[trigger] groups[c][k]
                        == #[trigger] groups[d][l] implies c == d && k == l by {
                    if c < m && d < m {
                        assert(groups_before[c][k] == groups_before[d][l]);
                    } else if c < m {
                        assert(groups_before[c][k] == group[l]);
                        assert(grouped(groups_before, m, group[l]));
                        assert(visited_before[group[l]]);
                    } else if d < m {
                        assert(groups_before[d][l] == group[k]);
                        assert(grouped(groups_before, m, group[k]));
                        assert(visited_before[group[k]]);
                    } else {
                        if k < l {
                            assert(group[k] != group[l]);
                        } else if l < k {
                            assert(group[l] != group[k]);
                        }
                    }
                }
                assert forall|c: int, k: int|
                    0 <= c < groups.len() && 0 <= k < groups[c].len() implies reaches(
                    reported@,
                    groups[c][0],
                    #[trigger] groups[c][k],
                ) by {
                    if c < m {
                        assert(groups_before[c][k] == groups[c][k]);
                    }
                }
                assert forall|c: int, k: int, b: int|
                    0 <= c < groups.len() && 0 <= k < groups[c].len() && linked(
                        reported@,
                        #[trigger] groups[c][k],
                        b,
                    ) implies #[trigger] grouped(groups, c + 1, b) by {
                    if c < m {
                        assert(groups_before[c][k] == groups[c][k]);
                        assert(grouped(groups_before, c + 1, b));
                        lemma_grouped_push(groups_before, group, c + 1, b);
                    } else {
                        assert(visited@[group[k]] == (visited_before[group[k]] || group.contains(
                            group[k],
                        )));
                        assert(visited@[b]);
                    }
                }
                assert forall|c: int, i: int|
                    0 <= c < groups.len() && 0 <= i < groups[c][0] && dynamic_at(
                        reported@,
                        i,
                    ) implies #[trigger] grouped(groups, c, i) by {
                    if c < m {
                        assert(groups_before[c][0] == groups[c][0]);
                        assert(grouped(groups_before, c, i));
                        lemma_grouped_push(groups_before, group, c, i);
                    } else {
                        assert(visited_before[i]);
                        lemma_grouped_push(groups_before, group, m, i);
                    }
                }
                assert forall|i: int| 0 <= i < root + 1 && dynamic_at(reported@, i)
                    implies #[trigger] visited@[i] by {
                    if i == root {
                        assert(group[0] == root);
                        assert(group.contains(root as int));
                    } else {
                        assert(visited_before[i]);
                    }
                }
                // The joints.
                assert forall|h: ImpulseJointHandle| #[trigger]
                    seen@.contains(h) <==> joint_listed(result@, result@.len() as int, h) by {
                    if joint_listed(result_before, m, h) {
                        let (c, j) = choose|c: int, j: int|
                            0 <= c < m && 0 <= j < result_before[c].joints@.len() && (
                            #[trigger] result_before[c].joints@[j]).2 == h;
                        assert(result@[c].joints@[j].2 == h);
                    }
                    if joint_among(listed, 0, h) {
                        let t = choose|t: int| 0 <= t < listed.len() && (#[trigger] listed[t]).2 == h;
                        assert(result@[m].joints@[t].2 == h);
                    }
                    if joint_listed(result@, result@.len() as int, h) {
                        let (c, j) = choose|c: int, j: int|
                            0 <= c < result@.len() && 0 <= j < result@[c].joints@.len() && (
                            #[trigger] result@[c].joints@[j]).2 == h;
                        if c < m {
                            assert(result_before[c].joints@[j].2 == h);
                        } else {
                            assert(listed[j].2 == h);
                        }
                    }
                }
                assert forall|c: int, j: int|
                    0 <= c < result@.len() && 0 <= j < result@[c].joints@.len() implies is_link_of(
                    reported@,
                    groups[c],
                    #[trigger] result@[c].joints@[j],
                ) by {
                    if c < m {
                        assert(result@[c] == result_before[c]);
                        assert(is_link_of(reported@, groups_before[c], result_before[c].joints@[j]));
                    }
                }
                assert forall|c: int, k: int, l: int|
                    0 <= c < groups.len() && 0 <= k < groups[c].len() && 0 <= l
                        < reported@[groups[c][k]].joints@.len() implies joint_listed(
                    result@,
                    c + 1,
                    (#[trigger] reported@[groups[c][k]].joints@[l]).joint,
                ) by {
                    let h = reported@[groups[c][k]].joints@[l].joint;
                    if c < m {
                        assert(groups_before[c][k] == groups[c][k]);
                        assert(joint_listed(result_before, c + 1, h));
                        let (d, j) = choose|d: int, j: int|
                            0 <= d < c + 1 && 0 <= j < result_before[d].joints@.len() && (
                            #[trigger] result_before[d].joints@[j]).2 == h;
                        assert(result@[d].joints@[j].2 == h);
                    } else {
                        assert(seen@.contains(h));
                    }
                }
                assert forall|c: int, j: int, d: int, i: int|
                    0 <= c < result@.len() && 0 <= j < result@[c].joints@.len() && 0 <= d
                        < result@.len() && 0 <= i < result@[d].joints@.len() && (
                    #[trigger] result@[c].joints@[j]).2 == (
                    #[trigger] result@[d].joints@[i]).2 implies c == d && j == i by {
                    if c < m && d < m {
                        assert(result_before[c].joints@[j].2 == result_before[d].joints@[i].2);
                    } else if c < m {
                        assert(result_before[c].joints@[j].2 == listed[i].2);
                        assert(joint_listed(result_before, m, listed[i].2));
                        assert(seen_before.contains(listed[i].2));
                    } else if d < m {
                        assert(result_before[d].joints@[i].2 == listed[j].2);
                        assert(joint_listed(result_before, m, listed[j].2));
                        assert(seen_before.contains(listed[j].2));
                    } else {
                        if j < i {
                            assert(listed[j].2 != listed[i].2);
                        } else if i < j {
                            assert(listed[i].2 != listed[j].2);
                        }
                    }
                }
            }
        }
        root += 1;
    }
    proof {
        let found = groups_of(reported@, result@);
        assert forall|c: int| 0 <= c < groups.len() implies #[trigger] found[c] == groups[c] by {
            let listed = members(reported@, result@[c]);
            assert(listed.len() == groups[c].len());
            assert forall|k: int| 0 <= k < listed.len() implies listed[k] == groups[c][k] by {
                assert(0 <= groups[c][k] < n);
                lemma_body_index(reported@, groups[c][k]);
                assert(result@[c].bodies@[k] == reported@[groups[c][k]].handle);
            }
            assert(listed =~= groups[c]);
        }
        assert(found =~= groups);
        assert forall|i: int| dynamic_at(reported@, i) implies grouped(
            groups,
            groups.len() as int,
            i,
        ) by {
            assert(visited@[i]);
        }
        assert forall|c: int, k: int|
            0 <= c < result@.len() && 0 <= k < result@[c].bodies@.len() implies {
            let i = members(reported@, result@[c])[k];
            0 <= i < reported@.len() && reported@[i].handle == #[trigger] result@[c].bodies@[k]
        } by {
            assert(found[c] == groups[c]);
            assert(0 <= groups[c][k] < n);
            assert(result@[c].bodies@[k] == reported@[groups[c][k]].handle);
        }
        assert forall|c: int| 0 <= c < result@.len() implies (#[trigger] result@[c]).swept_aabb
            == swept_hull(
            reported@,
            members(reported@, result@[c]),
            result@[c].bodies@.len(),
        ) by {
            assert(found[c] == groups[c]);
        }
        assert(joints_listed(reported@, result@)) by {
            assert forall|c: int, j: int|
                0 <= c < result@.len() && 0 <= j < result@[c].joints@.len() implies is_link_of(
                reported@,
                members(reported@, result@[c]),
                #[trigger] result@[c].joints@[j],
            ) by {
                assert(found[c] == groups[c]);
            }
            assert forall|c: int, k: int, l: int|
                0 <= c < result@.len() && 0 <= k < result@[c].bodies@.len() && 0 <= l
                    < reported@[members(reported@, result@[c])[k]].joints@.len() implies joint_listed(
                result@,
                c + 1,
                (#[trigger] reported@[members(reported@, result@[c])[k]].joints@[l]).joint,
            ) by {
                assert(found[c] == groups[c]);
            }
        }
    }
    result
}

} // verus!
