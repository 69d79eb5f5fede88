use steadyum::api_types::partitionner::SceneUuid;
use steadyum::api_types::simulation::SimulationBounds;
use steadyum::geometry::Aabb;

fn cell(x: i64, y: i64, z: i64) -> SimulationBounds {
    SimulationBounds { mins: [x, y, z], maxs: [x + 100, y + 100, z + 100] }
}

#[test]
fn default_bounds_span_ten_thousand_units_each_way() {
    let b = SimulationBounds::default();
    assert_eq!(b.mins, [-10_000, -10_000, -10_000]);
    assert_eq!(b.maxs, [10_000, 10_000, 10_000]);
}

#[test]
fn smallest_comes_before_every_region() {
    let s = SimulationBounds::smallest();
    assert_eq!(s.mins, [i64::MIN; 3]);
    assert_eq!(s.maxs, [i64::MIN; 3]);
    assert!(s < cell(i64::MIN + 1, 0, 0));
    assert!(s < cell(-100, -100, -100));
    assert!(!(s < s));
}

#[test]
fn regions_are_ordered_by_their_lower_corner_axis_after_axis() {
    assert!(cell(0, 0, 0) < cell(100, 0, 0));
    assert!(cell(0, 900, 900) < cell(100, 0, 0));
    assert!(cell(0, 0, 0) < cell(0, 100, 0));
    assert!(cell(0, 0, 900) < cell(0, 100, 0));
    assert!(cell(0, 0, 0) < cell(0, 0, 100));
    assert!(cell(100, 0, 0) > cell(0, 100, 100));
    assert!(!(cell(0, 0, 0) < cell(0, 0, 0)));
    assert!(!(cell(0, 0, 0) > cell(0, 0, 0)));
}

#[test]
fn the_upper_corner_does_not_count_in_the_order() {
    let a = SimulationBounds { mins: [0, 0, 0], maxs: [100, 100, 100] };
    let b = SimulationBounds { mins: [0, 0, 0], maxs: [50, 50, 50] };
    assert!(!(a < b));
    assert!(!(b < a));
    assert_eq!(a.partial_cmp(&b), Some(std::cmp::Ordering::Equal));
    assert!(a != b);
}

#[test]
fn the_order_is_transitive_on_a_sample() {
    let sample = [
        cell(-100, 0, 0),
        cell(0, -100, 0),
        cell(0, 0, -100),
        cell(0, 0, 0),
        cell(0, 0, 100),
        cell(0, 100, 0),
        cell(100, 0, 0),
    ];
    for a in sample.iter() {
        for b in sample.iter() {
            for c in sample.iter() {
                if a < b && b < c {
                    assert!(a < c);
                }
            }
            assert!(!(a < b && b < a));
        }
    }
}

#[test]
fn from_point_takes_the_cell_that_holds_the_point() {
    assert_eq!(SimulationBounds::from_point([49, 10, 0], 100), cell(0, 0, 0));
    assert_eq!(SimulationBounds::from_point([99, 99, 99], 100), cell(0, 0, 0));
    assert_eq!(SimulationBounds::from_point([100, 0, 0], 100), cell(100, 0, 0));
    assert_eq!(SimulationBounds::from_point([250, 120, 399], 100), cell(200, 100, 300));
}

#[test]
fn from_point_rounds_negative_coordinates_down() {
    assert_eq!(SimulationBounds::from_point([-1, -100, -101], 100), cell(-100, -100, -200));
    assert_eq!(SimulationBounds::from_point([-99, -200, -1], 100), cell(-100, -200, -100));
    assert_eq!(SimulationBounds::from_point([0, 0, 0], 100), cell(0, 0, 0));
}

#[test]
fn from_point_with_another_width() {
    let r = SimulationBounds::from_point([7, -7, 16], 8);
    assert_eq!(r.mins, [0, -8, 16]);
    assert_eq!(r.maxs, [8, 0, 24]);
    let one = SimulationBounds::from_point([7, -7, 0], 1);
    assert_eq!(one.mins, [7, -7, 0]);
    assert_eq!(one.maxs, [8, -6, 1]);
}

#[test]
fn from_point_at_the_end_of_the_range() {
    let far: i64 = 1 << 60;
    let r = SimulationBounds::from_point([far, -far, 0], 100);
    assert_eq!(r.mins[0], far - far % 100);
    assert_eq!(r.maxs[0], far - far % 100 + 100);
    assert_eq!(r.mins[1], -far - (100 - far % 100));
    assert!(r.mins[1] <= -far && -far < r.maxs[1]);
}

#[test]
fn from_aabb_goes_by_the_upper_corner() {
    let body = Aabb { mins: [95, 5, -5], maxs: [105, 15, 5] };
    assert_eq!(SimulationBounds::from_aabb(&body, 100), cell(100, 0, 0));
    let inside = Aabb { mins: [44, 5, -5], maxs: [54, 15, 5] };
    assert_eq!(SimulationBounds::from_aabb(&inside, 100), cell(0, 0, 0));
}

#[test]
fn aabb_has_the_same_corners() {
    let r = cell(100, 0, -100);
    assert_eq!(r.aabb(), Aabb { mins: [100, 0, -100], maxs: [200, 100, 0] });
}

#[test]
fn intersects_aabb_counts_shared_borders() {
    let r = cell(0, 0, 0);
    assert!(r.intersects_aabb(&Aabb { mins: [100, 100, 100], maxs: [150, 150, 150] }));
    assert!(r.intersects_aabb(&Aabb { mins: [-5, -5, -5], maxs: [0, 0, 0] }));
    assert!(!r.intersects_aabb(&Aabb { mins: [101, 0, 0], maxs: [150, 50, 50] }));
    assert!(!r.intersects_aabb(&Aabb { mins: [0, 0, -50], maxs: [50, 50, -1] }));
}

#[test]
fn smaller_and_greater_regions_of_a_body() {
    let r = cell(100, 0, 0);
    let left = Aabb { mins: [80, 5, 5], maxs: [99, 15, 15] };
    let here = Aabb { mins: [110, 5, 5], maxs: [120, 15, 15] };
    let right = Aabb { mins: [190, 5, 5], maxs: [200, 15, 15] };
    assert!(r.is_in_smaller_region(&left));
    assert!(!r.is_in_smaller_region(&here));
    assert!(!r.is_in_smaller_region(&right));
    assert!(r.intersects_master_region(&right));
    assert!(!r.intersects_master_region(&here));
    assert!(!r.intersects_master_region(&left));
}

#[test]
fn relative_neighbor_moves_by_whole_regions() {
    let r = cell(100, 0, -100);
    assert_eq!(r.relative_neighbor([0, 0, 0]), r);
    assert_eq!(r.relative_neighbor([1, 0, 0]), cell(200, 0, -100));
    assert_eq!(r.relative_neighbor([-2, 3, 1]), cell(-100, 300, 0));
}

#[test]
fn relative_neighbor_of_a_box_with_unequal_edges() {
    let r = SimulationBounds { mins: [0, 0, 0], maxs: [10, 20, 30] };
    let n = r.relative_neighbor([1, -1, 2]);
    assert_eq!(n.mins, [10, -20, 60]);
    assert_eq!(n.maxs, [20, 0, 90]);
}

#[test]
fn seven_neighbors_are_watched_and_each_is_greater() {
    let r = cell(100, 0, -100);
    let watched = r.neighbors_to_watch();
    let expected = [
        cell(100, 0, 0),
        cell(100, 100, -100),
        cell(100, 100, 0),
        cell(200, 0, -100),
        cell(200, 0, 0),
        cell(200, 100, -100),
        cell(200, 100, 0),
    ];
    assert_eq!(watched, expected);
    for n in watched.iter() {
        assert!(*n > r);
    }
}

#[test]
fn all_twenty_six_neighbors_in_ascending_shifts() {
    let r = cell(0, 0, 0);
    let all = r.all_neighbors();
    assert_eq!(all.len(), 26);
    let mut at = 0;
    for i in -1..=1i64 {
        for j in -1..=1i64 {
            for k in -1..=1i64 {
                if i == 0 && j == 0 && k == 0 {
                    continue;
                }
                assert_eq!(all[at], cell(100 * i, 100 * j, 100 * k));
                at += 1;
            }
        }
    }
    assert_eq!(at, 26);
    assert!(!all.contains(&r));
}

#[test]
fn to_string_joins_the_corners() {
    assert_eq!(cell(0, 0, 0).to_string(), "0_0_0__100_100_100");
    assert_eq!(cell(-100, 200, -300).to_string(), "-100_200_-300__0_300_-200");
    let wide = SimulationBounds { mins: [i64::MIN, 0, i64::MAX], maxs: [i64::MAX, 7, i64::MIN] };
    assert_eq!(
        wide.to_string(),
        "-9223372036854775808_0_9223372036854775807__9223372036854775807_7_-9223372036854775808"
    );
}

#[test]
fn from_str_reads_what_to_string_writes() {
    let samples = [
        cell(0, 0, 0),
        cell(-100, 200, -300),
        SimulationBounds { mins: [i64::MIN, 0, i64::MAX], maxs: [i64::MAX, 7, i64::MIN] },
        SimulationBounds::default(),
        SimulationBounds::smallest(),
    ];
    for b in samples.iter() {
        assert_eq!(SimulationBounds::from_str(&b.to_string()), Some(*b));
    }
}

#[test]
fn from_str_accepts_signs_and_leading_zeros() {
    assert_eq!(
        SimulationBounds::from_str("+1_-2_003__-0_+0_10"),
        Some(SimulationBounds { mins: [1, -2, 3], maxs: [0, 0, 10] })
    );
}

#[test]
fn from_str_does_not_read_the_field_between_the_corners_nor_what_follows() {
    assert_eq!(
        SimulationBounds::from_str("1_2_3_anything_4_5_6"),
        Some(SimulationBounds { mins: [1, 2, 3], maxs: [4, 5, 6] })
    );
    assert_eq!(
        SimulationBounds::from_str("1_2_3__4_5_6_7_x"),
        Some(SimulationBounds { mins: [1, 2, 3], maxs: [4, 5, 6] })
    );
}

#[test]
fn from_str_refuses_what_is_no_region() {
    assert_eq!(SimulationBounds::from_str(""), None);
    assert_eq!(SimulationBounds::from_str("1_2_3"), None);
    assert_eq!(SimulationBounds::from_str("1_2_3__4_5"), None);
    assert_eq!(SimulationBounds::from_str("1_2_3_4_5_6"), None);
    assert_eq!(SimulationBounds::from_str("1_2_x__4_5_6"), None);
    assert_eq!(SimulationBounds::from_str("1_2_3__4_5_"), None);
    assert_eq!(SimulationBounds::from_str("1_2_3__4_5_-"), None);
    assert_eq!(SimulationBounds::from_str("1_2_3__4_5_+"), None);
    assert_eq!(SimulationBounds::from_str(" 1_2_3__4_5_6"), None);
    assert_eq!(SimulationBounds::from_str("1_2_3__4_5_6 "), None);
    assert_eq!(SimulationBounds::from_str("1_2_3__4_5_9223372036854775808"), None);
    assert_eq!(SimulationBounds::from_str("-9223372036854775809_2_3__4_5_6"), None);
    assert_eq!(SimulationBounds::from_str("1__2_3__4_5_6"), None);
}

#[test]
fn from_str_agrees_with_the_standard_reading_of_numbers() {
    let numbers = [
        "0", "-0", "+0", "7", "-7", "+7", "007", "9223372036854775807", "-9223372036854775808",
        "9223372036854775808", "-9223372036854775809", "", "+", "-", "1a", "a1", "1 ", "--1",
        "+-1", "99999999999999999999999999", "٣",
    ];
    for n in numbers.iter() {
        let text = format!("{}_0_0__0_0_0", n);
        let expected = n.parse::<i64>().ok();
        assert_eq!(SimulationBounds::from_str(&text).map(|b| b.mins[0]), expected);
    }
}

#[test]
fn queue_key_names_scene_and_region() {
    let scene = SceneUuid(0xa1a2a3a4_b1b2_c1c2_d1d2_d3d4d5d6d7d8);
    let key = cell(0, -100, 0).zenoh_queue_key(scene);
    assert_eq!(key, "runner/a1a2a3a4-b1b2-c1c2-d1d2-d3d4d5d6d7d8/0_-100_0__100_0_100");
    assert_eq!(cell(0, -100, 0).runner_key(scene), key);
}

#[test]
fn queue_key_agrees_with_the_uuid_crate() {
    let id = uuid::Uuid::new_v4();
    let scene = SceneUuid(id.as_u128());
    let r = cell(300, 0, 0);
    assert_eq!(r.zenoh_queue_key(scene), format!("runner/{:?}/{}", id, r.to_string()));
    assert_eq!(r.watch_kvs_key(id.as_u128()), format!("steadyum/watch/{:?}?{}", id, r.to_string()));
    assert_eq!(
        r.runner_client_objects_key(scene, 42),
        format!("steadyum/client_bodies/{:?}?{}&{}", id, r.to_string(), 42)
    );
}

#[test]
fn watch_key_names_worker_and_region() {
    let key = cell(100, 0, 0).watch_kvs_key(1);
    assert_eq!(key, "steadyum/watch/00000000-0000-0000-0000-000000000001?100_0_0__200_100_100");
}

#[test]
fn client_objects_key_names_scene_region_and_step() {
    let key = cell(100, 0, 0).runner_client_objects_key(SceneUuid(u128::MAX), 0);
    assert_eq!(
        key,
        "steadyum/client_bodies/ffffffff-ffff-ffff-ffff-ffffffffffff?100_0_0__200_100_100&0"
    );
    let late = cell(100, 0, 0).runner_client_objects_key(SceneUuid(0), u64::MAX);
    assert!(late.ends_with("&18446744073709551615"));
}

#[test]
fn as_bytes_lays_the_corners_out_in_machine_order() {
    let r = cell(-100, 256, 0);
    let bytes = r.as_bytes().bytes;
    let mut expected = Vec::new();
    for v in r.mins.iter().chain(r.maxs.iter()) {
        expected.extend_from_slice(&v.to_ne_bytes());
    }
    assert_eq!(bytes.to_vec(), expected);
    assert_ne!(bytes.to_vec(), vec![0u8; 48]);
}

#[test]
fn bounded_and_solid_regions() {
    assert!(cell(0, 0, 0).is_bounded());
    assert!(cell(0, 0, 0).is_solid());
    let flat = SimulationBounds { mins: [0, 0, 0], maxs: [100, 0, 100] };
    assert!(!flat.is_solid());
    let far = SimulationBounds { mins: [0, 0, 0], maxs: [i64::MAX, 1, 1] };
    assert!(!far.is_bounded());
    let edge = SimulationBounds { mins: [-(1 << 61), 0, 0], maxs: [1 << 61, 1, 1] };
    assert!(edge.is_bounded());
}

#[test]
fn the_cells_that_a_box_reaches_into() {
    let reach = Aabb { mins: [-50, 0, 0], maxs: [150, 100, 1] };
    assert_eq!(
        SimulationBounds::intersecting_aabb(reach, 100),
        vec![cell(-100, 0, 0), cell(0, 0, 0), cell(100, 0, 0)]
    );
    let block = Aabb { mins: [0, -1, 99], maxs: [1, 1, 101] };
    assert_eq!(
        SimulationBounds::intersecting_aabb(block, 100),
        vec![cell(0, -100, 0), cell(0, -100, 100), cell(0, 0, 0), cell(0, 0, 100)]
    );
    let cells = SimulationBounds::intersecting_aabb(Aabb { mins: [-150, -150, -150], maxs: [150, 150, 150] }, 100);
    assert_eq!(cells.len(), 64);
    for pair in cells.windows(2) {
        assert!(pair[0] < pair[1]);
    }
}

#[test]
fn a_box_that_ends_on_a_border_does_not_reach_beyond_it() {
    let whole = Aabb { mins: [0, 0, 0], maxs: [100, 100, 100] };
    assert_eq!(SimulationBounds::intersecting_aabb(whole, 100), vec![cell(0, 0, 0)]);
    let flat = Aabb { mins: [100, 0, 0], maxs: [100, 50, 50] };
    assert!(SimulationBounds::intersecting_aabb(flat, 100).is_empty());
    let inverted = Aabb { mins: [50, 50, 50], maxs: [-50, -50, -50] };
    assert!(SimulationBounds::intersecting_aabb(inverted, 100).is_empty());
}

#[test]
fn as_bytes_is_the_coordinates_in_one_of_the_two_byte_orders() {
    let samples = [
        cell(-100, 256, 0),
        SimulationBounds { mins: [1, -1, i64::MIN], maxs: [i64::MAX, 0x0102_0304_0506_0708, -2] },
        SimulationBounds::smallest(),
    ];
    for r in samples.iter() {
        let bytes = r.as_bytes().bytes.to_vec();
        let mut little = Vec::new();
        let mut big = Vec::new();
        for v in r.mins.iter().chain(r.maxs.iter()) {
            little.extend_from_slice(&v.to_le_bytes());
            big.extend_from_slice(&v.to_be_bytes());
        }
        assert_eq!(bytes.len(), 48);
        assert!(bytes == little || bytes == big);
        assert_eq!(bytes == little, 1u16.to_ne_bytes() == 1u16.to_le_bytes());
    }
    let one = SimulationBounds { mins: [1, -1, 0], maxs: [0, 0, 256] }.as_bytes().bytes;
    // The first coordinate is one: its least significant byte stands first or last.
    assert!(one[0] == 1 || one[7] == 1);
    assert_eq!(one[0] as u32 + one[7] as u32, 1);
    // The second coordinate is minus one: all its bits are set.
    assert_eq!(&one[8..16], &[0xffu8; 8]);
    // The last coordinate is 256: its second byte from the least significant end is one.
    assert!(one[41] == 1 || one[46] == 1);
}
