use steadyum::api_types::env::{read_port, Config, ConfigError};
use steadyum::api_types::partitionner::{
    SceneUuid, ACK_ENDPOINT, ASSIGN_RUNNER_ENDPOINT, CLIENT_INPUT_ENDPOINT, CREATE_SCENE_ENDPOINT,
    GET_EXES, HEARTBEAT, INSERT_OBJECTS_ENDPOINT, LIST_REGIONS_ENDPOINT, LIST_SCENES_ENDPOINT,
    NUM_INTERNAL_STEPS, REGISTER_CHILD_ENDPOINT, REMOVE_SCENE_ENDPOINT,
    RUNNER_INITIALIZED_ENDPOINT, SHUTDOWN, START_STOP_ENDPOINT, STEP_ENDPOINT,
};
use steadyum::api_types::region_db::AsyncPartitionnerServer;
use steadyum::api_types::serialization::{deserialize, serialize, DecodeError, MAX_FRAME_LEN};
use steadyum::api_types::simulation::SimulationBounds;
use steadyum::api_types::zenoh::{
    runner_zenoh_ack_key, runner_zenoh_commands_key, zenoh_storage_key,
};
use steadyum::runner::cli::CliArgs;

#[test]
fn storage_key_prefixes_the_name() {
    assert_eq!(zenoh_storage_key("abc"), "steadyum/kv/abc");
    assert_eq!(zenoh_storage_key(""), "steadyum/kv/");
    assert_eq!(zenoh_storage_key("a/b?c"), "steadyum/kv/a/b?c");
}

#[test]
fn commands_key_names_the_worker() {
    assert_eq!(
        runner_zenoh_commands_key(0xa1a2a3a4_b1b2_c1c2_d1d2_d3d4d5d6d7d8),
        "runner/a1a2a3a4-b1b2-c1c2-d1d2-d3d4d5d6d7d8"
    );
    let id = uuid::Uuid::new_v4();
    assert_eq!(runner_zenoh_commands_key(id.as_u128()), format!("runner/{}", id.to_string()));
}

#[test]
fn ack_key_names_scene_and_region() {
    let region = SimulationBounds { mins: [0, 0, 0], maxs: [100, 100, 100] };
    assert_eq!(
        runner_zenoh_ack_key(SceneUuid(2), &region),
        "ack/00000000-0000-0000-0000-000000000002/0_0_0__100_100_100"
    );
}

#[test]
fn the_paths_of_the_control_plane() {
    assert_eq!(SHUTDOWN, "/shutdown");
    assert_eq!(HEARTBEAT, "/heartbeat");
    assert_eq!(GET_EXES, "/getbins");
    assert_eq!(RUNNER_INITIALIZED_ENDPOINT, "/initialized");
    assert_eq!(ASSIGN_RUNNER_ENDPOINT, "/region");
    assert_eq!(INSERT_OBJECTS_ENDPOINT, "/insert");
    assert_eq!(LIST_REGIONS_ENDPOINT, "/list_regions");
    assert_eq!(LIST_SCENES_ENDPOINT, "/list_scenes");
    assert_eq!(START_STOP_ENDPOINT, "/start_stop");
    assert_eq!(CREATE_SCENE_ENDPOINT, "/create_scene");
    assert_eq!(REMOVE_SCENE_ENDPOINT, "/remove_scene");
    assert_eq!(REGISTER_CHILD_ENDPOINT, "/register_child");
    assert_eq!(ACK_ENDPOINT, "/ack");
    assert_eq!(STEP_ENDPOINT, "/step");
    assert_eq!(CLIENT_INPUT_ENDPOINT, "/input");
    assert_eq!(NUM_INTERNAL_STEPS, 10);
}

#[test]
fn a_fresh_scene_has_a_random_name() {
    let a = SceneUuid::default();
    let b = SceneUuid::default();
    assert_ne!(a, b);
    let id = uuid::Uuid::from_u128(a.0);
    assert_eq!(id.get_version_num(), 4);
    assert_eq!(id.get_variant(), uuid::Variant::RFC4122);
}

#[test]
fn worker_arguments_are_read_in_little_endian_order() {
    let args = CliArgs {
        uuid: 0xa1a2a3a4b1b2c1c2d1d2d3d4d5d6d7d8,
        scene_uuid: 1,
        time_origin: 0,
        dev: false,
    };
    assert_eq!(args.typed_uuid(), 0xd8d7d6d5d4d3d2d1c2c1b2b1a4a3a2a1);
    assert_eq!(args.typed_scene_uuid(), 1u128 << 120);
    let id = uuid::Uuid::new_v4();
    let written = CliArgs { uuid: id.to_u128_le(), scene_uuid: 0, time_origin: 0, dev: true };
    assert_eq!(written.typed_uuid(), id.as_u128());
}

#[test]
fn a_frame_starts_with_the_length_of_its_payload() {
    let payload = b"Hello people, what's up?".to_vec();
    let frame = serialize(&payload);
    assert_eq!(&frame[..4], &(payload.len() as u32).to_le_bytes());
    assert_ne!(frame, payload);
    assert_eq!(frame, lz4_flex::block::compress_prepend_size(&payload));
}

#[test]
fn what_is_framed_comes_out_unchanged() {
    let samples: Vec<Vec<u8>> = vec![
        vec![],
        vec![0],
        b"abc".to_vec(),
        vec![7u8; 10_000],
        (0..=255u8).cycle().take(5000).collect(),
    ];
    for payload in samples.iter() {
        let frame = serialize(payload);
        assert_eq!(deserialize(&frame).unwrap(), *payload);
    }
}

#[test]
fn a_long_run_is_framed_shorter_than_it_is() {
    let payload = vec![7u8; 10_000];
    let frame = serialize(&payload);
    assert!(frame.len() < payload.len());
}

#[test]
fn a_frame_without_length_is_refused() {
    assert_eq!(deserialize(&[]), Err(DecodeError::ExpectedAnotherByte));
    assert_eq!(deserialize(&[1, 0, 0]), Err(DecodeError::ExpectedAnotherByte));
}

#[test]
fn a_damaged_frame_is_refused() {
    // Announces three bytes and holds a literal of fifteen and more.
    assert!(deserialize(&[3, 0, 0, 0, 0xf0]).is_err());
    let mut frame = serialize(&vec![1u8, 2, 3, 4, 5, 6, 7, 8]);
    frame.truncate(frame.len() - 2);
    assert!(deserialize(&frame).is_err());
}

#[test]
fn a_frame_that_is_too_long_is_refused_unread() {
    let frame = vec![0u8; MAX_FRAME_LEN + 1];
    assert_eq!(deserialize(&frame), Err(DecodeError::FrameTooLong));
}

#[test]
fn settings_have_their_defaults() {
    let c = Config::from_values(None, None, None, None, None, None).unwrap();
    assert_eq!(c.redis_addr, "redis://127.0.0.1");
    assert_eq!(c.partitionner_addr, "http://localhost");
    assert_eq!(c.partitionner_port, 3535);
    assert_eq!(c.runner_exe, "steadyum-runner.exe");
    assert_eq!(c.priv_net_int, "ens4");
    assert_eq!(c.zenoh_router, "tcp/162.19.70.139:7447");
}

#[test]
fn settings_take_the_values_given() {
    let c = Config::from_values(
        Some("redis://10.0.0.1".to_string()),
        Some("http://10.0.0.2".to_string()),
        Some("8080".to_string()),
        Some("./runner".to_string()),
        Some("eth0".to_string()),
        Some("".to_string()),
    )
    .unwrap();
    assert_eq!(c.redis_addr, "redis://10.0.0.1");
    assert_eq!(c.partitionner_addr, "http://10.0.0.2");
    assert_eq!(c.partitionner_port, 8080);
    assert_eq!(c.runner_exe, "./runner");
    assert_eq!(c.priv_net_int, "eth0");
    assert_eq!(c.zenoh_router, "");
}

#[test]
fn a_port_that_is_no_port_is_refused() {
    for bad in ["", "65536", "-1", "http", "80 ", "99999999999999999999"] {
        let r = Config::from_values(None, None, Some(bad.to_string()), None, None, None);
        assert_eq!(r.err(), Some(ConfigError::InvalidPort));
    }
}

#[test]
fn ports_are_read_as_the_standard_library_reads_them() {
    for text in ["0", "80", "+80", "0080", "65535", "65536", "-0", "", "+", "8o", " 80"] {
        assert_eq!(read_port(text), text.parse::<u16>().ok());
    }
}

#[test]
fn the_address_of_a_path_on_a_coordinator() {
    let server = AsyncPartitionnerServer::with_endpoint("http://10.0.0.2".to_string(), 3535);
    assert_eq!(server.endpoint(STEP_ENDPOINT), "http://10.0.0.2:3535/step");
    assert_eq!(server.endpoint(""), "http://10.0.0.2:3535");
    let zero = AsyncPartitionnerServer::with_endpoint("h".to_string(), 0);
    assert_eq!(zero.endpoint("/x"), "h:0/x");
    let last = AsyncPartitionnerServer::with_endpoint("h".to_string(), 65535);
    assert_eq!(last.endpoint("/x"), "h:65535/x");
}

#[test]
fn coordinators_named_by_the_settings() {
    let c = Config::from_values(None, Some("http://m".to_string()), Some("9".to_string()), None, None, None)
        .unwrap();
    assert_eq!(AsyncPartitionnerServer::new(&c).endpoint(ACK_ENDPOINT), "http://m:9/ack");
    assert_eq!(AsyncPartitionnerServer::local(&c).endpoint(ACK_ENDPOINT), "http://localhost:9/ack");
}

#[test]
fn a_damaged_frame_is_refused_for_what_is_wrong_with_it() {
    // Each frame announces ten bytes; what follows is a block that is damaged in one way.
    let frames: Vec<Vec<u8>> = vec![
        // One literal, then a match at offset zero.
        vec![10, 0, 0, 0, 0x10, b'a', 0, 0],
        // One literal, then a match that starts before the payload does.
        vec![10, 0, 0, 0, 0x10, b'a', 5, 0],
        // Five literals are announced and two are there.
        vec![10, 0, 0, 0, 0x50, b'a', b'b'],
        // One byte is announced and five literals follow.
        vec![1, 0, 0, 0, 0x50, b'a', b'b', b'c', b'd', b'e'],
        // The length of the literals goes on beyond the end.
        vec![10, 0, 0, 0, 0xf0, 0xff],
        // A match without its offset.
        vec![10, 0, 0, 0, 0x10, b'a', 1],
        vec![10, 0, 0, 0],
    ];
    let mut seen = Vec::new();
    for frame in frames.iter() {
        let ours = deserialize(frame);
        let theirs = lz4_flex::block::decompress_size_prepended(frame);
        match (ours, theirs) {
            (Ok(a), Ok(b)) => assert_eq!(a, b),
            (Err(a), Err(b)) => {
                assert_eq!(format!("{:?}", a), format!("{:?}", b));
                seen.push(a);
            }
            (a, b) => panic!("{:?} and {:?} disagree on {:?}", a, b, frame),
        }
    }
    assert!(seen.contains(&DecodeError::OffsetZero));
    assert!(seen.contains(&DecodeError::OffsetOutOfBounds));
    assert!(seen.contains(&DecodeError::LiteralOutOfBounds));
    assert!(seen.contains(&DecodeError::ExpectedAnotherByte));
    assert!(seen.iter().any(|e| matches!(e, DecodeError::OutputTooSmall { .. })));
}

#[test]
fn an_identifier_is_written_in_five_groups_of_lower_case_digits() {
    assert_eq!(
        runner_zenoh_commands_key(0x0123_4567_89ab_cdef_0011_2233_4455_6677),
        "runner/01234567-89ab-cdef-0011-223344556677"
    );
    assert_eq!(runner_zenoh_commands_key(u128::MAX), "runner/ffffffff-ffff-ffff-ffff-ffffffffffff");
    assert_eq!(runner_zenoh_commands_key(0), "runner/00000000-0000-0000-0000-000000000000");
}
