use rs_voxie::benchmark::SceneStats;
use rs_voxie::cameras::fpscam::FirstPersonCam;
use rs_voxie::cli::{parse_args, ArgsError, CliArgs, SceneSelection};
use rs_voxie::command_queue::CommandQueue;
use rs_voxie::meshes::objmesh::{parse_index, resolve_index};
use std::time::Instant;

fn args(v: &[&str]) -> Vec<String> {
    v.iter().map(|s| s.to_string()).collect()
}

#[test]
fn scene_names() {
    assert_eq!(SceneSelection::from_str("benchmark"), Some(SceneSelection::Benchmark));
    assert_eq!(SceneSelection::from_str("collision"), Some(SceneSelection::Collision));
    assert_eq!(SceneSelection::from_str("game"), Some(SceneSelection::Game));
    assert_eq!(SceneSelection::from_str("lighting"), Some(SceneSelection::Lighting));
    assert_eq!(SceneSelection::from_str("pong"), Some(SceneSelection::PongClient));
    assert_eq!(SceneSelection::from_str("pong-server"), Some(SceneSelection::PongServer));
    assert_eq!(SceneSelection::from_str("Game"), None);
    assert_eq!(SceneSelection::from_str(""), None);
}

#[test]
fn cli_defaults() {
    let a = CliArgs::default();
    assert_eq!(a.scene, Some(SceneSelection::Game));
    assert!(!a.headless);
    assert_eq!(a.server_address, "127.0.0.1:7777");
    let p = parse_args(&args(&["voxie"])).unwrap();
    assert_eq!(p.scene, Some(SceneSelection::Game));
    assert!(!p.headless);
    assert_eq!(p.server_address, "127.0.0.1:7777");
}

#[test]
fn cli_reads_flags() {
    let p = parse_args(&args(&[
        "voxie",
        "--scene",
        "pong",
        "--server-address",
        "10.0.0.2:9000",
        "--headless",
        "--unknown",
    ]))
    .unwrap();
    assert_eq!(p.scene, Some(SceneSelection::PongClient));
    assert!(p.headless);
    assert_eq!(p.server_address, "10.0.0.2:9000");
}

#[test]
fn cli_errors() {
    assert_eq!(
        parse_args(&args(&["voxie", "--scene", "nope"])).err(),
        Some(ArgsError::InvalidScene { given: "nope".to_string() })
    );
    assert_eq!(
        parse_args(&args(&["voxie", "--scene"])).err(),
        Some(ArgsError::ExpectedSceneValue)
    );
    assert_eq!(
        parse_args(&args(&["voxie", "--server-address"])).err(),
        Some(ArgsError::ExpectedServerAddress)
    );
}

#[test]
fn obj_indices() {
    assert_eq!(parse_index(Some("1"), 3), 0);
    assert_eq!(parse_index(Some("3"), 3), 2);
    assert_eq!(parse_index(Some("-1"), 3), 2);
    assert_eq!(parse_index(Some("-3"), 3), 0);
    assert_eq!(parse_index(None, 3), 0);
    assert_eq!(parse_index(Some("x"), 3), usize::MAX);
    assert_eq!(resolve_index(Some(5), 0), 4);
    assert_eq!(resolve_index(None, 7), usize::MAX);
}

#[test]
fn command_queue_hands_out_in_order() {
    let mut q: CommandQueue<u8> = CommandQueue::new();
    q.enqueue(1);
    q.enqueue(2);
    assert_eq!(q.drain_all(), vec![1, 2]);
    assert!(q.drain_all().is_empty());
}

#[test]
fn scene_stats_keep_values() {
    let first = Instant::now();
    let last = Instant::now();
    let s = SceneStats::new(12, first, last, "bench".to_string());
    assert_eq!(s.frame_count(), 12);
    assert_eq!(*s.first(), first);
    assert_eq!(*s.last(), last);
    assert_eq!(s.title(), "bench");
}

#[test]
fn first_person_cam_builds() {
    let _cam = FirstPersonCam::new();
}

#[test]
fn obj_index_text_forms() {
    assert_eq!(parse_index(Some("+2"), 5), 1);
    assert_eq!(parse_index(Some("-0"), 5), usize::MAX);
    assert_eq!(parse_index(Some("+"), 5), usize::MAX);
    assert_eq!(parse_index(Some("-"), 5), usize::MAX);
    assert_eq!(parse_index(Some(" 1"), 5), usize::MAX);
    assert_eq!(parse_index(Some("1_0"), 5), usize::MAX);
    assert_eq!(parse_index(Some("99999999999999999999"), 5), usize::MAX);
    assert_eq!(parse_index(Some("007"), 9), 6);
}
