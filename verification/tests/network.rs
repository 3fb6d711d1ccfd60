use rs_voxie::config::{BROADCAST_DT_NANOS, SIMULATION_DT_NANOS};
use rs_voxie::network::headless::TickSchedule;
use rs_voxie::network::meter::TrafficMeter;
use rs_voxie::network::snapshot::{
    extract_transform, interpolation, EntitySnapshot, Interpolation, Snapshot, SnapshotManager,
    INTERPOLATION_DELAY_NANOS,
};
use rs_voxie::network::time_sync::TimeSync;
use rs_voxie::network::world::NetworkWorld;

#[test]
fn meter_starts_at_zero() {
    let meter = TrafficMeter::new();
    assert_eq!(meter.downstream_bps(), 0);
    assert_eq!(meter.upstream_bps(), 0);
}

#[test]
fn meter_averages_over_window() {
    let mut meter = TrafficMeter::new();
    meter.track_downstream(1000);
    meter.track_downstream(500);
    meter.track_upstream(95);
    assert_eq!(meter.downstream_bps(), 150);
    assert_eq!(meter.upstream_bps(), 9);
}

#[test]
fn meter_forgets_after_full_window() {
    let mut meter = TrafficMeter::new();
    meter.track_downstream(1000);
    meter.advance_window_by(3);
    meter.track_upstream(20);
    assert_eq!(meter.downstream_bps(), 100);
    meter.advance_window_by(7);
    assert_eq!(meter.downstream_bps(), 0);
    assert_eq!(meter.upstream_bps(), 2);
    meter.advance_window_by(100);
    assert_eq!(meter.upstream_bps(), 0);
}

#[test]
fn meter_zero_seconds_changes_nothing() {
    let mut meter = TrafficMeter::new();
    meter.track_upstream(30);
    meter.advance_window_by(0);
    assert_eq!(meter.upstream_bps(), 3);
}

#[test]
fn time_sync_estimates_half_round_trip() {
    assert_eq!(TimeSync::estimated_server_now(1_000, 500), 1_250);
    assert_eq!(TimeSync::estimated_server_now(0, 3), 1);
}

#[test]
fn time_sync_moves_on_with_client_time() {
    let mut sync = TimeSync::new(100);
    assert_eq!(sync.last_server_time(), 0);
    assert_eq!(sync.server_time_at(160), 60);
    sync.record(5_000, 1_000);
    assert_eq!(sync.last_server_time(), 5_000);
    assert_eq!(sync.server_time_after(250), 5_250);
    assert_eq!(sync.server_time_at(1_400), 5_400);
    // a reading before the last update counts no client time
    assert_eq!(sync.server_time_at(900), 5_000);
}

fn entity(id: u32, t: i64) -> EntitySnapshot<i64> {
    EntitySnapshot { net_entity_id: id, transform: t }
}

#[test]
fn snapshot_sample_brackets_target() {
    let mut mgr: SnapshotManager<i64> = SnapshotManager::new();
    assert!(mgr.sample(0).is_none());
    mgr.store_snapshot(1, vec![entity(1, 10)]);
    mgr.store_snapshot(3, vec![entity(1, 30)]);
    mgr.store_snapshot(2, vec![entity(1, 20)]);
    let target = 2 * SIMULATION_DT_NANOS + 5;
    let (a, b) = mgr.sample(target).unwrap();
    assert_eq!(a.server_time, 2 * SIMULATION_DT_NANOS);
    assert_eq!(b.server_time, 3 * SIMULATION_DT_NANOS);
    assert!(mgr.sample(4 * SIMULATION_DT_NANOS).is_none());
    assert!(mgr.sample(0).is_none());
}

#[test]
fn snapshot_ring_overwrites_oldest() {
    let mut mgr: SnapshotManager<i64> = SnapshotManager::new();
    for frame in 0..25u32 {
        mgr.store_snapshot(frame, vec![entity(1, frame as i64)]);
    }
    // frames 0..5 were overwritten by 20..25
    assert!(mgr.sample(4 * SIMULATION_DT_NANOS).is_none());
    let (a, b) = mgr.sample(5 * SIMULATION_DT_NANOS).unwrap();
    assert_eq!(a.server_time, 5 * SIMULATION_DT_NANOS);
    assert_eq!(b.server_time, 6 * SIMULATION_DT_NANOS);
}

#[test]
fn snapshot_render_time_snaps_when_far_off() {
    let mut mgr: SnapshotManager<i64> = SnapshotManager::new();
    mgr.advance_render_time(10 * BROADCAST_DT_NANOS, 7);
    assert_eq!(mgr.render_time(), 10 * BROADCAST_DT_NANOS + 7);
    mgr.advance_render_time(10 * BROADCAST_DT_NANOS, 3);
    assert_eq!(mgr.render_time(), 10 * BROADCAST_DT_NANOS + 10);
}

#[test]
fn snapshot_target_render_time_saturates() {
    assert_eq!(SnapshotManager::<i64>::target_render_time(5), 0);
    assert_eq!(
        SnapshotManager::<i64>::target_render_time(INTERPOLATION_DELAY_NANOS + 9),
        9
    );
}

#[test]
fn snapshot_extract_finds_entity() {
    let snap = Snapshot::new(0, vec![entity(1, 10), entity(4, 40), entity(9, 90)]);
    assert_eq!(extract_transform(&snap, 4), Some(&40));
    assert_eq!(extract_transform(&snap, 9), Some(&90));
    assert_eq!(extract_transform(&snap, 5), None);
}

#[test]
fn world_spawn_maps_both_ways() {
    let mut world = NetworkWorld::new();
    let (id0, e0) = world.spawn(100, None);
    let (id1, _) = world.spawn(101, None);
    let (id7, _) = world.spawn(102, Some(7));
    assert_eq!((id0, e0), (0, 100));
    assert_eq!(id1, 1);
    assert_eq!(id7, 7);
    assert_eq!(world.get_entity_id(1), Some(101));
    assert_eq!(world.get_net_entity_id(102), Some(7));
    assert_eq!(world.get_entity_id(3), None);
}

#[test]
fn world_despawn_forgets_both_ways() {
    let mut world = NetworkWorld::new();
    world.spawn(100, None);
    assert_eq!(world.despawn_net_id(0), Ok(100));
    assert_eq!(world.get_entity_id(0), None);
    assert_eq!(world.get_net_entity_id(100), None);
    assert_eq!(
        world.despawn_net_id(0),
        Err("Could not find entity for net id {net_entity_id}".to_string())
    );
    world.spawn(200, Some(5));
    assert_eq!(world.forget_entity(200), 5);
    assert_eq!(world.get_entity_id(5), None);
}

#[test]
fn tick_schedule_hands_out_whole_ticks() {
    let mut schedule = TickSchedule::new();
    assert_eq!(schedule.on_elapsed(SIMULATION_DT_NANOS - 1), 0);
    assert_eq!(schedule.on_elapsed(1), 1);
    assert_eq!(schedule.on_elapsed(3 * SIMULATION_DT_NANOS + 5), 3);
    assert_eq!(schedule.on_elapsed(SIMULATION_DT_NANOS - 5), 1);
}

#[test]
fn meter_records_after_given_seconds() {
    let mut meter = TrafficMeter::new();
    meter.track_downstream_after(0, 100);
    meter.track_downstream_after(0, 50);
    assert_eq!(meter.downstream_bps(), 15);
    meter.track_downstream_after(9, 200);
    assert_eq!(meter.downstream_bps(), 35);
    meter.track_downstream_after(1, 10);
    // the slot holding the first 150 bytes was reached again and cleared
    assert_eq!(meter.downstream_bps(), 21);
    meter.track_upstream_after(0, 40);
    meter.track_upstream_after(25, 70);
    assert_eq!(meter.upstream_bps(), 7);
    assert_eq!(meter.downstream_bps(), 0);
}

#[test]
fn tick_schedule_loses_no_time() {
    let mut s = TickSchedule::new();
    let deltas = [10_000_000u128, 10_000_000, 20_000_000, 0, 33_333_333];
    let mut ticks = 0;
    for d in deltas {
        ticks += s.on_elapsed(d);
    }
    let total: u128 = deltas.iter().sum();
    assert_eq!(ticks, total / SIMULATION_DT_NANOS);
    assert_eq!(ticks, 4);
}

#[test]
fn meter_room_is_checked_in_the_current_slot() {
    let mut meter = TrafficMeter::new();
    assert!(meter.room_for_downstream(1000));
    meter.track_downstream_after(0, usize::MAX - 5);
    assert!(meter.room_for_downstream(5));
    assert!(!meter.room_for_downstream(6));
    assert!(meter.room_for_upstream(6));
}

#[test]
fn interpolation_uses_what_is_there() {
    let (a, b) = (1i64, 2i64);
    assert!(matches!(interpolation(Some(&a), Some(&b)), Interpolation::Between(&1, &2)));
    assert!(matches!(interpolation(Some(&a), None), Interpolation::Only(&1)));
    assert!(matches!(interpolation(None, Some(&b)), Interpolation::Only(&2)));
    assert!(matches!(interpolation::<i64>(None, None), Interpolation::Nothing));
}

#[test]
fn server_spawn_overwrites_a_client_claimed_id() {
    let mut w = NetworkWorld::new();
    assert_eq!(w.spawn(10, Some(0)), (0, 10));
    assert_eq!(w.spawn(11, None), (0, 11));
    assert_eq!(w.get_entity_id(0), Some(11));
    assert_eq!(w.get_net_entity_id(10), Some(0));
    assert_eq!(w.get_net_entity_id(11), Some(0));
}
