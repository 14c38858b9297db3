use tick_sim::{
    camera_factor, div_trunc_i128, isqrt, lerp_i64, movement_delta, saturating_add, AppState,
    Bundle, CameraOutcome, KeyState, SimError, SimTag, SimulationPlugin, StatePlugin, SurfaceSize,
    Vec3, World, BASE_MOVE_SPEED, TICK_PERIOD_NANOS,
};

const STEP: i64 = 1_066_666_624;
const DIAGONAL: i64 = 754_247_203;

fn keys() -> KeyState {
    KeyState::released()
}

fn delta(k: KeyState) -> Vec3 {
    movement_delta(&k, TICK_PERIOD_NANOS, BASE_MOVE_SPEED)
}

fn surface() -> Option<SurfaceSize> {
    Some(SurfaceSize { width: 800, height: 600 })
}

fn started() -> StatePlugin {
    let mut s = StatePlugin::new();
    let out = s.apply_transition(AppState::Simulation, surface());
    assert!(out.entered_simulation && !out.exit_requested);
    s
}

fn position_of_player(s: &StatePlugin) -> Vec3 {
    let id = s.simulation.players.as_ref().unwrap().players[0].unwrap();
    let i = s.simulation.world.index_of(id).unwrap();
    s.simulation.world.entities[i].parts.position
}

fn position_of_camera(s: &StatePlugin) -> Vec3 {
    let i = s.simulation.world.find_camera().unwrap();
    s.simulation.world.entities[i].parts.position
}

fn owned(w: &World) -> usize {
    w.entities.iter().filter(|e| e.parts.sim_tag.is_some()).count()
}

#[test]
fn no_keys_no_motion() {
    assert_eq!(delta(keys()), Vec3::new(0, 0, 0));
}

#[test]
fn single_direction_moves_full_step() {
    let mut k = keys();
    k.d = true;
    assert_eq!(delta(k), Vec3::new(STEP, 0, 0));
    let mut k = keys();
    k.left = true;
    assert_eq!(delta(k), Vec3::new(-STEP, 0, 0));
    let mut k = keys();
    k.up = true;
    assert_eq!(delta(k), Vec3::new(0, STEP, 0));
    let mut k = keys();
    k.s = true;
    assert_eq!(delta(k), Vec3::new(0, -STEP, 0));
}

#[test]
fn diagonal_is_normalized() {
    let mut k = keys();
    k.w = true;
    k.right = true;
    let d = delta(k);
    assert_eq!(d, Vec3::new(DIAGONAL, DIAGONAL, 0));
    let len = ((d.x as f64).powi(2) + (d.y as f64).powi(2)).sqrt();
    assert!((len - STEP as f64).abs() < 2.0);
}

#[test]
fn opposite_keys_cancel() {
    let mut k = keys();
    k.a = true;
    k.d = true;
    k.up = true;
    assert_eq!(delta(k), Vec3::new(0, STEP, 0));
    k.down = true;
    assert_eq!(delta(k), Vec3::new(0, 0, 0));
}

#[test]
fn integer_square_roots() {
    assert_eq!(isqrt(0), 0);
    assert_eq!(isqrt(15), 3);
    assert_eq!(isqrt(16), 4);
    assert_eq!(isqrt(u128::MAX), u64::MAX);
}

#[test]
fn camera_factor_is_clamped() {
    assert_eq!(camera_factor(0), 0);
    assert_eq!(camera_factor(TICK_PERIOD_NANOS), 66_666_664);
    assert_eq!(camera_factor(125_000_000), 1_000_000_000);
    assert_eq!(camera_factor(2_000_000_000), 1_000_000_000);
    assert_eq!(camera_factor(u64::MAX), 1_000_000_000);
}

#[test]
fn lerp_rounds_toward_current() {
    assert_eq!(lerp_i64(0, 100, 500_000_000), 50);
    assert_eq!(lerp_i64(0, -101, 500_000_000), -50);
    assert_eq!(lerp_i64(i64::MIN, i64::MAX, 1_000_000_000), i64::MAX);
    assert_eq!(lerp_i64(7, -3, 0), 7);
}

#[test]
fn truncating_division() {
    assert_eq!(div_trunc_i128(-7, 2), -3);
    assert_eq!(div_trunc_i128(7, 2), 3);
}

#[test]
fn saturating_addition() {
    assert_eq!(saturating_add(i64::MAX, 1), i64::MAX);
    assert_eq!(saturating_add(i64::MIN, -1), i64::MIN);
    assert_eq!(saturating_add(2, -5), -3);
}

#[test]
fn end_to_end_move_right() {
    let mut s = started();
    assert_eq!(position_of_camera(&s), Vec3::new(400_000_000_000, 300_000_000_000, 0));
    assert_eq!(position_of_player(&s), Vec3::new(0, 0, 0));
    let mut k = keys();
    k.right = true;
    let (input, camera) = s.tick(&k).unwrap();
    assert!(input.player_moved && !input.exit_requested);
    assert_eq!(camera, CameraOutcome::Moved);
    assert_eq!(position_of_player(&s), Vec3::new(STEP, 0, 0));
    assert_eq!(position_of_camera(&s), Vec3::new(373_404_445_506, 280_000_000_800, 0));
}

#[test]
fn spawn_creates_expected_entities() {
    let s = started();
    let w = &s.simulation.world;
    assert_eq!(w.entities.len(), 3);
    assert_eq!(owned(w), 3);
    assert_eq!(s.simulation.tick_period_nanos, TICK_PERIOD_NANOS);
    assert!(s.simulation.msaa_off);
    let players = s.simulation.players.as_ref().unwrap();
    assert_eq!(players.players.len(), 1);
    let p = w.entities[2].parts.player.as_ref().unwrap();
    assert_eq!(p.name, "Tester");
    assert_eq!((p.color.r, p.color.g, p.color.b, p.color.a), (0, 255, 0, 255));
    assert!(w.entities[1].parts.top_text.is_some());
}

#[test]
fn missing_surface_requests_exit_and_spawns_nothing() {
    let mut s = StatePlugin::new();
    let out = s.apply_transition(AppState::Simulation, None);
    assert!(out.entered_simulation && out.exit_requested);
    assert_eq!(s.simulation.world.entities.len(), 0);
    assert!(s.simulation.players.is_none());
    let (input, camera) = s.tick(&keys()).unwrap();
    assert!(!input.player_moved);
    assert_eq!(camera, CameraOutcome::NothingTracked);
    let mut sim = SimulationPlugin::new();
    assert_eq!(sim.spawn_sim(None), Err(SimError::FatalResourceUnavailable));
}

#[test]
fn leaving_destroys_owned_entities() {
    let mut s = StatePlugin::new();
    let other = s.simulation.world.spawn(Bundle {
        parent: None,
        sim_tag: None,
        top_text: None,
        camera: false,
        player: None,
        position: Vec3::new(1, 2, 3),
    });
    assert_eq!(owned(&s.simulation.world), 0);
    s.apply_transition(AppState::Simulation, surface());
    assert_eq!(owned(&s.simulation.world), 3);
    let out = s.apply_transition(AppState::Menu, surface());
    assert!(out.exited_simulation && !out.entered_simulation);
    assert_eq!(owned(&s.simulation.world), 0);
    assert_eq!(s.simulation.world.entities.len(), 1);
    assert_eq!(s.simulation.world.entities[0].id, other);
    assert!(s.simulation.players.is_none());
    assert!(!s.simulation.msaa_off);
    s.apply_transition(AppState::Simulation, surface());
    assert_eq!(owned(&s.simulation.world), 3);
}

#[test]
fn transition_to_current_state_is_no_op() {
    let mut s = started();
    let out = s.apply_transition(AppState::Simulation, surface());
    assert!(!out.entered_simulation && !out.exited_simulation && !out.exit_requested);
    assert_eq!(s.simulation.world.entities.len(), 3);
    let mut l = StatePlugin::new();
    let out = l.apply_transition(AppState::Loading, None);
    assert!(!out.entered_simulation && !out.exited_simulation);
    assert_eq!(l.state, AppState::Loading);
}

#[test]
fn systems_do_not_run_outside_simulation() {
    let mut s = StatePlugin::new();
    let mut k = keys();
    k.escape = true;
    assert!(s.tick(&k).is_none());
    assert_eq!(s.state, AppState::default());
}

#[test]
fn one_press_one_exit_request() {
    let mut s = started();
    let mut k = keys();
    k.escape = true;
    let mut requests = 0;
    for _ in 0..5 {
        if s.tick(&k).unwrap().0.exit_requested {
            requests += 1;
        }
    }
    assert_eq!(requests, 1);
    assert!(!s.tick(&keys()).unwrap().0.exit_requested);
    assert!(s.tick(&k).unwrap().0.exit_requested);
}

#[test]
fn empty_slot_skips_movement() {
    let mut s = started();
    s.simulation.players.as_mut().unwrap().players[0] = None;
    let mut k = keys();
    k.w = true;
    let (input, _) = s.tick(&k).unwrap();
    assert!(!input.player_moved);
}

#[test]
fn player_is_pinned_to_plane() {
    let mut s = started();
    let i = s.simulation.world.entities.len() - 1;
    s.simulation.world.entities[i].parts.position = Vec3::new(5, 6, 77);
    let mut k = keys();
    k.a = true;
    s.tick(&k).unwrap();
    assert_eq!(position_of_player(&s), Vec3::new(5 - STEP, 6, 0));
}

#[test]
fn single_tracked_entity_is_the_mean() {
    let mut s = started();
    s.simulation.tick_period_nanos = 125_000_000;
    let i = s.simulation.world.entities.len() - 1;
    s.simulation.world.entities[i].parts.position = Vec3::new(-9, 11, 0);
    assert_eq!(s.simulation.world.tracked_center(), Some(Vec3::new(-9, 11, 0)));
    assert_eq!(s.simulation.update_sim(), CameraOutcome::Moved);
    assert_eq!(position_of_camera(&s), Vec3::new(-9, 11, 0));
}

#[test]
fn mean_of_two_rounds_toward_zero() {
    let mut w = World::new();
    for x in [-3i64, 0] {
        w.spawn(Bundle {
            parent: None,
            sim_tag: Some(SimTag),
            top_text: None,
            camera: false,
            player: Some(tick_sim::Player { name: "p".to_string(), color: tick_sim::Rgba { r: 1, g: 2, b: 3, a: 4 } }),
            position: Vec3::new(x, 5, 0),
        });
    }
    assert_eq!(w.tracked_center(), Some(Vec3::new(-1, 5, 0)));
}

#[test]
fn camera_update_is_guarded() {
    let mut sim = SimulationPlugin::new();
    assert_eq!(sim.update_sim(), CameraOutcome::NothingTracked);
    sim.spawn_sim(surface()).unwrap();
    sim.world.spawn(Bundle {
        parent: None,
        sim_tag: Some(SimTag),
        top_text: None,
        camera: true,
        player: None,
        position: Vec3::new(0, 0, 0),
    });
    let before: Vec<Vec3> = sim.world.entities.iter().map(|e| e.parts.position).collect();
    assert_eq!(sim.update_sim(), CameraOutcome::CameraNotUnique);
    let after: Vec<Vec3> = sim.world.entities.iter().map(|e| e.parts.position).collect();
    assert_eq!(before, after);
}

fn plain(parent: Option<tick_sim::EntityId>, owned: bool) -> Bundle {
    Bundle {
        parent,
        sim_tag: if owned { Some(SimTag) } else { None },
        top_text: None,
        camera: false,
        player: None,
        position: Vec3::new(0, 0, 0),
    }
}

#[test]
fn teardown_destroys_descendants() {
    let mut s = StatePlugin::new();
    let keep = s.simulation.world.spawn(plain(None, false));
    s.apply_transition(AppState::Simulation, surface());
    let camera = s.simulation.world.entities[1].id;
    let child = s.simulation.world.spawn(plain(Some(camera), false));
    s.simulation.world.spawn(plain(Some(child), false));
    let kept_child = s.simulation.world.spawn(plain(Some(keep), false));
    assert_eq!(s.simulation.world.entities.len(), 7);
    s.apply_transition(AppState::Menu, None);
    let ids: Vec<_> = s.simulation.world.entities.iter().map(|e| e.id).collect();
    assert_eq!(ids, vec![keep, kept_child]);
}

#[test]
fn teardown_destroys_child_created_before_its_parent() {
    let mut s = StatePlugin::new();
    let keep = s.simulation.world.spawn(plain(None, false));
    let early_child = s.simulation.world.spawn(plain(None, false));
    let grandchild = s.simulation.world.spawn(plain(Some(early_child), false));
    s.apply_transition(AppState::Simulation, surface());
    let camera = s.simulation.world.entities[3].id;
    assert!(s.simulation.world.entities[3].parts.camera);
    s.simulation.world.entities[1].parts.parent = Some(camera);
    assert_eq!(s.simulation.world.entities[2].id, grandchild);
    s.apply_transition(AppState::Menu, None);
    let ids: Vec<_> = s.simulation.world.entities.iter().map(|e| e.id).collect();
    assert_eq!(ids, vec![keep]);
}

#[test]
fn teardown_keeps_unowned_parent_cycle() {
    let mut w = World::new();
    let a = w.spawn(plain(None, false));
    let b = w.spawn(plain(Some(a), false));
    w.entities[0].parts.parent = Some(b);
    w.spawn(plain(None, true));
    w.despawn_owned();
    let ids: Vec<_> = w.entities.iter().map(|e| e.id).collect();
    assert_eq!(ids, vec![a, b]);
}

#[test]
fn round_trip_restores_previous_entities() {
    let mut s = StatePlugin::new();
    let a = s.simulation.world.spawn(plain(None, false));
    let b = s.simulation.world.spawn(plain(Some(a), false));
    s.apply_transition(AppState::Simulation, surface());
    let mut k = keys();
    k.d = true;
    k.w = true;
    for _ in 0..4 {
        s.tick(&k).unwrap();
    }
    assert_eq!(s.simulation.world.entities.len(), 5);
    s.apply_transition(AppState::Loading, None);
    let ids: Vec<_> = s.simulation.world.entities.iter().map(|e| e.id).collect();
    assert_eq!(ids, vec![a, b]);
    assert_eq!(s.simulation.world.entities[1].parts.parent, Some(a));
}
