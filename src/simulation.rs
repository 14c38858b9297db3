use crate::geometry::{
    camera_factor, factor_spec, lerp_coord, lerp_i64, Vec3, CAMERA_SNAP_MULT, FACTOR_SCALE,
    UNITS_PER_WORLD_UNIT,
};
use crate::input::{
    component_len, delta_x, delta_y, exit_request, lemma_diagonal_len, movement_delta, KeyState,
};
use crate::world::{
    camera_count, camera_followed, clamp_i64, follow, step_to, is_tracked, lemma_mean_in_range,
    lemma_sum_bounds, moved, retained, tracked_count, tracked_mean, tracked_sum, Bundle, EntityId,
    EntityRecord, Player, Players, Rgba, SimTag, TopText, World,
};
use vstd::arithmetic::div_mod::lemma_div_by_multiple;
use vstd::prelude::*;

verus! {

/// The player's speed, in world units per second.
pub const BASE_MOVE_SPEED: u64 = 128;

/// The tick period that entering the simulation sets: 1/120 s, in nanoseconds.
pub const TICK_PERIOD_NANOS: u64 = 8_333_333;

/// The tick period before the simulation sets its own: 1/60 s, in nanoseconds.
pub const DEFAULT_TICK_PERIOD_NANOS: u64 = 16_666_667;

/// The largest tick period for which a tick's displacement fits the position
/// type: `BASE_MOVE_SPEED * MAX_TICK_PERIOD_NANOS <= i64::MAX`.
pub const MAX_TICK_PERIOD_NANOS: u64 = 72_057_594_037_927_935;

/// The size of the primary display surface, in logical pixels.
#[derive(Clone, Copy, Debug, PartialEq, Eq, Structural)]
pub struct SurfaceSize {
    pub width: u32,
    pub height: u32,
}

/// What can go wrong in the simulation subsystem.
#[derive(Clone, Copy, Debug, PartialEq, Eq, Structural)]
pub enum SimError {
    /// The primary display surface was missing on entering the simulation:
    /// nothing was spawned and the application is asked to exit.
    FatalResourceUnavailable,
}

/// The entities that entering the simulation created.
#[derive(Clone, Copy, Debug, PartialEq, Eq, Structural)]
pub struct Spawned {
    pub camera: EntityId,
    pub top_text: EntityId,
    pub player: EntityId,
}

/// What one tick of input handling did.
#[derive(Clone, Copy, Debug, PartialEq, Eq, Structural)]
pub struct InputOutcome {
    /// The exit key was pressed in this tick: the application is asked to exit.
    pub exit_requested: bool,
    /// The player of slot 0 exists and was moved.
    pub player_moved: bool,
}

/// What one tick of camera tracking did.
#[derive(Clone, Copy, Debug, PartialEq, Eq, Structural)]
pub enum CameraOutcome {
    /// The camera moved toward the mean of the tracked entities.
    Moved,
    /// No entity is tracked: the mean is undefined and the camera stays.
    NothingTracked,
    /// There is no camera, or more than one: the update is skipped this tick.
    CameraNotUnique,
}

/// The player of slot 0, if the slots exist and that one is filled.
pub open spec fn first_slot(p: Option<Players>) -> Option<EntityId> {
    match p {
        Some(ps) => if ps.players@.len() > 0 {
            ps.players@[0]
        } else {
            None
        },
        None => None,
    }
}

/// The displacement of one tick with `keys` held and tick period `period`.
pub open spec fn tick_delta(keys: KeyState, period: u64) -> Vec3 {
    let step = (BASE_MOVE_SPEED * period) as nat;
    Vec3 { x: delta_x(keys, step) as i64, y: delta_y(keys, step) as i64, z: 0 }
}

/// The camera that entering the simulation creates: centered on the surface.
pub open spec fn camera_bundle(surface: SurfaceSize) -> Bundle {
    Bundle {
        parent: None,
        sim_tag: Some(SimTag),
        top_text: None,
        camera: true,
        player: None,
        position: Vec3 {
            x: (surface.width * (UNITS_PER_WORLD_UNIT / 2)) as i64,
            y: (surface.height * (UNITS_PER_WORLD_UNIT / 2)) as i64,
            z: 0,
        },
    }
}

/// The status overlay that entering the simulation creates.
pub open spec fn top_text_bundle() -> Bundle {
    Bundle {
        parent: None,
        sim_tag: Some(SimTag),
        top_text: Some(TopText),
        camera: false,
        player: None,
        position: Vec3 { x: 0, y: 0, z: 0 },
    }
}

/// The default player color: opaque green.
pub open spec fn default_color() -> Rgba {
    Rgba { r: 0, g: 255, b: 0, a: 255 }
}

/// What the hook run on entering the simulation does to the subsystem `a`,
/// giving `b` and the result `r`.
pub open spec fn spawn_effect(
    a: SimulationPlugin,
    surface: Option<SurfaceSize>,
    b: SimulationPlugin,
    r: Result<Spawned, SimError>,
) -> bool {
    &&& b.exit_key_held == a.exit_key_held
    &&& surface is None ==> r == Err::<Spawned, SimError>(SimError::FatalResourceUnavailable) && b
        == a
    &&& surface matches Some(size) ==> r matches Ok(sp) && {
        let s = a.world.entities@;
        let n = a.world.next_id;
        let t = b.world.entities@;
        &&& sp.camera.raw == n && sp.top_text.raw == n + 1 && sp.player.raw == n + 2
        &&& b.world.next_id == n + 3
        &&& t.len() == s.len() + 3
        &&& t.take(s.len() as int) == s
        &&& t[s.len() as int] == EntityRecord { id: sp.camera, parts: camera_bundle(size) }
        &&& t[s.len() as int + 1] == EntityRecord { id: sp.top_text, parts: top_text_bundle() }
        &&& t[s.len() as int + 2].id == sp.player
        &&& t[s.len() as int + 2].parts.parent is None
        &&& t[s.len() as int + 2].parts.sim_tag == Some(SimTag)
        &&& t[s.len() as int + 2].parts.top_text is None
        &&& !t[s.len() as int + 2].parts.camera
        &&& t[s.len() as int + 2].parts.position == Vec3 { x: 0, y: 0, z: 0 }
        &&& t[s.len() as int + 2].parts.player matches Some(p) && p.name@ == "Tester"@ && p.color
            == default_color()
        &&& b.players matches Some(ps) && ps.players@ == seq![Some(sp.player)]
        &&& b.tick_period_nanos == TICK_PERIOD_NANOS
        &&& b.msaa_off
    }
}

/// What one fixed tick does to the subsystem `a` with `keys` held, giving `b`
/// and the outcomes `r`.
pub open spec fn tick_effect(
    a: SimulationPlugin,
    keys: KeyState,
    b: SimulationPlugin,
    r: (InputOutcome, CameraOutcome),
) -> bool {
    let m = moved(a.world.entities@, first_slot(a.players), tick_delta(keys, a.tick_period_nanos));
    &&& b.players == a.players
    &&& b.tick_period_nanos == a.tick_period_nanos
    &&& b.msaa_off == a.msaa_off
    &&& b.world.next_id == a.world.next_id
    &&& r.0.exit_requested == exit_request(a.exit_key_held, keys.escape)
    &&& b.exit_key_held == keys.escape
    &&& tracked_count(m) == 0 ==> r.1 == CameraOutcome::NothingTracked && b.world.entities@ == m
    &&& tracked_count(m) > 0 && camera_count(m) != 1 ==> r.1 == CameraOutcome::CameraNotUnique
        && b.world.entities@ == m
    &&& tracked_count(m) > 0 && camera_count(m) == 1 ==> r.1 == CameraOutcome::Moved
        && b.world.entities@ == camera_followed(m, factor_spec(a.tick_period_nanos as int))
}

/// The simulation subsystem: the world, the player slots, the tick period,
/// the pixel-exact rendering override and the exit key's state in the last
/// tick. The slots exist only while the simulation is active.
pub struct SimulationPlugin {
    pub world: World,
    pub players: Option<Players>,
    pub tick_period_nanos: u64,
    pub msaa_off: bool,
    pub exit_key_held: bool,
}

impl SimulationPlugin {
    pub open spec fn wf(&self) -> bool {
        &&& self.world.wf()
        &&& self.tick_period_nanos <= MAX_TICK_PERIOD_NANOS
    }

    /// A subsystem with an empty world, no slots and the default tick period.
    pub fn new() -> (r: SimulationPlugin)
        ensures
            r.wf(),
            r.world.entities@.len() == 0,
            r.world.next_id == 0,
            r.players is None,
            r.tick_period_nanos == DEFAULT_TICK_PERIOD_NANOS,
            !r.msaa_off,
            !r.exit_key_held,
    {
        SimulationPlugin {
            world: World::new(),
            players: None,
            tick_period_nanos: DEFAULT_TICK_PERIOD_NANOS,
            msaa_off: false,
            exit_key_held: false,
        }
    }

    /// The hook run on entering the simulation. With no surface nothing
    /// changes and the error asks for exit. Otherwise: the tick period becomes
    /// `TICK_PERIOD_NANOS`, the rendering override is set, a camera centered on
    /// the surface, the status overlay and a default player at the origin are
    /// spawned in that order, and slot 0 (of one slot) holds the player.
    pub fn spawn_sim(&mut self, surface: Option<SurfaceSize>) -> (r: Result<Spawned, SimError>)
        requires
            old(self).wf(),
            old(self).world.next_id + 3 <= u64::MAX,
        ensures
            final(self).wf(),
            final(self).exit_key_held == old(self).exit_key_held,
            spawn_effect(*old(self), surface, *final(self), r),
    {
        let size = match surface {
            Some(size) => size,
            None => {
                return Err(SimError::FatalResourceUnavailable);
            },
        };
        let ghost s = self.world.entities@;
        self.tick_period_nanos = TICK_PERIOD_NANOS;
        self.msaa_off = true;
        let half: u64 = UNITS_PER_WORLD_UNIT / 2;
        assert(size.width * half <= i64::MAX && size.height * half <= i64::MAX) by (nonlinear_arith)
            requires
                size.width <= u32::MAX,
                size.height <= u32::MAX,
                half == 500_000_000,
        ;
        let cx: u64 = size.width as u64 * half;
        let cy: u64 = size.height as u64 * half;
        let camera = self.world.spawn(
            Bundle {
                parent: None,
                sim_tag: Some(SimTag),
                top_text: None,
                camera: true,
                player: None,
                position: Vec3 { x: cx as i64, y: cy as i64, z: 0 },
            },
        );
        let top_text = self.world.spawn(
            Bundle {
                parent: None,
                sim_tag: Some(SimTag),
                top_text: Some(TopText),
                camera: false,
                player: None,
                position: Vec3 { x: 0, y: 0, z: 0 },
            },
        );
        let player = self.world.spawn(
            Bundle {
                parent: None,
                sim_tag: Some(SimTag),
                top_text: None,
                camera: false,
                player: Some(
                    Player { name: "Tester".to_owned(), color: Rgba { r: 0, g: 255, b: 0, a: 255 } },
                ),
                position: Vec3 { x: 0, y: 0, z: 0 },
            },
        );
        self.players = Some(Players { players: vec![Some(player)] });
        proof {
            let t = self.world.entities@;
            assert(t.take(s.len() as int) =~= s);
            assert(t[s.len() as int].parts == camera_bundle(size));
            assert(t[s.len() as int + 1].parts == top_text_bundle());
            assert(self.players matches Some(ps) && ps.players@ == seq![Some(player)]);
            assert(t[s.len() as int + 2].parts.player matches Some(p) && p.name@ == "Tester"@);
            assert(t.len() == s.len() + 3);
        }
        Ok(Spawned { camera, top_text, player })
    }

    /// The hook run on leaving the simulation: every simulation-owned entity
    /// is destroyed, the slots are discarded and the rendering override is
    /// reverted.
    pub fn despawn_sim(&mut self)
        requires
            old(self).wf(),
        ensures
            final(self).wf(),
            final(self).world.entities@ == retained(old(self).world.entities@),
            final(self).world.next_id == old(self).world.next_id,
            final(self).players is None,
            !final(self).msaa_off,
            final(self).tick_period_nanos == old(self).tick_period_nanos,
            final(self).exit_key_held == old(self).exit_key_held,
    {
        self.msaa_off = false;
        self.players = None;
        self.world.despawn_owned();
    }

    /// One tick of input: the exit key asks for exit on the tick it is
    /// pressed, and the player of slot 0, if it exists, moves by the
    /// normalized direction of the held keys times speed and tick period, and
    /// is pinned to the plane.
    pub fn handle_sim_input(&mut self, keys: &KeyState) -> (r: InputOutcome)
        requires
            old(self).wf(),
        ensures
            final(self).wf(),
            r.exit_requested == exit_request(old(self).exit_key_held, keys.escape),
            final(self).exit_key_held == keys.escape,
            r.player_moved == exists|i: int|
                0 <= i < old(self).world.entities@.len() && first_slot(old(self).players) == Some(
                    (#[trigger] old(self).world.entities@[i]).id,
                ) && is_tracked(old(self).world.entities@[i]),
            final(self).world.entities@ == moved(
                old(self).world.entities@,
                first_slot(old(self).players),
                tick_delta(*keys, old(self).tick_period_nanos),
            ),
            final(self).world.next_id == old(self).world.next_id,
            final(self).players == old(self).players,
            final(self).tick_period_nanos == old(self).tick_period_nanos,
            final(self).msaa_off == old(self).msaa_off,
    {
        let exit_requested = keys.escape && !self.exit_key_held;
        self.exit_key_held = keys.escape;
        let delta = movement_delta(keys, self.tick_period_nanos, BASE_MOVE_SPEED);
        let ghost s = self.world.entities@;
        let ghost target = first_slot(self.players);
        let ghost d = tick_delta(*keys, self.tick_period_nanos);
        assert(delta == d);
        let slot: Option<EntityId> = match &self.players {
            Some(ps) => if ps.players.len() > 0 {
                ps.players[0]
            } else {
                None
            },
            None => None,
        };
        let mut player_moved = false;
        if let Some(id) = slot {
            if let Some(i) = self.world.index_of(id) {
                if self.world.entities[i].parts.player.is_some() {
                    let p = self.world.entities[i].parts.position;
                    let x: i64 = saturating_add(p.x, delta.x);
                    let y: i64 = saturating_add(p.y, delta.y);
                    self.world.entities[i].parts.position = Vec3 { x, y, z: 0 };
                    player_moved = true;
                    assert(self.world.entities@ =~= moved(s, target, d));
                } else {
                    assert forall|j: int| 0 <= j < s.len() && target == Some(#[trigger] s[j].id)
                        implies !is_tracked(s[j]) by {
                        assert(s[j].id == s[i as int].id);
                    }
                    assert(self.world.entities@ =~= moved(s, target, d));
                }
            } else {
                assert(self.world.entities@ =~= moved(s, target, d));
            }
        } else {
            assert(self.world.entities@ =~= moved(s, target, d));
        }
        InputOutcome { exit_requested, player_moved }
    }

    /// One tick of camera tracking: when something is tracked and there is
    /// exactly one camera, the camera moves toward the mean position of the
    /// tracked entities by the factor that the tick period gives; otherwise
    /// nothing changes.
    pub fn update_sim(&mut self) -> (r: CameraOutcome)
        requires
            old(self).wf(),
        ensures
            final(self).wf(),
            final(self).players == old(self).players,
            final(self).tick_period_nanos == old(self).tick_period_nanos,
            final(self).msaa_off == old(self).msaa_off,
            final(self).exit_key_held == old(self).exit_key_held,
            final(self).world.next_id == old(self).world.next_id,
            tracked_count(old(self).world.entities@) == 0 ==> r == CameraOutcome::NothingTracked
                && final(self).world.entities@ == old(self).world.entities@,
            tracked_count(old(self).world.entities@) > 0 && camera_count(old(self).world.entities@)
                != 1 ==> r == CameraOutcome::CameraNotUnique && final(self).world.entities@ == old(
                self,
            ).world.entities@,
            tracked_count(old(self).world.entities@) > 0 && camera_count(old(self).world.entities@)
                == 1 ==> r == CameraOutcome::Moved && final(self).world.entities@ == camera_followed(
                old(self).world.entities@,
                factor_spec(old(self).tick_period_nanos as int),
            ),
    {
        let ghost s = self.world.entities@;
        let center = match self.world.tracked_center() {
            Some(c) => c,
            None => {
                return CameraOutcome::NothingTracked;
            },
        };
        let i = match self.world.find_camera() {
            Some(i) => i,
            None => {
                return CameraOutcome::CameraNotUnique;
            },
        };
        let f = camera_factor(self.tick_period_nanos);
        let p = self.world.entities[i].parts.position;
        let x = lerp_i64(p.x, center.x, f);
        let y = lerp_i64(p.y, center.y, f);
        let z = lerp_i64(p.z, center.z, f);
        self.world.entities[i].parts.position = Vec3 { x, y, z };
        assert(Vec3 { x, y, z } == follow(p, s, factor_spec(self.tick_period_nanos as int)));
        assert(self.world.entities@ =~= camera_followed(
            s,
            factor_spec(self.tick_period_nanos as int),
        ));
        CameraOutcome::Moved
    }

    /// One fixed tick of the active simulation: input first, so that this
    /// tick's movement is in this tick's camera target, then the camera.
    pub fn fixed_tick(&mut self, keys: &KeyState) -> (r: (InputOutcome, CameraOutcome))
        requires
            old(self).wf(),
        ensures
            final(self).wf(),
            tick_effect(*old(self), *keys, *final(self), r),
    {
        let input = self.handle_sim_input(keys);
        let camera = self.update_sim();
        (input, camera)
    }
}

/// The camera interpolation factor lies between zero and one, whatever the
/// tick period.
pub proof fn lemma_factor_in_unit_interval(period: int)
    requires
        period >= 0,
    ensures
        0 <= factor_spec(period) <= FACTOR_SCALE,
{
}

proof fn lemma_snap_coord(cur: int, target: int)
    ensures
        lerp_coord(cur, target, FACTOR_SCALE as int) == target,
{
    let d = FACTOR_SCALE as int;
    let diff = target - cur;
    if diff >= 0 {
        lemma_div_by_multiple(diff, d);
    } else {
        assert(-(diff * d) == (-diff) * d) by (nonlinear_arith);
        lemma_div_by_multiple(-diff, d);
    }
}

/// When the tick period is at least `1 / CAMERA_SNAP_MULT` seconds, the
/// factor is one and the camera lands exactly on the mean position of the
/// tracked entities.
pub proof fn lemma_full_snap(p: Vec3, s: Seq<EntityRecord>, period: int)
    requires
        period * CAMERA_SNAP_MULT >= FACTOR_SCALE,
        tracked_count(s) > 0,
    ensures
        factor_spec(period) == FACTOR_SCALE,
        follow(p, s, factor_spec(period)).x == tracked_mean(s, 0),
        follow(p, s, factor_spec(period)).y == tracked_mean(s, 1),
        follow(p, s, factor_spec(period)).z == tracked_mean(s, 2),
{
    let n = tracked_count(s) as int;
    lemma_sum_bounds(s, 0);
    lemma_sum_bounds(s, 1);
    lemma_sum_bounds(s, 2);
    lemma_mean_in_range(tracked_sum(s, 0), n);
    lemma_mean_in_range(tracked_sum(s, 1), n);
    lemma_mean_in_range(tracked_sum(s, 2), n);
    lemma_snap_coord(p.x as int, tracked_mean(s, 0));
    lemma_snap_coord(p.y as int, tracked_mean(s, 1));
    lemma_snap_coord(p.z as int, tracked_mean(s, 2));
}

/// Away from the bounds of the position type (at least speed times period
/// from them), a tick moves the player by exactly the displacement of the
/// held keys, with nothing lost to saturation, and pins it to the plane.
pub proof fn lemma_player_moves_by_delta(q: Vec3, keys: KeyState, period: u64)
    requires
        BASE_MOVE_SPEED * period <= i64::MAX,
        i64::MIN + BASE_MOVE_SPEED * period <= q.x <= i64::MAX - BASE_MOVE_SPEED * period,
        i64::MIN + BASE_MOVE_SPEED * period <= q.y <= i64::MAX - BASE_MOVE_SPEED * period,
    ensures
        step_to(q, tick_delta(keys, period)).x == q.x + delta_x(keys, (BASE_MOVE_SPEED * period) as nat),
        step_to(q, tick_delta(keys, period)).y == q.y + delta_y(keys, (BASE_MOVE_SPEED * period) as nat),
        step_to(q, tick_delta(keys, period)).z == 0,
{
    let step = (BASE_MOVE_SPEED * period) as nat;
    lemma_diagonal_len(step);
    assert(component_len(keys, step) <= step);
}

/// `a + b`, saturated at the bounds of `i64`.
pub fn saturating_add(a: i64, b: i64) -> (r: i64)
    ensures
        r == clamp_i64(a + b),
{
    let s: i128 = a as i128 + b as i128;
    if s > i64::MAX as i128 {
        i64::MAX
    } else if s < i64::MIN as i128 {
        i64::MIN
    } else {
        s as i64
    }
}

} // verus!
