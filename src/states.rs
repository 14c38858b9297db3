use crate::input::KeyState;
use crate::simulation::{
    spawn_effect, tick_effect, CameraOutcome, InputOutcome, SimulationPlugin, SurfaceSize,
};
use crate::geometry::factor_spec;
use crate::simulation::{first_slot, tick_delta, SimError, Spawned};
use crate::world::{
    camera_count, camera_followed, extends_with_owned, is_camera, is_owned, lemma_followed_extends,
    lemma_moved_extends, lemma_no_cameras, lemma_retained_owns_nothing, lemma_same_cameras,
    lemma_teardown_restores, moved, owned_count, retained, EntityRecord,
};
use vstd::prelude::*;

verus! {

/// The coarse phases of the application.
#[derive(Clone, Copy, Debug, PartialEq, Eq, Structural, Hash)]
pub enum AppState {
    Loading,
    Menu,
    Simulation,
}

impl Default for AppState {
    fn default() -> (r: AppState)
        ensures
            r == AppState::Loading,
    {
        AppState::Loading
    }
}

/// Which hooks a transition ran.
#[derive(Clone, Copy, Debug, PartialEq, Eq, Structural)]
pub struct TransitionOutcome {
    /// The hook for leaving the simulation ran.
    pub exited_simulation: bool,
    /// The hook for entering the simulation ran.
    pub entered_simulation: bool,
    /// Entering failed for want of a display surface: the application is
    /// asked to exit.
    pub exit_requested: bool,
}

/// A transition from `from` to `to` enters the simulation.
pub open spec fn enters_simulation(from: AppState, to: AppState) -> bool {
    from != to && to == AppState::Simulation
}

/// A transition from `from` to `to` leaves the simulation.
pub open spec fn exits_simulation(from: AppState, to: AppState) -> bool {
    from != to && from == AppState::Simulation
}

/// The state machine of the application's phases, which owns the simulation
/// subsystem and runs its hooks and its per-tick systems.
pub struct StatePlugin {
    pub state: AppState,
    pub simulation: SimulationPlugin,
    /// The world's entities when the simulation was last entered.
    pub entered_from: Ghost<Seq<EntityRecord>>,
    /// The next identifier when the simulation was last entered.
    pub entered_at: Ghost<int>,
}

impl StatePlugin {
    /// Outside the simulation no simulation-owned entity exists, the player
    /// slots are gone and the rendering override is off. Inside it, the
    /// world is the world from before entering followed by simulation-owned
    /// entities only, the player of slot 0 is one of those, and while the
    /// slots exist there is exactly one camera.
    pub open spec fn wf(&self) -> bool {
        &&& self.simulation.wf()
        &&& self.state != AppState::Simulation ==> {
            &&& owned_count(self.simulation.world.entities@) == 0
            &&& self.simulation.players is None
            &&& !self.simulation.msaa_off
        }
        &&& self.state == AppState::Simulation ==> {
            &&& extends_with_owned(
                self.entered_from@,
                self.simulation.world.entities@,
                self.entered_at@,
            )
            &&& first_slot(self.simulation.players) matches Some(id) ==> id.raw >= self.entered_at@
            &&& self.simulation.players is Some ==> camera_count(self.simulation.world.entities@) == 1
        }
    }

    /// The machine in `Loading`, with an empty world.
    pub fn new() -> (r: StatePlugin)
        ensures
            r.wf(),
            r.state == AppState::Loading,
            r.simulation.world.entities@.len() == 0,
            r.simulation.world.next_id == 0,
    {
        StatePlugin {
            state: AppState::Loading,
            simulation: SimulationPlugin::new(),
            entered_from: Ghost(Seq::empty()),
            entered_at: Ghost(0),
        }
    }

    /// Applies a requested transition. A request for the current state does
    /// nothing. Otherwise the hook for leaving the simulation runs if it is
    /// left, then the state changes, then the hook for entering the
    /// simulation runs if it is entered, with the display surface `surface`.
    pub fn apply_transition(&mut self, requested: AppState, surface: Option<SurfaceSize>) -> (r:
        TransitionOutcome)
        requires
            old(self).wf(),
            old(self).simulation.world.next_id + 3 <= u64::MAX,
        ensures
            final(self).wf(),
            final(self).state == requested,
            r.entered_simulation == enters_simulation(old(self).state, requested),
            r.exited_simulation == exits_simulation(old(self).state, requested),
            r.exit_requested == (r.entered_simulation && surface is None),
            !r.entered_simulation && !r.exited_simulation ==> final(self).simulation == old(
                self,
            ).simulation,
            r.exited_simulation ==> {
                &&& final(self).simulation.world.entities@ == retained(
                    old(self).simulation.world.entities@,
                )
                &&& final(self).simulation.world.next_id == old(self).simulation.world.next_id
                &&& final(self).simulation.players is None
                &&& !final(self).simulation.msaa_off
                &&& final(self).simulation.tick_period_nanos == old(
                    self,
                ).simulation.tick_period_nanos
                &&& final(self).simulation.exit_key_held == old(self).simulation.exit_key_held
                &&& final(self).simulation.world.entities@ == old(self).entered_from@
            },
            r.entered_simulation ==> final(self).entered_from@ == old(
                self,
            ).simulation.world.entities@,
            r.entered_simulation ==> owned_count(old(self).simulation.world.entities@) == 0
                && exists|res|
                spawn_effect(old(self).simulation, surface, final(self).simulation, res),
    {
        if requested == self.state {
            return TransitionOutcome {
                exited_simulation: false,
                entered_simulation: false,
                exit_requested: false,
            };
        }
        let exited_simulation = self.state == AppState::Simulation;
        if exited_simulation {
            self.simulation.despawn_sim();
            proof {
                lemma_retained_owns_nothing(old(self).simulation.world.entities@);
                lemma_teardown_restores(
                    self.entered_from@,
                    old(self).simulation.world.entities@,
                    self.entered_at@,
                );
            }
        }
        self.state = requested;
        let entered_simulation = requested == AppState::Simulation;
        let mut exit_requested = false;
        if entered_simulation {
            let ghost before = self.simulation.world.entities@;
            let ghost n = self.simulation.world.next_id as int;
            self.entered_from = Ghost(before);
            self.entered_at = Ghost(n);
            let res = self.simulation.spawn_sim(surface);
            exit_requested = res.is_err();
            proof {
                let t = self.simulation.world.entities@;
                lemma_no_cameras(before);
                if surface is Some {
                    assert forall|i: int| 0 <= i < before.len() implies #[trigger] t[i] == before[i] by {
                        assert(t.take(before.len() as int)[i] == t[i]);
                    }
                    assert(t.drop_last().drop_last().drop_last() =~= t.take(before.len() as int));
                    assert(camera_count(t.drop_last().drop_last()) == 1);
                    let k = before.len() as int;
                    assert(!is_camera(t[k + 1]) && !is_camera(t[k + 2]));
                    assert(t.drop_last().last() == t[k + 1]);
                    assert(camera_count(t.drop_last()) == camera_count(t.drop_last().drop_last()));
                    assert(camera_count(t) == camera_count(t.drop_last()));
                    assert forall|i: int| before.len() <= i < t.len() implies (#[trigger] t[i]).id.raw
                        >= n && is_owned(t[i]) by {
                        assert(i == before.len() || i == before.len() + 1 || i == before.len() + 2);
                    }
                    assert(first_slot(self.simulation.players) matches Some(id) ==> id.raw >= n);
                }
                assert(owned_count(before) == 0);
                assert(forall|i: int| 0 <= i < before.len() ==> (#[trigger] before[i]).id.raw < n);
                assert(forall|i: int| 0 <= i < before.len() ==> crate::world::parent_below(#[trigger] before[i], n));
                assert(extends_with_owned(before, t, n));
            }
        }
        TransitionOutcome { exited_simulation, entered_simulation, exit_requested }
    }

    /// One fixed tick: the simulation's systems run only while the
    /// simulation is the current state.
    pub fn tick(&mut self, keys: &KeyState) -> (r: Option<(InputOutcome, CameraOutcome)>)
        requires
            old(self).wf(),
        ensures
            final(self).wf(),
            final(self).state == old(self).state,
            old(self).state != AppState::Simulation ==> r is None && final(self).simulation == old(
                self,
            ).simulation,
            old(self).state == AppState::Simulation ==> (r matches Some(o) && tick_effect(
                old(self).simulation,
                *keys,
                final(self).simulation,
                o,
            )),
    {
        if self.state != AppState::Simulation {
            return None;
        }
        let ghost a = self.simulation;
        let r = self.simulation.fixed_tick(keys);
        proof {
            let n = self.entered_at@;
            let m = moved(a.world.entities@, first_slot(a.players), tick_delta(*keys, a.tick_period_nanos));
            lemma_moved_extends(
                self.entered_from@,
                a.world.entities@,
                n,
                first_slot(a.players),
                tick_delta(*keys, a.tick_period_nanos),
            );
            lemma_followed_extends(self.entered_from@, m, n, factor_spec(a.tick_period_nanos as int));
            lemma_same_cameras(a.world.entities@, m);
            lemma_same_cameras(m, camera_followed(m, factor_spec(a.tick_period_nanos as int)));
        }
        Some(r)
    }
}

/// Whatever transitions came before, no simulation-owned entity exists when
/// the hook for entering the simulation is about to run, and none is left
/// once the matching hook for leaving it has run.
pub proof fn lemma_owned_entities_bracket(s: StatePlugin, requested: AppState)
    requires
        s.wf(),
    ensures
        enters_simulation(s.state, requested) ==> owned_count(s.simulation.world.entities@) == 0,
        exits_simulation(s.state, requested) ==> owned_count(
            retained(s.simulation.world.entities@),
        ) == 0,
{
    lemma_retained_owns_nothing(s.simulation.world.entities@);
}

/// The hook for entering the simulation, run where nothing is
/// simulation-owned (as the machine's invariant guarantees), leaves exactly
/// the camera, the overlay and the player owned when the surface exists, and
/// nothing when it does not.
pub proof fn lemma_enter_owned_count(
    a: SimulationPlugin,
    surface: Option<SurfaceSize>,
    b: SimulationPlugin,
    r: Result<Spawned, SimError>,
)
    requires
        spawn_effect(a, surface, b, r),
        owned_count(a.world.entities@) == 0,
    ensures
        owned_count(b.world.entities@) == if surface is Some { 3nat } else { 0nat },
{
    if surface is Some {
        let s = a.world.entities@;
        let t = b.world.entities@;
        let n = s.len() as int;
        assert(is_owned(t[n]) && is_owned(t[n + 1]) && is_owned(t[n + 2]));
        assert(t.drop_last().drop_last().drop_last() =~= t.take(n));
        assert(owned_count(t.drop_last().drop_last()) == owned_count(t.drop_last().drop_last().drop_last()) + 1);
        assert(owned_count(t.drop_last()) == owned_count(t.drop_last().drop_last()) + 1);
    }
}

} // verus!
