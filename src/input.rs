use crate::geometry::{floor_sqrt, is_floor_sqrt, isqrt, lemma_floor_sqrt_is, Vec3};
use vstd::prelude::*;

verus! {

/// The held state of the keys that the simulation reads in one tick: four
/// directions, each with a primary key and an arrow-key alias, and the exit key.
#[derive(Clone, Copy, Debug, PartialEq, Eq, Structural)]
pub struct KeyState {
    pub w: bool,
    pub a: bool,
    pub s: bool,
    pub d: bool,
    pub up: bool,
    pub left: bool,
    pub down: bool,
    pub right: bool,
    pub escape: bool,
}

impl KeyState {
    /// No key held.
    pub fn released() -> (r: KeyState)
        ensures
            !r.w && !r.a && !r.s && !r.d && !r.up && !r.left && !r.down && !r.right && !r.escape,
    {
        KeyState {
            w: false,
            a: false,
            s: false,
            d: false,
            up: false,
            left: false,
            down: false,
            right: false,
            escape: false,
        }
    }
}

/// The up direction is held, by its primary key or its arrow.
pub open spec fn held_up(k: KeyState) -> bool {
    k.w || k.up
}

/// The down direction is held.
pub open spec fn held_down(k: KeyState) -> bool {
    k.s || k.down
}

/// The left direction is held.
pub open spec fn held_left(k: KeyState) -> bool {
    k.a || k.left
}

/// The right direction is held.
pub open spec fn held_right(k: KeyState) -> bool {
    k.d || k.right
}

/// One for a held direction, zero otherwise.
pub open spec fn unit(b: bool) -> int {
    if b { 1 } else { 0 }
}

/// The horizontal direction: right counts +1, left -1.
pub open spec fn dir_x(k: KeyState) -> int {
    unit(held_right(k)) - unit(held_left(k))
}

/// The vertical direction: up counts +1, down -1.
pub open spec fn dir_y(k: KeyState) -> int {
    unit(held_up(k)) - unit(held_down(k))
}

/// `len` with the sign of `dir`; zero when `dir` is.
pub open spec fn signed(dir: int, len: nat) -> int {
    if dir > 0 {
        len as int
    } else if dir < 0 {
        -len
    } else {
        0
    }
}

/// The length of each nonzero component of the normalized direction scaled
/// to `step`: `step` itself along an axis, and `step / sqrt(2)` rounded down on
/// a diagonal.
pub open spec fn component_len(k: KeyState, step: nat) -> nat {
    if dir_x(k) != 0 && dir_y(k) != 0 {
        floor_sqrt(step * step / 2)
    } else {
        step
    }
}

/// The horizontal displacement of one tick, `step` being speed times period.
pub open spec fn delta_x(k: KeyState, step: nat) -> int {
    signed(dir_x(k), component_len(k, step))
}

/// The vertical displacement of one tick.
pub open spec fn delta_y(k: KeyState, step: nat) -> int {
    signed(dir_y(k), component_len(k, step))
}

/// Whether a tick whose exit key state is `held`, after a tick where it was
/// `was_held`, asks the application to exit: only on the press itself.
pub open spec fn exit_request(was_held: bool, held: bool) -> bool {
    held && !was_held
}

/// The number of exit requests over consecutive ticks with the exit key
/// states `held`, the key having been `prev` in the tick before.
pub open spec fn exit_requests(prev: bool, held: Seq<bool>) -> nat
    decreases held.len(),
{
    if held.len() == 0 {
        0
    } else {
        (if exit_request(prev, held[0]) { 1nat } else { 0nat }) + exit_requests(
            held[0],
            held.drop_first(),
        )
    }
}

pub(crate) proof fn lemma_diagonal_len(step: nat)
    ensures
        is_floor_sqrt(floor_sqrt(step * step / 2), step * step / 2),
        floor_sqrt(step * step / 2) <= step,
{
    let n = step * step / 2;
    assert(is_floor_sqrt(floor_sqrt(n), n)) by {
        let r = floor_sqrt_witness(n);
        lemma_floor_sqrt_is(r, n);
    }
    let c = floor_sqrt(n);
    assert(c * c <= step * step);
    if c > step {
        assert(step * step < c * c) by (nonlinear_arith)
            requires
                c > step,
        ;
    }
}

proof fn floor_sqrt_witness(n: nat) -> (r: nat)
    ensures
        is_floor_sqrt(r, n),
    decreases n,
{
    if n == 0 {
        assert(0 * 0 <= 0nat && 0nat < (0 + 1) * (0 + 1)) by (nonlinear_arith);
        0
    } else {
        let p = floor_sqrt_witness((n - 1) as nat);
        assert(p * p <= n - 1 && n - 1 < (p + 1) * (p + 1));
        if (p + 1) * (p + 1) <= n {
            assert(n < (p + 2) * (p + 2)) by (nonlinear_arith)
                requires
                    n - 1 < (p + 1) * (p + 1),
                    (p + 1) * (p + 1) <= n,
            ;
            assert(is_floor_sqrt(p + 1, n));
            p + 1
        } else {
            assert(is_floor_sqrt(p, n));
            p
        }
    }
}

/// The displacement of one tick with the keys `keys` held, a tick period in
/// nanoseconds and a speed in world units per second: the direction that the
/// keys give, normalized, times `speed * tick_period_nanos` position units, on
/// the plane (`z` is zero). Opposite keys cancel; no direction gives no motion.
pub fn movement_delta(keys: &KeyState, tick_period_nanos: u64, speed: u64) -> (r: Vec3)
    requires
        speed * tick_period_nanos <= i64::MAX,
    ensures
        r.x == delta_x(*keys, (speed * tick_period_nanos) as nat),
        r.y == delta_y(*keys, (speed * tick_period_nanos) as nat),
        r.z == 0,
{
    let step: u64 = speed * tick_period_nanos;
    let right: i64 = if keys.d || keys.right { 1 } else { 0 };
    let left: i64 = if keys.a || keys.left { 1 } else { 0 };
    let up: i64 = if keys.w || keys.up { 1 } else { 0 };
    let down: i64 = if keys.s || keys.down { 1 } else { 0 };
    let dx: i64 = right - left;
    let dy: i64 = up - down;
    let len: u64 = if dx != 0 && dy != 0 {
        assert((step as int) * (step as int) < 0x1_0000_0000_0000_0000_0000_0000_0000_0000int)
            by (nonlinear_arith)
            requires
                step <= i64::MAX,
        ;
        let sq: u128 = (step as u128) * (step as u128);
        proof {
            lemma_diagonal_len(step as nat);
        }
        isqrt(sq / 2)
    } else {
        step
    };
    assert(dx == dir_x(*keys) && dy == dir_y(*keys));
    assert(len == component_len(*keys, step as nat));
    assert(len <= i64::MAX);
    let l: i64 = len as i64;
    let x: i64 = if dx > 0 { l } else if dx < 0 { -l } else { 0 };
    let y: i64 = if dy > 0 { l } else if dy < 0 { -l } else { 0 };
    Vec3 { x, y, z: 0 }
}

/// With no movement key held, a tick moves nothing.
pub proof fn lemma_no_keys_no_motion(k: KeyState, step: nat)
    requires
        !k.w && !k.a && !k.s && !k.d && !k.up && !k.left && !k.down && !k.right,
    ensures
        delta_x(k, step) == 0,
        delta_y(k, step) == 0,
{
}

/// With exactly one direction held, a tick moves exactly `step` (speed times
/// period), whichever the direction.
pub proof fn lemma_single_direction_full_step(k: KeyState, step: nat)
    requires
        unit(held_up(k)) + unit(held_down(k)) + unit(held_left(k)) + unit(held_right(k)) == 1,
    ensures
        delta_x(k, step) * delta_x(k, step) + delta_y(k, step) * delta_y(k, step) == step * step,
        held_right(k) ==> delta_x(k, step) == step && delta_y(k, step) == 0,
        held_left(k) ==> delta_x(k, step) == -step && delta_y(k, step) == 0,
        held_up(k) ==> delta_x(k, step) == 0 && delta_y(k, step) == step,
        held_down(k) ==> delta_x(k, step) == 0 && delta_y(k, step) == -step,
{
    assert(component_len(k, step) == step);
    if dir_x(k) != 0 {
        assert(delta_y(k, step) == 0);
        assert(delta_x(k, step) == step || delta_x(k, step) == -step);
        assert(delta_x(k, step) * delta_x(k, step) == step * step) by (nonlinear_arith)
            requires
                delta_x(k, step) == step || delta_x(k, step) == -step,
        ;
    } else {
        assert(delta_x(k, step) == 0);
        assert(delta_y(k, step) == step || delta_y(k, step) == -step);
        assert(delta_y(k, step) * delta_y(k, step) == step * step) by (nonlinear_arith)
            requires
                delta_y(k, step) == step || delta_y(k, step) == -step,
        ;
    }
}

/// With two orthogonal directions held, the tick moves along the diagonal by
/// `step` (speed times period), not `step * sqrt(2)`: the displacement is the
/// longest diagonal one on the position grid whose length is at most `step`.
pub proof fn lemma_diagonal_normalized(k: KeyState, step: nat)
    requires
        held_up(k) != held_down(k),
        held_left(k) != held_right(k),
    ensures
        ({
            let dx = delta_x(k, step);
            let dy = delta_y(k, step);
            let c = component_len(k, step);
            &&& dx == if held_right(k) { c as int } else { -c }
            &&& dy == if held_up(k) { c as int } else { -c }
            &&& dx * dx + dy * dy <= step * step
            &&& step * step < (c + 1) * (c + 1) + (c + 1) * (c + 1)
        }),
{
    lemma_diagonal_len(step);
    let c = component_len(k, step);
    let n = step * step / 2;
    assert(c * c <= n && n < (c + 1) * (c + 1));
    let dx = delta_x(k, step);
    let dy = delta_y(k, step);
    assert(dir_x(k) == 1 || dir_x(k) == -1);
    assert(dir_y(k) == 1 || dir_y(k) == -1);
    assert(dx * dx == c * c) by (nonlinear_arith)
        requires
            dx == c || dx == -c,
    ;
    assert(dy * dy == c * c) by (nonlinear_arith)
        requires
            dy == c || dy == -c,
    ;
}

proof fn lemma_held_then_released(held_ticks: nat, released_ticks: nat)
    ensures
        exit_requests(
            true,
            Seq::new(held_ticks, |i: int| true) + Seq::new(released_ticks, |i: int| false),
        ) == 0,
    decreases held_ticks + released_ticks,
{
    let s = Seq::new(held_ticks, |i: int| true) + Seq::new(released_ticks, |i: int| false);
    if held_ticks > 0 {
        lemma_held_then_released((held_ticks - 1) as nat, released_ticks);
        assert(s.drop_first() =~= Seq::new((held_ticks - 1) as nat, |i: int| true) + Seq::new(
            released_ticks,
            |i: int| false,
        ));
    } else if released_ticks > 0 {
        lemma_released((released_ticks - 1) as nat);
        assert(s.drop_first() =~= Seq::new((released_ticks - 1) as nat, |i: int| false));
    }
}

proof fn lemma_released(ticks: nat)
    ensures
        exit_requests(false, Seq::new(ticks, |i: int| false)) == 0,
    decreases ticks,
{
    if ticks > 0 {
        lemma_released((ticks - 1) as nat);
        assert(Seq::new(ticks, |i: int| false).drop_first() =~= Seq::new(
            (ticks - 1) as nat,
            |i: int| false,
        ));
    }
}

/// One press of the exit key asks for exit once, however many ticks the key
/// stays held and whatever follows its release.
pub proof fn lemma_one_press_one_exit(held_ticks: nat, released_ticks: nat)
    requires
        held_ticks >= 1,
    ensures
        exit_requests(
            false,
            Seq::new(held_ticks, |i: int| true) + Seq::new(released_ticks, |i: int| false),
        ) == 1,
{
    let s = Seq::new(held_ticks, |i: int| true) + Seq::new(released_ticks, |i: int| false);
    lemma_held_then_released((held_ticks - 1) as nat, released_ticks);
    assert(s.drop_first() =~= Seq::new((held_ticks - 1) as nat, |i: int| true) + Seq::new(
        released_ticks,
        |i: int| false,
    ));
    assert(s[0]);
}

} // verus!
