use crate::geometry::{div_trunc, div_trunc_i128, lerp_coord, Vec3};
use vstd::arithmetic::div_mod::{lemma_div_by_multiple, lemma_div_is_ordered};
use vstd::prelude::*;

verus! {

/// An identifier that the world hands out when it creates an entity; never
/// reused.
#[derive(Clone, Copy, Debug, PartialEq, Eq, Structural)]
pub struct EntityId {
    pub raw: u64,
}

/// Marks an entity that the simulation phase owns: created when the phase is
/// entered, destroyed when it is left.
#[derive(Clone, Copy, Debug, PartialEq, Eq, Structural)]
pub struct SimTag;

/// Marks the status-overlay entity.
#[derive(Clone, Copy, Debug, PartialEq, Eq, Structural)]
pub struct TopText;

/// A color with 8-bit red, green, blue and alpha channels.
#[derive(Clone, Copy, Debug, PartialEq, Eq, Structural)]
pub struct Rgba {
    pub r: u8,
    pub g: u8,
    pub b: u8,
    pub a: u8,
}

/// A player: a name and a color.
#[derive(Debug)]
pub struct Player {
    pub name: String,
    pub color: Rgba,
}

/// The player slots: each slot refers to a player entity or is empty.
#[derive(Debug)]
pub struct Players {
    pub players: Vec<Option<EntityId>>,
}

/// The components of one entity. An entity with a parent is destroyed
/// together with it.
#[derive(Debug)]
pub struct Bundle {
    pub parent: Option<EntityId>,
    pub sim_tag: Option<SimTag>,
    pub top_text: Option<TopText>,
    pub camera: bool,
    pub player: Option<Player>,
    pub position: Vec3,
}

/// An entity of the world: its identifier and its components.
#[derive(Debug)]
pub struct EntityRecord {
    pub id: EntityId,
    pub parts: Bundle,
}

/// An arena of entities, in order of creation, with the next identifier to
/// hand out.
pub struct World {
    pub entities: Vec<EntityRecord>,
    pub next_id: u64,
}

/// `e` is owned by the simulation.
pub open spec fn is_owned(e: EntityRecord) -> bool {
    e.parts.sim_tag is Some
}

/// `e` is a player, which the camera tracks.
pub open spec fn is_tracked(e: EntityRecord) -> bool {
    e.parts.player is Some
}

/// `e` is a camera of the simulation.
pub open spec fn is_camera(e: EntityRecord) -> bool {
    e.parts.camera && e.parts.sim_tag is Some
}

/// `e` has no parent, or one whose identifier is below `bound`.
pub open spec fn parent_below(e: EntityRecord, bound: int) -> bool {
    match e.parts.parent {
        Some(p) => p.raw < bound,
        None => true,
    }
}

/// The number of simulation-owned entities in `s`.
pub open spec fn owned_count(s: Seq<EntityRecord>) -> nat
    decreases s.len(),
{
    if s.len() == 0 {
        0
    } else {
        owned_count(s.drop_last()) + if is_owned(s.last()) { 1nat } else { 0nat }
    }
}

/// The number of cameras of the simulation in `s`.
pub open spec fn camera_count(s: Seq<EntityRecord>) -> nat
    decreases s.len(),
{
    if s.len() == 0 {
        0
    } else {
        camera_count(s.drop_last()) + if is_camera(s.last()) { 1nat } else { 0nat }
    }
}

/// The number of tracked (player) entities in `s`.
pub open spec fn tracked_count(s: Seq<EntityRecord>) -> nat
    decreases s.len(),
{
    if s.len() == 0 {
        0
    } else {
        tracked_count(s.drop_last()) + if is_tracked(s.last()) { 1nat } else { 0nat }
    }
}

/// Coordinate `axis` (0: x, 1: y, 2: z) of `v`.
pub open spec fn coord(v: Vec3, axis: int) -> int {
    if axis == 0 {
        v.x as int
    } else if axis == 1 {
        v.y as int
    } else {
        v.z as int
    }
}

/// The sum of coordinate `axis` over the tracked entities of `s`.
pub open spec fn tracked_sum(s: Seq<EntityRecord>, axis: int) -> int
    decreases s.len(),
{
    if s.len() == 0 {
        0
    } else {
        tracked_sum(s.drop_last(), axis) + if is_tracked(s.last()) {
            coord(s.last().parts.position, axis)
        } else {
            0
        }
    }
}

/// The mean of coordinate `axis` over the tracked entities of `s`, rounded
/// toward zero; meaningful when at least one entity is tracked.
pub open spec fn tracked_mean(s: Seq<EntityRecord>, axis: int) -> int {
    div_trunc(tracked_sum(s, axis), tracked_count(s) as int)
}

/// The entity of `s` with identifier `id` reaches a simulation-owned entity
/// by following at most `k` parent links: it is owned, or its parent does so
/// in `k - 1` links.
pub open spec fn descends(s: Seq<EntityRecord>, id: EntityId, k: nat) -> bool
    decreases k,
{
    exists|j: int|
        0 <= j < s.len() && #[trigger] s[j].id == id && (is_owned(s[j]) || (k > 0 && match s[j].parts.parent {
            Some(p) => descends(s, p, (k - 1) as nat),
            None => false,
        }))
}

/// Whether the teardown destroys the entity of `s` with identifier `id`: it is
/// simulation-owned or a descendant (child, grandchild, ...) of one, wherever
/// either stands in the arena.
pub open spec fn doomed(s: Seq<EntityRecord>, id: EntityId) -> bool {
    exists|k: nat| descends(s, id, k)
}

/// The entities of the prefix `p` of `all` that survive the teardown of
/// `all`, in order.
pub open spec fn kept(all: Seq<EntityRecord>, p: Seq<EntityRecord>) -> Seq<EntityRecord>
    decreases p.len(),
{
    if p.len() == 0 {
        Seq::empty()
    } else if doomed(all, p.last().id) {
        kept(all, p.drop_last())
    } else {
        kept(all, p.drop_last()).push(p.last())
    }
}

/// What is left of `s` once every simulation-owned entity is destroyed with
/// all its descendants, in the same order.
pub open spec fn retained(s: Seq<EntityRecord>) -> Seq<EntityRecord> {
    kept(s, s)
}

/// `v` as an `i64`, saturated at the bounds of the type.
pub open spec fn clamp_i64(v: int) -> i64 {
    if v > i64::MAX {
        i64::MAX
    } else if v < i64::MIN {
        i64::MIN
    } else {
        v as i64
    }
}

/// A player position moved by `d`, saturating, and pinned to the plane
/// `z == 0`.
pub open spec fn step_to(p: Vec3, d: Vec3) -> Vec3 {
    Vec3 { x: clamp_i64(p.x + d.x), y: clamp_i64(p.y + d.y), z: 0 }
}

/// `e` with its position replaced by `p`.
pub open spec fn placed(e: EntityRecord, p: Vec3) -> EntityRecord {
    EntityRecord { id: e.id, parts: Bundle { position: p, ..e.parts } }
}

/// `s` after the tracked entity with identifier `target`, if any, moved by
/// `d`.
pub open spec fn moved(s: Seq<EntityRecord>, target: Option<EntityId>, d: Vec3) -> Seq<
    EntityRecord,
> {
    Seq::new(
        s.len(),
        |i: int|
            if target == Some(s[i].id) && is_tracked(s[i]) {
                placed(s[i], step_to(s[i].parts.position, d))
            } else {
                s[i]
            },
    )
}

/// A camera position moved toward the mean of the tracked entities of `s` by
/// the factor `f / FACTOR_SCALE`.
pub open spec fn follow(p: Vec3, s: Seq<EntityRecord>, f: int) -> Vec3 {
    Vec3 {
        x: lerp_coord(p.x as int, tracked_mean(s, 0), f) as i64,
        y: lerp_coord(p.y as int, tracked_mean(s, 1), f) as i64,
        z: lerp_coord(p.z as int, tracked_mean(s, 2), f) as i64,
    }
}

/// `s` after every camera followed the tracked entities by the factor `f`.
pub open spec fn camera_followed(s: Seq<EntityRecord>, f: int) -> Seq<EntityRecord> {
    Seq::new(
        s.len(),
        |i: int|
            if is_camera(s[i]) {
                placed(s[i], follow(s[i].parts.position, s, f))
            } else {
                s[i]
            },
    )
}

proof fn lemma_one_camera(s: Seq<EntityRecord>, a: int)
    requires
        0 <= a < s.len(),
        is_camera(s[a]),
    ensures
        camera_count(s) >= 1,
    decreases s.len(),
{
    if a < s.len() - 1 {
        lemma_one_camera(s.drop_last(), a);
    }
}

proof fn lemma_kept_owns_nothing(all: Seq<EntityRecord>, p: Seq<EntityRecord>)
    requires
        p.len() <= all.len(),
        forall|i: int| 0 <= i < p.len() ==> all[i] == #[trigger] p[i],
    ensures
        owned_count(kept(all, p)) == 0,
    decreases p.len(),
{
    if p.len() > 0 {
        assert forall|i: int| 0 <= i < p.drop_last().len() implies all[i] == #[trigger] p.drop_last()[i] by {
            assert(p.drop_last()[i] == p[i]);
        }
        lemma_kept_owns_nothing(all, p.drop_last());
        if !doomed(all, p.last().id) {
            assert(kept(all, p).drop_last() =~= kept(all, p.drop_last()));
            if is_owned(p.last()) {
                assert(all[p.len() - 1] == p[p.len() - 1]);
                assert(descends(all, p.last().id, 0));
            }
        }
    }
}

/// Nothing simulation-owned survives the teardown.
pub proof fn lemma_retained_owns_nothing(s: Seq<EntityRecord>)
    ensures
        owned_count(retained(s)) == 0,
{
    lemma_kept_owns_nothing(s, s);
}

proof fn lemma_kept_not_doomed(all: Seq<EntityRecord>, p: Seq<EntityRecord>)
    ensures
        forall|i: int| 0 <= i < kept(all, p).len() ==> !doomed(all, #[trigger] kept(all, p)[i].id),
    decreases p.len(),
{
    if p.len() > 0 {
        lemma_kept_not_doomed(all, p.drop_last());
        let r = kept(all, p);
        let rp = kept(all, p.drop_last());
        assert forall|i: int| 0 <= i < r.len() implies !doomed(all, #[trigger] r[i].id) by {
            if i < rp.len() {
                assert(r[i] == rp[i]);
            }
        }
    }
}

/// The teardown destroys every simulation-owned entity and every descendant
/// of one (child, grandchild, ...), whatever their order in the arena and
/// whether or not the descendant is itself simulation-owned.
pub proof fn lemma_teardown_destroys_descendants(s: Seq<EntityRecord>, id: EntityId, k: nat)
    requires
        descends(s, id, k),
    ensures
        forall|i: int| 0 <= i < retained(s).len() ==> (#[trigger] retained(s)[i]).id != id,
{
    lemma_kept_not_doomed(s, s);
}

/// A sequence with no simulation-owned entity has none at any index.
pub proof fn lemma_none_owned(s: Seq<EntityRecord>)
    requires
        owned_count(s) == 0,
    ensures
        forall|i: int| 0 <= i < s.len() ==> !is_owned(#[trigger] s[i]),
    decreases s.len(),
{
    if s.len() > 0 {
        lemma_none_owned(s.drop_last());
        assert forall|i: int| 0 <= i < s.len() implies !is_owned(#[trigger] s[i]) by {
            if i < s.len() - 1 {
                assert(s[i] == s.drop_last()[i]);
            }
        }
    }
}

proof fn lemma_old_ids_not_descend(s: Seq<EntityRecord>, t: Seq<EntityRecord>, n: int, k: nat)
    requires
        forall|i: int| 0 <= i < s.len() ==> !is_owned(#[trigger] s[i]),
        forall|i: int| 0 <= i < s.len() ==> parent_below(#[trigger] s[i], n),
        s.len() <= t.len(),
        forall|i: int| 0 <= i < s.len() ==> #[trigger] t[i] == s[i],
        forall|i: int| s.len() <= i < t.len() ==> (#[trigger] t[i]).id.raw >= n,
    ensures
        forall|id: EntityId| id.raw < n ==> !#[trigger] descends(t, id, k),
    decreases k,
{
    if k > 0 {
        lemma_old_ids_not_descend(s, t, n, (k - 1) as nat);
    }
    assert forall|id: EntityId| id.raw < n implies !#[trigger] descends(t, id, k) by {
        if descends(t, id, k) {
            let j = choose|j: int|
                0 <= j < t.len() && #[trigger] t[j].id == id && (is_owned(t[j]) || (k > 0 && match t[j].parts.parent {
                    Some(p) => descends(t, p, (k - 1) as nat),
                    None => false,
                }));
            assert(j < s.len());
            assert(t[j] == s[j]);
        }
    }
}

/// `w` is the world `before` (nothing simulation-owned, identifiers and
/// parents below `n`) followed only by simulation-owned entities with
/// identifiers from `n` on.
pub open spec fn extends_with_owned(before: Seq<EntityRecord>, w: Seq<EntityRecord>, n: int) -> bool {
    &&& owned_count(before) == 0
    &&& forall|i: int| 0 <= i < before.len() ==> (#[trigger] before[i]).id.raw < n
    &&& forall|i: int| 0 <= i < before.len() ==> parent_below(#[trigger] before[i], n)
    &&& before.len() <= w.len()
    &&& forall|i: int| 0 <= i < before.len() ==> #[trigger] w[i] == before[i]
    &&& forall|i: int| before.len() <= i < w.len() ==> (#[trigger] w[i]).id.raw >= n && is_owned(w[i])
}

/// Moving the player, whose identifier is from `n` on, keeps the shape.
pub proof fn lemma_moved_extends(
    before: Seq<EntityRecord>,
    w: Seq<EntityRecord>,
    n: int,
    target: Option<EntityId>,
    d: Vec3,
)
    requires
        extends_with_owned(before, w, n),
        target matches Some(id) ==> id.raw >= n,
    ensures
        extends_with_owned(before, moved(w, target, d), n),
{
    let m = moved(w, target, d);
    assert forall|i: int| 0 <= i < before.len() implies #[trigger] m[i] == before[i] by {
        assert(w[i] == before[i]);
    }
    assert forall|i: int| before.len() <= i < m.len() implies (#[trigger] m[i]).id.raw >= n && is_owned(m[i]) by {
        assert(w[i].id.raw >= n && is_owned(w[i]));
    }
}

/// Moving the cameras keeps the shape.
pub proof fn lemma_followed_extends(before: Seq<EntityRecord>, w: Seq<EntityRecord>, n: int, f: int)
    requires
        extends_with_owned(before, w, n),
    ensures
        extends_with_owned(before, camera_followed(w, f), n),
{
    lemma_none_owned(before);
    let m = camera_followed(w, f);
    assert forall|i: int| 0 <= i < before.len() implies #[trigger] m[i] == before[i] by {
        assert(w[i] == before[i]);
        assert(!is_owned(before[i]));
    }
    assert forall|i: int| before.len() <= i < m.len() implies (#[trigger] m[i]).id.raw >= n && is_owned(m[i]) by {
        assert(w[i].id.raw >= n && is_owned(w[i]));
    }
}

/// With nothing simulation-owned there is no camera of the simulation.
pub proof fn lemma_no_cameras(s: Seq<EntityRecord>)
    requires
        owned_count(s) == 0,
    ensures
        camera_count(s) == 0,
    decreases s.len(),
{
    if s.len() > 0 {
        lemma_no_cameras(s.drop_last());
    }
}

/// Two sequences with cameras at the same places have as many.
pub proof fn lemma_same_cameras(a: Seq<EntityRecord>, b: Seq<EntityRecord>)
    requires
        a.len() == b.len(),
        forall|i: int| 0 <= i < a.len() ==> is_camera(#[trigger] a[i]) == is_camera(b[i]),
    ensures
        camera_count(a) == camera_count(b),
    decreases a.len(),
{
    if a.len() > 0 {
        assert forall|i: int| 0 <= i < a.len() - 1 implies is_camera(#[trigger] a.drop_last()[i])
            == is_camera(b.drop_last()[i]) by {
            assert(a.drop_last()[i] == a[i] && b.drop_last()[i] == b[i]);
        }
        lemma_same_cameras(a.drop_last(), b.drop_last());
        assert(is_camera(a[a.len() - 1]) == is_camera(b[b.len() - 1]));
    }
}

/// Entering the simulation and leaving it again gives back exactly the
/// entities from before: when the entities from before (`s`, none of them
/// simulation-owned, their identifiers and parents below `n`) are followed
/// only by simulation-owned entities with identifiers from `n` on, the
/// teardown leaves `s`, and nothing else.
pub proof fn lemma_teardown_restores(s: Seq<EntityRecord>, t: Seq<EntityRecord>, n: int)
    requires
        extends_with_owned(s, t, n),
    ensures
        retained(t) == s,
{
    lemma_none_owned(s);
    lemma_kept_prefix(s, t, n, t.len() as int);
    assert(t.take(t.len() as int) =~= t);
    assert(s.take(s.len() as int) =~= s);
}

proof fn lemma_kept_prefix(s: Seq<EntityRecord>, t: Seq<EntityRecord>, n: int, m: int)
    requires
        0 <= m <= t.len(),
        forall|i: int| 0 <= i < s.len() ==> !is_owned(#[trigger] s[i]),
        forall|i: int| 0 <= i < s.len() ==> (#[trigger] s[i]).id.raw < n,
        forall|i: int| 0 <= i < s.len() ==> parent_below(#[trigger] s[i], n),
        s.len() <= t.len(),
        forall|i: int| 0 <= i < s.len() ==> #[trigger] t[i] == s[i],
        forall|i: int| s.len() <= i < t.len() ==> (#[trigger] t[i]).id.raw >= n && is_owned(t[i]),
    ensures
        kept(t, t.take(m)) == s.take(if m < s.len() { m } else { s.len() as int }),
    decreases m,
{
    if m > 0 {
        lemma_kept_prefix(s, t, n, m - 1);
        assert(t.take(m).drop_last() =~= t.take(m - 1));
        assert(t.take(m).last() == t[m - 1]);
        if m - 1 < s.len() {
            assert forall|k: nat| !#[trigger] descends(t, t[m - 1].id, k) by {
                lemma_old_ids_not_descend(s, t, n, k);
            }
            assert(s.take(m) =~= s.take(m - 1).push(s[m - 1]));
        } else {
            assert(descends(t, t[m - 1].id, 0));
        }
    }
}

proof fn lemma_kept_ids(all: Seq<EntityRecord>, s: Seq<EntityRecord>)
    ensures
        forall|i: int|
            0 <= i < kept(all, s).len() ==> exists|j: int|
                0 <= j < s.len() && #[trigger] kept(all, s)[i] == s[j],
    decreases s.len(),
{
    if s.len() > 0 {
        lemma_kept_ids(all, s.drop_last());
        let r = kept(all, s);
        let p = kept(all, s.drop_last());
        assert forall|i: int| 0 <= i < r.len() implies exists|j: int|
            0 <= j < s.len() && #[trigger] r[i] == s[j] by {
            if i < p.len() {
                assert(r[i] == p[i]);
                let j = choose|j: int| 0 <= j < s.drop_last().len() && p[i] == s.drop_last()[j];
                assert(s[j] == s.drop_last()[j]);
            } else {
                assert(r[i] == s[s.len() - 1]);
            }
        }
    }
}

proof fn lemma_kept_wf(all: Seq<EntityRecord>, s: Seq<EntityRecord>, bound: int)
    requires
        forall|i: int| 0 <= i < s.len() ==> (#[trigger] s[i]).id.raw < bound,
        forall|i: int| 0 <= i < s.len() ==> parent_below(#[trigger] s[i], bound),
        forall|i: int, j: int| 0 <= i < j < s.len() ==> (#[trigger] s[i]).id != (#[trigger] s[j]).id,
    ensures
        forall|i: int| 0 <= i < kept(all, s).len() ==> (#[trigger] kept(all, s)[i]).id.raw < bound,
        forall|i: int| 0 <= i < kept(all, s).len() ==> parent_below(#[trigger] kept(all, s)[i], bound),
        forall|i: int, j: int|
            0 <= i < j < kept(all, s).len() ==> (#[trigger] kept(all, s)[i]).id != (#[trigger] kept(
                all,
                s,
            )[j]).id,
    decreases s.len(),
{
    lemma_kept_ids(all, s);
    if s.len() > 0 {
        let p = s.drop_last();
        lemma_kept_wf(all, p, bound);
        lemma_kept_ids(all, p);
        let r = kept(all, s);
        let rp = kept(all, p);
        if !doomed(all, s.last().id) {
            assert forall|i: int, j: int| 0 <= i < j < r.len() implies (#[trigger] r[i]).id != (
            #[trigger] r[j]).id by {
                if j == r.len() - 1 {
                    assert(r[i] == rp[i]);
                    let k = choose|k: int| 0 <= k < p.len() && #[trigger] rp[i] == p[k];
                    assert(p[k] == s[k]);
                } else {
                    assert(r[i] == rp[i] && r[j] == rp[j]);
                }
            }
        }
    }
}

/// The number of unset marks in `m`.
spec fn count_unset(m: Seq<bool>) -> nat
    decreases m.len(),
{
    if m.len() == 0 {
        0
    } else {
        count_unset(m.drop_last()) + if m.last() { 0nat } else { 1nat }
    }
}

proof fn lemma_count_unset_shrinks(a: Seq<bool>, b: Seq<bool>)
    requires
        a.len() == b.len(),
        forall|i: int| 0 <= i < a.len() && a[i] ==> #[trigger] b[i],
    ensures
        count_unset(b) <= count_unset(a),
        (exists|i: int| 0 <= i < a.len() && !a[i] && #[trigger] b[i]) ==> count_unset(b) < count_unset(a),
    decreases a.len(),
{
    if a.len() > 0 {
        lemma_count_unset_shrinks(a.drop_last(), b.drop_last());
        if exists|i: int| 0 <= i < a.len() && !a[i] && #[trigger] b[i] {
            let i = choose|i: int| 0 <= i < a.len() && !a[i] && #[trigger] b[i];
            if i < a.len() - 1 {
                assert(!a.drop_last()[i] && b.drop_last()[i]);
            }
        }
    }
}

/// Some marked entity of `s` has identifier `id`.
spec fn marked_id(s: Seq<EntityRecord>, m: Seq<bool>, id: EntityId) -> bool {
    exists|q: int| 0 <= q < s.len() && m[q] && #[trigger] s[q].id == id
}

/// The marks are closed: owned entities are marked, and so is every entity
/// whose parent is marked.
spec fn marks_closed(s: Seq<EntityRecord>, m: Seq<bool>) -> bool {
    forall|i: int|
        0 <= i < s.len() ==> (#[trigger] m[i] || (!is_owned(s[i]) && !(s[i].parts.parent matches Some(p)
            && marked_id(s, m, p))))
}

proof fn lemma_closed_marks_complete_all(s: Seq<EntityRecord>, m: Seq<bool>)
    requires
        m.len() == s.len(),
        marks_closed(s, m),
        forall|i: int, j: int| 0 <= i < j < s.len() ==> (#[trigger] s[i]).id != (#[trigger] s[j]).id,
    ensures
        forall|i: int| 0 <= i < s.len() && doomed(s, #[trigger] s[i].id) ==> m[i],
{
    assert forall|i: int| 0 <= i < s.len() && doomed(s, #[trigger] s[i].id) implies m[i] by {
        let k = choose|k: nat| descends(s, s[i].id, k);
        lemma_closed_marks_complete(s, m, k);
    }
}

proof fn lemma_closed_marks_complete(s: Seq<EntityRecord>, m: Seq<bool>, k: nat)
    requires
        m.len() == s.len(),
        marks_closed(s, m),
        forall|i: int, j: int| 0 <= i < j < s.len() ==> (#[trigger] s[i]).id != (#[trigger] s[j]).id,
    ensures
        forall|i: int| 0 <= i < s.len() && descends(s, #[trigger] s[i].id, k) ==> m[i],
    decreases k,
{
    if k > 0 {
        lemma_closed_marks_complete(s, m, (k - 1) as nat);
    }
    assert forall|i: int| 0 <= i < s.len() && descends(s, #[trigger] s[i].id, k) implies m[i] by {
        let j = choose|j: int|
            0 <= j < s.len() && #[trigger] s[j].id == s[i].id && (is_owned(s[j]) || (k > 0 && match s[j].parts.parent {
                Some(p) => descends(s, p, (k - 1) as nat),
                None => false,
            }));
        assert(j == i);
        if !is_owned(s[i]) {
            let p = s[i].parts.parent.unwrap();
            let q = choose|q: int| 0 <= q < s.len() && #[trigger] s[q].id == p && (is_owned(s[q]) || (
                (k - 1) as nat > 0 && match s[q].parts.parent {
                    Some(pp) => descends(s, pp, ((k - 1) as nat - 1) as nat),
                    None => false,
                }));
            assert(descends(s, s[q].id, (k - 1) as nat));
            assert(m[q]);
            assert(marked_id(s, m, p));
        }
    }
}

pub(crate) proof fn lemma_sum_bounds(s: Seq<EntityRecord>, axis: int)
    ensures
        tracked_count(s) <= s.len(),
        i64::MIN * tracked_count(s) <= tracked_sum(s, axis) <= i64::MAX * tracked_count(s),
    decreases s.len(),
{
    if s.len() > 0 {
        lemma_sum_bounds(s.drop_last(), axis);
    }
}

proof fn lemma_single_tracked(s: Seq<EntityRecord>, axis: int, k: int)
    requires
        0 <= k < s.len(),
        is_tracked(s[k]),
        forall|i: int| 0 <= i < s.len() && i != k ==> !is_tracked(#[trigger] s[i]),
    ensures
        tracked_count(s) == 1,
        tracked_sum(s, axis) == coord(s[k].parts.position, axis),
    decreases s.len(),
{
    if k < s.len() - 1 {
        lemma_single_tracked(s.drop_last(), axis, k);
    } else {
        lemma_none_tracked(s.drop_last(), axis);
    }
}

proof fn lemma_none_tracked(s: Seq<EntityRecord>, axis: int)
    requires
        forall|i: int| 0 <= i < s.len() ==> !is_tracked(#[trigger] s[i]),
    ensures
        tracked_count(s) == 0,
        tracked_sum(s, axis) == 0,
    decreases s.len(),
{
    if s.len() > 0 {
        lemma_none_tracked(s.drop_last(), axis);
    }
}

pub(crate) proof fn lemma_mean_in_range(sum: int, n: int)
    requires
        n > 0,
        i64::MIN * n <= sum <= i64::MAX * n,
    ensures
        i64::MIN <= div_trunc(sum, n) <= i64::MAX,
{
    if sum >= 0 {
        lemma_div_is_ordered(sum, i64::MAX * n, n);
        lemma_div_by_multiple(i64::MAX as int, n);
        lemma_div_is_ordered(0, sum, n);
    } else {
        let m = -sum;
        assert(m <= 0x8000_0000_0000_0000int * n);
        lemma_div_is_ordered(m, 0x8000_0000_0000_0000int * n, n);
        lemma_div_by_multiple(0x8000_0000_0000_0000int, n);
        lemma_div_is_ordered(0, m, n);
    }
}

/// With exactly one tracked entity, the mean is that entity's position.
pub proof fn lemma_mean_of_one(s: Seq<EntityRecord>, k: int, axis: int)
    requires
        0 <= k < s.len(),
        is_tracked(s[k]),
        forall|i: int| 0 <= i < s.len() && i != k ==> !is_tracked(#[trigger] s[i]),
    ensures
        tracked_mean(s, axis) == coord(s[k].parts.position, axis),
{
    lemma_single_tracked(s, axis, k);
    let v = coord(s[k].parts.position, axis);
    if v >= 0 {
        lemma_div_by_multiple(v, 1);
    } else {
        lemma_div_by_multiple(-v, 1);
    }
}

/// Whether a marked entity of `entities` has identifier `id`.
fn has_marked(entities: &Vec<EntityRecord>, marks: &Vec<bool>, id: EntityId) -> (r: bool)
    requires
        marks@.len() == entities@.len(),
    ensures
        r == marked_id(entities@, marks@, id),
{
    let mut q: usize = 0;
    while q < entities.len()
        invariant
            marks@.len() == entities@.len(),
            q <= entities@.len(),
            forall|j: int| 0 <= j < q ==> !(marks@[j] && #[trigger] entities@[j].id == id),
        decreases entities@.len() - q,
    {
        if marks[q] && entities[q].id == id {
            return true;
        }
        q = q + 1;
    }
    false
}

impl World {
    /// Identifiers are distinct and below `next_id`, and so is every parent
    /// identifier: an entity never names an identifier not yet handed out.
    pub open spec fn wf(&self) -> bool {
        &&& forall|i: int|
            0 <= i < self.entities@.len() ==> (#[trigger] self.entities@[i]).id.raw < self.next_id
        &&& forall|i: int|
            0 <= i < self.entities@.len() ==> parent_below(#[trigger] self.entities@[i], self.next_id as int)
        &&& forall|i: int, j: int|
            0 <= i < j < self.entities@.len() ==> (#[trigger] self.entities@[i]).id
                != (#[trigger] self.entities@[j]).id
    }

    /// An empty world.
    pub fn new() -> (r: World)
        ensures
            r.wf(),
            r.entities@.len() == 0,
            r.next_id == 0,
    {
        World { entities: Vec::new(), next_id: 0 }
    }

    /// How many more entities can be created.
    pub fn ids_left(&self) -> (r: u64)
        ensures
            r == u64::MAX - self.next_id,
    {
        u64::MAX - self.next_id
    }

    /// Creates an entity with the components `parts` and returns its fresh
    /// identifier. A parent, if any, is an identifier already handed out.
    pub fn spawn(&mut self, parts: Bundle) -> (id: EntityId)
        requires
            old(self).wf(),
            old(self).next_id < u64::MAX,
            parts.parent matches Some(p) ==> p.raw < old(self).next_id,
        ensures
            final(self).wf(),
            id.raw == old(self).next_id,
            final(self).next_id == old(self).next_id + 1,
            final(self).entities@ == old(self).entities@.push(EntityRecord { id, parts }),
    {
        let id = EntityId { raw: self.next_id };
        self.entities.push(EntityRecord { id, parts });
        self.next_id = self.next_id + 1;
        id
    }

    /// The index of the entity with identifier `id`, if it exists.
    pub fn index_of(&self, id: EntityId) -> (r: Option<usize>)
        requires
            self.wf(),
        ensures
            r matches Some(i) ==> i < self.entities@.len() && self.entities@[i as int].id == id,
            r is None ==> forall|i: int|
                0 <= i < self.entities@.len() ==> (#[trigger] self.entities@[i]).id != id,
    {
        let mut i: usize = 0;
        while i < self.entities.len()
            invariant
                i <= self.entities@.len(),
                forall|j: int| 0 <= j < i ==> (#[trigger] self.entities@[j]).id != id,
            decreases self.entities@.len() - i,
        {
            if self.entities[i].id == id {
                return Some(i);
            }
            i = i + 1;
        }
        None
    }

    /// The index of the camera of the simulation when there is exactly one.
    pub fn find_camera(&self) -> (r: Option<usize>)
        ensures
            camera_count(self.entities@) == 1 <==> r is Some,
            r matches Some(i) ==> i < self.entities@.len() && is_camera(self.entities@[i as int])
                && forall|j: int|
                0 <= j < self.entities@.len() && j != i ==> !is_camera(
                    #[trigger] self.entities@[j],
                ),
    {
        let ghost s = self.entities@;
        let mut found: Option<usize> = None;
        let mut count: usize = 0;
        let mut i: usize = 0;
        while i < self.entities.len()
            invariant
                s == self.entities@,
                i <= s.len(),
                count == camera_count(s.take(i as int)),
                count <= i,
                count == 0 <==> found is None,
                found matches Some(k) ==> k < i && is_camera(s[k as int]) && forall|j: int|
                    0 <= j < i && j != k && is_camera(#[trigger] s[j]) ==> count >= 2,
            decreases s.len() - i,
        {
            assert(s.take(i + 1).drop_last() =~= s.take(i as int));
            if self.entities[i].parts.camera && self.entities[i].parts.sim_tag.is_some() {
                proof {
                    if found is None {
                        assert forall|j: int| 0 <= j < i implies !is_camera(#[trigger] s[j]) by {
                            if is_camera(s[j]) {
                                assert(s.take(i as int)[j] == s[j]);
                                lemma_one_camera(s.take(i as int), j);
                            }
                        }
                    }
                }
                if found.is_none() {
                    found = Some(i);
                }
                count = count + 1;
            }
            i = i + 1;
        }
        assert(s.take(s.len() as int) =~= s);
        if count == 1 {
            let k = found.unwrap();
            assert forall|j: int| 0 <= j < s.len() && j != k implies !is_camera(#[trigger] s[j]) by {
                if is_camera(s[j]) {
                    assert(count >= 2);
                }
            }
            found
        } else {
            if count > 1 {
                assert(camera_count(s) != 1);
            }
            None
        }
    }

    /// The mean position of the tracked entities, each coordinate rounded
    /// toward zero; `None` when nothing is tracked.
    pub fn tracked_center(&self) -> (r: Option<Vec3>)
        ensures
            r is None <==> tracked_count(self.entities@) == 0,
            r matches Some(c) ==> c.x == tracked_mean(self.entities@, 0) && c.y == tracked_mean(
                self.entities@,
                1,
            ) && c.z == tracked_mean(self.entities@, 2),
    {
        let ghost s = self.entities@;
        let mut sx: i128 = 0;
        let mut sy: i128 = 0;
        let mut sz: i128 = 0;
        let mut count: u64 = 0;
        let mut i: usize = 0;
        while i < self.entities.len()
            invariant
                s == self.entities@,
                i <= s.len(),
                count == tracked_count(s.take(i as int)),
                sx == tracked_sum(s.take(i as int), 0),
                sy == tracked_sum(s.take(i as int), 1),
                sz == tracked_sum(s.take(i as int), 2),
            decreases s.len() - i,
        {
            let ghost t = s.take(i + 1);
            assert(t.drop_last() =~= s.take(i as int));
            proof {
                lemma_sum_bounds(t, 0);
                lemma_sum_bounds(t, 1);
                lemma_sum_bounds(t, 2);
                let c = tracked_count(t);
                assert(i64::MAX * c < i128::MAX && i64::MIN * c > i128::MIN) by (nonlinear_arith)
                    requires
                        c <= 0xFFFF_FFFF_FFFF_FFFFint,
                ;
            }
            let e = &self.entities[i];
            if e.parts.player.is_some() {
                sx = sx + e.parts.position.x as i128;
                sy = sy + e.parts.position.y as i128;
                sz = sz + e.parts.position.z as i128;
                count = count + 1;
            }
            i = i + 1;
        }
        assert(s.take(s.len() as int) =~= s);
        if count == 0 {
            return None;
        }
        proof {
            lemma_sum_bounds(s, 0);
            lemma_sum_bounds(s, 1);
            lemma_sum_bounds(s, 2);
            lemma_mean_in_range(sx as int, count as int);
            lemma_mean_in_range(sy as int, count as int);
            lemma_mean_in_range(sz as int, count as int);
            assert(i64::MIN * count > i128::MIN) by (nonlinear_arith)
                requires
                    count <= 0xFFFF_FFFF_FFFF_FFFFint,
            ;
        }
        let mx: i128 = div_trunc_i128(sx, count);
        let my: i128 = div_trunc_i128(sy, count);
        let mz: i128 = div_trunc_i128(sz, count);
        Some(Vec3 { x: mx as i64, y: my as i64, z: mz as i64 })
    }

    /// Destroys every simulation-owned entity with all its descendants,
    /// whatever their order in the arena, and keeps the others in order. The
    /// doomed entities are marked by passes over the arena, repeated until a
    /// pass marks nothing new.
    pub fn despawn_owned(&mut self)
        requires
            old(self).wf(),
        ensures
            final(self).wf(),
            final(self).next_id == old(self).next_id,
            final(self).entities@ == retained(old(self).entities@),
    {
        let ghost s = self.entities@;
        let n: usize = self.entities.len();
        let mut marks: Vec<bool> = Vec::new();
        let mut i: usize = 0;
        while i < n
            invariant
                s == self.entities@,
                n == s.len(),
                i <= n,
                marks@.len() == i,
                forall|j: int| 0 <= j < i ==> #[trigger] marks@[j] == is_owned(s[j]),
            decreases n - i,
        {
            proof {
                if is_owned(s[i as int]) {
                    assert(descends(s, s[i as int].id, 0));
                }
            }
            marks.push(self.entities[i].parts.sim_tag.is_some());
            i = i + 1;
        }
        assert forall|j: int| 0 <= j < n && #[trigger] marks@[j] implies doomed(s, s[j].id) by {
            assert(descends(s, s[j].id, 0));
        }
        loop
            invariant
                s == self.entities@,
                self.wf(),
                n == s.len(),
                marks@.len() == n,
                forall|j: int| 0 <= j < n && is_owned(s[j]) ==> #[trigger] marks@[j],
                forall|j: int| 0 <= j < n && #[trigger] marks@[j] ==> doomed(s, s[j].id),
            ensures
                marks_closed(s, marks@),
            decreases count_unset(marks@),
        {
            let ghost start = marks@;
            let mut changed = false;
            let mut i: usize = 0;
            while i < n
                invariant
                    s == self.entities@,
                    n == s.len(),
                    i <= n,
                    marks@.len() == n,
                    start.len() == n,
                    forall|j: int| 0 <= j < n && is_owned(s[j]) ==> #[trigger] marks@[j],
                    forall|j: int| 0 <= j < n && #[trigger] marks@[j] ==> doomed(s, s[j].id),
                    forall|j: int| 0 <= j < n && #[trigger] start[j] ==> marks@[j],
                    changed ==> exists|j: int| 0 <= j < n && !start[j] && #[trigger] marks@[j],
                    !changed ==> marks@ == start,
                    !changed ==> forall|j: int|
                        0 <= j < i ==> (#[trigger] marks@[j] || (!is_owned(s[j]) && !(
                        s[j].parts.parent matches Some(p) && marked_id(s, marks@, p)))),
                decreases n - i,
            {
                if !marks[i] {
                    if let Some(p) = self.entities[i].parts.parent {
                        if has_marked(&self.entities, &marks, p) {
                            proof {
                                let q = choose|q: int| 0 <= q < s.len() && marks@[q] && #[trigger] s[q].id == p;
                                let k = choose|k: nat| descends(s, s[q].id, k);
                                assert(descends(s, s[i as int].id, k + 1));
                            }
                            marks.set(i, true);
                            assert(!start[i as int] && marks@[i as int]);
                            changed = true;
                        }
                    }
                }
                i = i + 1;
            }
            if !changed {
                break;
            }
            proof {
                lemma_count_unset_shrinks(start, marks@);
            }
        }
        proof {
            lemma_closed_marks_complete_all(s, marks@);
        }
        let mut taken: Vec<EntityRecord> = Vec::new();
        std::mem::swap(&mut taken, &mut self.entities);
        let mut kept_now: Vec<EntityRecord> = Vec::new();
        let mut done: usize = 0;
        while taken.len() > 0
            invariant
                n == s.len(),
                marks@.len() == n,
                forall|j: int| 0 <= j < n ==> (#[trigger] marks@[j] <==> doomed(s, s[j].id)),
                done + taken@.len() == n,
                taken@ == s.subrange(done as int, n as int),
                kept_now@ == kept(s, s.subrange(0, done as int)),
            decreases taken.len(),
        {
            let e = taken.remove(0);
            assert(e == s[done as int]);
            assert(s.subrange(0, done + 1).drop_last() =~= s.subrange(0, done as int));
            assert(s.subrange(0, done + 1).last() == e);
            assert(taken@ =~= s.subrange(done + 1, n as int));
            if !marks[done] {
                kept_now.push(e);
            }
            done = done + 1;
        }
        assert(s.subrange(0, n as int) =~= s);
        self.entities = kept_now;
        proof {
            lemma_kept_wf(s, s, self.next_id as int);
        }
    }
}

} // verus!
