//! The whole simulated system: the bodies, their trail of fading marks,
//! the tick counter, and the camera state (zoom, pan, tracking, pause).

use vstd::prelude::*;

use crate::fixed::clamped;
use crate::fixed::SPAN;
use crate::maths::Coordinate;
use crate::maths::EuclideanVector;
use crate::physics::pull_spec;
use crate::physics::moved_view;
use crate::physics::Body;
use crate::physics::BodyView;
use vstd::arithmetic::power2::pow2;

verus! {

/// Frames drawn per second by the renderer; marks are laid down every
/// `REFRESH_RATE / 10` ticks.
pub const REFRESH_RATE: u64 = 50;

/// Ticks between two trail marks.
pub const MARK_SAMPLING: u64 = REFRESH_RATE / 10;

/// A mark is pruned once its age reaches this many ticks.
pub const TRAIL_HISTORY: u32 = 2000;

/// A fading trail sample: where some body stood, and how many ticks ago.
#[derive(Clone, Copy, PartialEq, Eq, Structural, Debug)]
pub struct Mark {
    pub position: Coordinate,
    pub age: u32,
}

impl Mark {
    /// A fresh mark at `at`.
    pub fn new(at: Coordinate) -> (r: Self)
        ensures
            r.position == at,
            r.age == 0,
    {
        Self { position: at, age: 0 }
    }

    /// Ages the mark by one tick.
    pub fn update(&mut self)
        requires
            old(self).age < u32::MAX,
        ensures
            final(self).position == old(self).position,
            final(self).age == old(self).age + 1,
    {
        self.age = self.age + 1;
    }
}

/// `m` one tick older.  An age at the far end of its machine range stays
/// put, which is unobservable: marks are pruned long before.
pub open spec fn aged_mark(m: Mark) -> Mark {
    Mark {
        position: m.position,
        age: if m.age < u32::MAX {
            (m.age + 1) as u32
        } else {
            m.age
        },
    }
}

/// The full simulated system.
///
/// The bodies are ordered; their index is their only identity.  All the
/// camera fields (`zoom_exponent_quarters`, `fullscreen`, `translation`,
/// `drag_start`, `tracked_body`) are view state with no effect on the
/// physics; `paused` only short-circuits [`Situation::update`].
pub struct Situation {
    pub bodies: Vec<Body>,
    pub marks: Vec<Mark>,
    pub updates: u64,
    /// The zoom exponent, counted in quarters: the zoom factor is two to
    /// the power of a quarter of this number.
    pub zoom_exponent_quarters: i64,
    pub fullscreen: bool,
    pub paused: bool,
    pub translation: EuclideanVector,
    pub drag_start: Coordinate,
    pub tracked_body: Option<usize>,
}

/// The mathematical model of a [`Situation`].
pub struct SituationView {
    pub bodies: Seq<BodyView>,
    pub marks: Seq<Mark>,
    pub updates: u64,
    pub zoom_exponent_quarters: i64,
    pub fullscreen: bool,
    pub paused: bool,
    pub translation: EuclideanVector,
    pub drag_start: Coordinate,
    pub tracked_body: Option<usize>,
}

impl View for Situation {
    type V = SituationView;

    open spec fn view(&self) -> SituationView {
        SituationView {
            bodies: self.bodies@.map_values(|b: Body| b@),
            marks: self.marks@,
            updates: self.updates,
            zoom_exponent_quarters: self.zoom_exponent_quarters,
            fullscreen: self.fullscreen,
            paused: self.paused,
            translation: self.translation,
            drag_start: self.drag_start,
            tracked_body: self.tracked_body,
        }
    }
}

/// The tracked-body cursor after one advance: forward through the bodies
/// in index order, falling off the end into "no tracking", and starting
/// over from the first body on the next advance.
pub open spec fn next_tracked(t: Option<usize>, n: nat) -> Option<usize> {
    match t {
        Some(k) => if k + 1 < n {
            Some((k + 1) as usize)
        } else {
            None
        },
        None => if n > 0 {
            Some(0usize)
        } else {
            None
        },
    }
}

/// What the renderer should translate by to centre the view: the user's
/// pan, or, when a body is tracked, the tracked body's position reversed.
pub open spec fn center_spec(v: SituationView) -> EuclideanVector {
    match v.tracked_body {
        Some(t) => EuclideanVector {
            dx: clamped(-(v.bodies[t as int].position.x as int)) as i64,
            dy: clamped(-(v.bodies[t as int].position.y as int)) as i64,
        },
        None => v.translation,
    }
}

/// The fixed-point zoom factor for the fractional part of the exponent:
/// two to the power of a quarter of `r`, in milli-units, rounded down,
/// for `r` between zero and three.
pub open spec fn quarter_base(r: int) -> int {
    if r == 0 {
        1000
    } else if r == 1 {
        1189
    } else if r == 2 {
        1414
    } else {
        1681
    }
}

/// The zoom factor belonging to the quarter-exponent `q`: two to the
/// power of a quarter of `q`, in milli-units, rounded down, clamped into
/// the span, and never below one milli-unit (the smallest zoom this
/// representation can hold).
pub open spec fn zoom_spec(q: i64) -> int {
    let k = (q as int) / 4;
    let r = (q as int) % 4;
    let raw = if k >= 0 {
        quarter_base(r) * pow2(k as nat)
    } else {
        quarter_base(r) / pow2((-k) as nat) as int
    };
    let c = clamped(raw);
    if c < 1 {
        1
    } else {
        c
    }
}

/// The zoom exponent one quarter-step higher, stuck at the top of the
/// machine range.
pub open spec fn zoomed_in(q: i64) -> i64 {
    if q < i64::MAX {
        (q + 1) as i64
    } else {
        q
    }
}

/// The zoom exponent one quarter-step lower, stuck at the bottom of the
/// machine range.
pub open spec fn zoomed_out(q: i64) -> i64 {
    if q > i64::MIN {
        (q - 1) as i64
    } else {
        q
    }
}

/// Far above the span the zoom factor saturates.
proof fn lemma_zoom_high(q: i64)
    requires
        q >= 168,
    ensures
        zoom_spec(q) == SPAN,
{
    let k = (q as int) / 4;
    let r = (q as int) % 4;
    vstd::arithmetic::div_mod::lemma_div_is_ordered(168, q as int, 4);
    vstd::arithmetic::div_mod::lemma_mod_division_less_than_divisor(q as int, 4);
    assert(k >= 42);
    vstd::arithmetic::power2::lemma2_to64();
    vstd::arithmetic::power2::lemma2_to64_rest();
    if k > 42 {
        vstd::arithmetic::power2::lemma_pow2_strictly_increases(42, k as nat);
    }
    assert(pow2(k as nat) >= 0x400_0000_0000);
    assert(quarter_base(r) * pow2(k as nat) >= 1000 * 0x400_0000_0000) by (nonlinear_arith)
        requires
            quarter_base(r) >= 1000,
            pow2(k as nat) >= 0x400_0000_0000,
    ;
}

/// Far below the span the zoom factor bottoms out at one milli-unit.
proof fn lemma_zoom_low(q: i64)
    requires
        q <= -44,
    ensures
        zoom_spec(q) == 1,
{
    let k = (q as int) / 4;
    let r = (q as int) % 4;
    vstd::arithmetic::div_mod::lemma_div_is_ordered(q as int, -44, 4);
    vstd::arithmetic::div_mod::lemma_mod_division_less_than_divisor(q as int, 4);
    assert(k <= -11);
    vstd::arithmetic::power2::lemma2_to64();
    if -k > 11 {
        vstd::arithmetic::power2::lemma_pow2_strictly_increases(11, (-k) as nat);
    }
    assert(pow2((-k) as nat) >= 2048);
    vstd::arithmetic::div_mod::lemma_basic_div(quarter_base(r), pow2((-k) as nat) as int);
}

/// The pulls the body `b` feels from each of `others`, in their order.
pub open spec fn pulls_on(b: BodyView, others: Seq<BodyView>) -> Seq<EuclideanVector> {
    Seq::new(others.len(), |j: int| pull_spec(b, others[j]))
}

/// The active body of a tick step: it first integrates (position, then
/// velocity, from the forces of the last tick), then its force list is
/// rebuilt from the pulls of all the other bodies, and its highlight
/// follows the tracking cursor.
pub open spec fn stepped_body(b: BodyView, others: Seq<BodyView>, highlight: bool) -> BodyView {
    let m = moved_view(b);
    BodyView { forces: pulls_on(m, others), highlighted: highlight, ..m }
}

/// The first `i` steps of a tick over the bodies `s`: bodies are stepped
/// one at a time in index order, each reading every other body as it
/// stands at that moment — those before it already stepped, those after
/// it not yet.
pub open spec fn ticked_bodies(s: Seq<BodyView>, t: Option<usize>, i: nat) -> Seq<BodyView>
    decreases i,
{
    if i == 0 {
        s
    } else {
        let prev = ticked_bodies(s, t, (i - 1) as nat);
        let j = i - 1;
        if j < prev.len() {
            prev.update(
                j,
                stepped_body(prev[j], prev.remove(j), t == Some((i - 1) as usize)),
            )
        } else {
            prev
        }
    }
}

/// A fresh age-zero mark at each body's position, in body order.
pub open spec fn fresh_marks(bodies_after: Seq<BodyView>) -> Seq<Mark> {
    Seq::new(
        bodies_after.len(),
        |i: int| Mark { position: bodies_after[i].position, age: 0 },
    )
}

/// The trail after a running tick: on a sampling tick a fresh mark is
/// laid down at every body's new position; then every mark (fresh ones
/// included) ages by one, and those that have reached the history bound
/// are pruned.
pub open spec fn ticked_marks(marks: Seq<Mark>, bodies_after: Seq<BodyView>, sampling: bool) -> Seq<
    Mark,
> {
    let all = if sampling {
        marks + fresh_marks(bodies_after)
    } else {
        marks
    };
    all.map_values(|m: Mark| aged_mark(m)).filter(|m: Mark| m.age < TRAIL_HISTORY)
}

/// One whole tick of a running situation: every body stepped in order,
/// the trail sampled, aged and pruned, and the tick counter advanced.  A
/// paused situation does not change at all.
pub open spec fn tick_spec(v: SituationView) -> SituationView {
    if v.paused {
        v
    } else {
        let after = ticked_bodies(v.bodies, v.tracked_body, v.bodies.len());
        SituationView {
            bodies: after,
            marks: ticked_marks(v.marks, after, v.updates % MARK_SAMPLING == 0),
            updates: (v.updates + 1) as u64,
            ..v
        }
    }
}

/// Stepping bodies never changes how many there are.
pub proof fn lemma_ticked_len(s: Seq<BodyView>, t: Option<usize>, i: nat)
    ensures
        ticked_bodies(s, t, i).len() == s.len(),
    decreases i,
{
    if i > 0 {
        lemma_ticked_len(s, t, (i - 1) as nat);
    }
}

/// A body not yet stepped still stands as it was.
pub proof fn lemma_ticked_untouched(s: Seq<BodyView>, t: Option<usize>, i: nat, k: int)
    requires
        i <= k < s.len(),
    ensures
        ticked_bodies(s, t, i)[k] == s[k],
    decreases i,
{
    if i > 0 {
        lemma_ticked_len(s, t, (i - 1) as nat);
        lemma_ticked_untouched(s, t, (i - 1) as nat, k);
    }
}

/// Once stepped, a body stands still for the rest of the tick.
pub proof fn lemma_ticked_stable(s: Seq<BodyView>, t: Option<usize>, i: nat, k: int)
    requires
        0 <= k,
        k + 1 <= i,
    ensures
        ticked_bodies(s, t, i)[k] == ticked_bodies(s, t, (k + 1) as nat)[k],
    decreases i,
{
    if i > k + 1 {
        lemma_ticked_stable(s, t, (i - 1) as nat, k);
        lemma_ticked_len(s, t, (i - 1) as nat);
    }
}

/// The number of force entries accumulated over all of `s`.
pub open spec fn total_forces(s: Seq<BodyView>) -> int
    decreases s.len(),
{
    if s.len() == 0 {
        0
    } else {
        total_forces(s.drop_last()) + s.last().forces.len()
    }
}

/// `x` capped at the machine word, as a diagnostic count must be.
pub open spec fn usize_capped(x: int) -> int {
    if x > usize::MAX {
        usize::MAX as int
    } else {
        x
    }
}

proof fn lemma_total_forces_nonneg(s: Seq<BodyView>)
    ensures
        total_forces(s) >= 0,
    decreases s.len(),
{
    if s.len() > 0 {
        lemma_total_forces_nonneg(s.drop_last());
    }
}

/// After one tick of a running situation, every body's force list holds
/// exactly one entry for each other body: with `n` bodies, `n - 1`
/// forces apiece.
pub proof fn lemma_forces_count_after_update(v: SituationView)
    requires
        !v.paused,
    ensures
        tick_spec(v).bodies.len() == v.bodies.len(),
        forall|i: int|
            0 <= i < v.bodies.len() ==> (#[trigger] tick_spec(v).bodies[i]).forces.len()
                == v.bodies.len() - 1,
{
    let n = v.bodies.len();
    lemma_ticked_len(v.bodies, v.tracked_body, n);
    assert forall|i: int|
        0 <= i < n implies (#[trigger] tick_spec(v).bodies[i]).forces.len() == n - 1 by {
        lemma_ticked_stable(v.bodies, v.tracked_body, n, i);
        lemma_ticked_len(v.bodies, v.tracked_body, i as nat);
        let prev = ticked_bodies(v.bodies, v.tracked_body, i as nat);
        assert(ticked_bodies(v.bodies, v.tracked_body, (i + 1) as nat) == prev.update(
            i,
            stepped_body(prev[i], prev.remove(i), v.tracked_body == Some(i as usize)),
        ));
    }
}

/// `v` after `k` ticks.
pub open spec fn tick_iter(v: SituationView, k: nat) -> SituationView
    decreases k,
{
    if k == 0 {
        v
    } else {
        tick_spec(tick_iter(v, (k - 1) as nat))
    }
}

/// Pausing really stops the world: while paused, any number of ticks
/// leaves the whole situation — every body, every mark, the tick counter
/// — exactly as it was.
pub proof fn lemma_paused_update_is_noop(v: SituationView, k: nat)
    requires
        v.paused,
    ensures
        tick_iter(v, k) == v,
    decreases k,
{
    if k > 0 {
        lemma_paused_update_is_noop(v, (k - 1) as nat);
    }
}

/// Every element of a filtered sequence is an element of the sequence.
proof fn lemma_filter_element_of(s: Seq<Mark>, pred: spec_fn(Mark) -> bool, j: int)
    requires
        0 <= j < s.filter(pred).len(),
    ensures
        s.contains(s.filter(pred)[j]),
    decreases s.len(),
{
    reveal_with_fuel(Seq::filter, 2);
    if s.len() > 0 {
        let shorter = s.drop_last();
        if j < shorter.filter(pred).len() {
            lemma_filter_element_of(shorter, pred, j);
            let w = choose|w: int| 0 <= w < shorter.len() && shorter[w] == shorter.filter(pred)[j];
            assert(s[w] == s.filter(pred)[j]);
        } else {
            assert(s[s.len() - 1] == s.filter(pred)[j]);
        }
    }
}

/// Marks age by exactly one each running tick and never survive to the
/// history bound: after a tick every mark's age is at least one and
/// strictly below `TRAIL_HISTORY`; and every mark whose next age still
/// lies below the bound is retained, one tick older.  So a mark is
/// pruned on the very tick its age reaches the bound.
pub proof fn lemma_marks_pruned(v: SituationView)
    requires
        !v.paused,
    ensures
        forall|j: int|
            0 <= j < tick_spec(v).marks.len() ==> 1 <= (#[trigger] tick_spec(v).marks[j]).age
                < TRAIL_HISTORY,
        forall|j: int|
            0 <= j < v.marks.len() && v.marks[j].age + 1 < TRAIL_HISTORY ==> tick_spec(
                v,
            ).marks.contains(aged_mark(#[trigger] v.marks[j])),
{
    let after = ticked_bodies(v.bodies, v.tracked_body, v.bodies.len());
    let sampling = v.updates % MARK_SAMPLING == 0;
    let all = if sampling {
        v.marks + fresh_marks(after)
    } else {
        v.marks
    };
    let f = |mm: Mark| aged_mark(mm);
    let pred = |mm: Mark| mm.age < TRAIL_HISTORY;
    let mapped = all.map_values(f);
    assert(tick_spec(v).marks == mapped.filter(pred));
    assert forall|j: int|
        0 <= j < tick_spec(v).marks.len() implies 1 <= (#[trigger] tick_spec(v).marks[j]).age
        < TRAIL_HISTORY by {
        mapped.lemma_filter_pred(pred, j);
        lemma_filter_element_of(mapped, pred, j);
        let w = choose|w: int| 0 <= w < mapped.len() && mapped[w] == mapped.filter(pred)[j];
        assert(mapped[w] == aged_mark(all[w]));
    }
    assert forall|j: int|
        0 <= j < v.marks.len() && v.marks[j].age + 1 < TRAIL_HISTORY implies tick_spec(
        v,
    ).marks.contains(aged_mark(#[trigger] v.marks[j])) by {
        assert(all[j] == v.marks[j]);
        assert(mapped[j] == aged_mark(v.marks[j]));
        mapped.lemma_filter_contains(pred, j);
    }
}

impl Situation {
    /// An empty situation: no bodies, no marks, camera at rest, running.
    pub fn new() -> (r: Self)
        ensures
            r@.bodies == Seq::<BodyView>::empty(),
            r@.marks == Seq::<Mark>::empty(),
            r.updates == 0,
            r.zoom_exponent_quarters == 0,
            r.fullscreen == false,
            r.paused == false,
            r.translation == (EuclideanVector { dx: 0, dy: 0 }),
            r.drag_start == (Coordinate { x: 0, y: 0 }),
            r.tracked_body == Option::<usize>::None,
    {
        let r = Self {
            bodies: Vec::<Body>::new(),
            marks: Vec::<Mark>::new(),
            updates: 0,
            zoom_exponent_quarters: 0,
            fullscreen: false,
            paused: false,
            translation: EuclideanVector { dx: 0, dy: 0 },
            drag_start: Coordinate { x: 0, y: 0 },
            tracked_body: None,
        };
        proof {
            assert(r@.bodies =~= Seq::<BodyView>::empty());
        }
        r
    }

    /// This situation with `body` appended to its bodies.
    pub fn with(self, body: Body) -> (r: Self)
        ensures
            r@ == (SituationView { bodies: self@.bodies.push(body@), ..self@ }),
    {
        let ghost before = self@;
        let ghost pushed = body@;
        let mut grown = self;
        grown.add(body);
        proof {
            assert(grown@ =~~= (SituationView { bodies: before.bodies.push(pushed), ..before }));
        }
        grown
    }

    /// Appends `body` to the bodies.
    pub fn add(&mut self, body: Body)
        ensures
            final(self)@ == (SituationView {
                bodies: old(self)@.bodies.push(body@),
                ..old(self)@
            }),
    {
        let ghost pushed = body@;
        self.bodies.push(body);
        proof {
            assert(self.bodies@.map_values(|b: Body| b@) =~= old(
                self,
            ).bodies@.map_values(|b: Body| b@).push(pushed));
            assert(self@ =~~= (SituationView { bodies: old(self)@.bodies.push(pushed), ..old(self)@ }));
        }
    }

    /// Advances the simulation one tick, as [`tick_spec`] describes:
    /// nothing at all while paused; otherwise every body is stepped in
    /// index order (integrating its motion, then rebuilding its force
    /// list from every other body as it stands at that moment), the trail
    /// is sampled, aged and pruned, and the tick counter advances.
    ///
    /// A body with accumulated forces must have a non-zero mass, or its
    /// acceleration would be undefined; and the tick counter must not
    /// have exhausted its machine range.
    #[verifier::rlimit(30)]
    pub fn update(&mut self)
        requires
            old(self).updates < u64::MAX,
            forall|i: int|
                0 <= i < old(self)@.bodies.len() ==> ((#[trigger] old(
                    self,
                )@.bodies[i]).forces.len() > 0 ==> old(self)@.bodies[i].mass != 0),
        ensures
            final(self)@ == tick_spec(old(self)@),
    {
        if self.paused {
            return ;
        }
        let ghost v0 = old(self)@;
        let ghost obodies = v0.bodies;
        let sampling = self.updates % MARK_SAMPLING == 0;
        let n = self.bodies.len();
        let ghost finished = ticked_bodies(obodies, v0.tracked_body, n as nat);
        proof {
            lemma_ticked_len(obodies, v0.tracked_body, n as nat);
        }

        let mut i: usize = 0;
        while i < n
            invariant
                i <= n,
                self.bodies.len() == n,
                n == obodies.len(),
                sampling == (v0.updates % MARK_SAMPLING == 0),
                finished == ticked_bodies(obodies, v0.tracked_body, n as nat),
                finished.len() == n,
                self@.bodies == ticked_bodies(obodies, v0.tracked_body, i as nat),
                sampling ==> self.marks@ == v0.marks + fresh_marks(finished).take(i as int),
                !sampling ==> self.marks@ == v0.marks,
                self.updates == v0.updates,
                self.paused == false,
                self.zoom_exponent_quarters == v0.zoom_exponent_quarters,
                self.fullscreen == v0.fullscreen,
                self.translation == v0.translation,
                self.drag_start == v0.drag_start,
                self.tracked_body == v0.tracked_body,
                forall|j: int|
                    0 <= j < n ==> ((#[trigger] obodies[j]).forces.len() > 0
                        ==> obodies[j].mass != 0),
            decreases n - i,
        {
            let ghost prev = ticked_bodies(obodies, v0.tracked_body, i as nat);
            proof {
                lemma_ticked_len(obodies, v0.tracked_body, i as nat);
                lemma_ticked_untouched(obodies, v0.tracked_body, i as nat, i as int);
            }
            let mut body = self.bodies.remove(i);
            proof {
                assert(body@ == obodies[i as int]);
                assert(self@.bodies =~= prev.remove(i as int));
            }
            let ghost others = prev.remove(i as int);
            body.update();
            body.forces.clear();
            let ghost mv = moved_view(obodies[i as int]);
            proof {
                assert(body@.forces =~= pulls_on(mv, others).take(0));
                assert(body@ =~~= (BodyView { forces: pulls_on(mv, others).take(0), ..mv }));
            }

            let m = self.bodies.len();
            let mut j: usize = 0;
            while j < m
                invariant
                    j <= m,
                    m == self.bodies.len(),
                    self@.bodies == others,
                    others.len() == m,
                    body@ == (BodyView { forces: pulls_on(mv, others).take(j as int), ..mv }),
                decreases m - j,
            {
                let pull = body.pull_from(&self.bodies[j]);
                proof {
                    crate::physics::lemma_pull_same_site(body@, mv, others[j as int]);
                    assert(self.bodies[j as int]@ == others[j as int]);
                    assert(pull == pull_spec(mv, others[j as int]));
                }
                body.forces.push(pull);
                proof {
                    let ps = pulls_on(mv, others);
                    assert(ps.take(j + 1).drop_last() =~= ps.take(j as int));
                    assert(ps.take(j + 1).last() == ps[j as int]);
                    assert(body@.forces =~= ps.take(j + 1));
                    assert(body@ =~~= (BodyView { forces: ps.take(j + 1), ..mv }));
                }
                j += 1;
            }
            proof {
                assert(pulls_on(mv, others).take(m as int) =~= pulls_on(mv, others));
            }

            if sampling {
                self.marks.push(Mark::new(body.position));
            }
            let highlight = match self.tracked_body {
                Some(k) => k == i,
                None => false,
            };
            body.highlighted = highlight;
            let ghost stepped = stepped_body(
                prev[i as int],
                others,
                v0.tracked_body == Some(i),
            );
            proof {
                assert(body@ =~~= stepped);
            }
            self.bodies.insert(i, body);
            proof {
                assert(self@.bodies =~= prev.update(i as int, stepped));
                assert(ticked_bodies(obodies, v0.tracked_body, (i + 1) as nat) == prev.update(
                    i as int,
                    stepped,
                ));
                lemma_ticked_stable(obodies, v0.tracked_body, n as nat, i as int);
                assert(stepped.position == finished[i as int].position);
                if sampling {
                    assert(self.marks@ =~= v0.marks + fresh_marks(finished).take(i + 1));
                }
            }
            i += 1;
        }
        proof {
            assert(fresh_marks(finished).take(n as int) =~= fresh_marks(finished));
        }

        let ghost all_marks = self.marks@;
        let total = self.marks.len();
        let mut kept: Vec<Mark> = Vec::new();
        let mut k: usize = 0;
        while k < total
            invariant
                k <= total,
                total == self.marks.len(),
                self.marks@ == all_marks,
                self@.bodies == finished,
                self.updates == v0.updates,
                self.paused == false,
                self.zoom_exponent_quarters == v0.zoom_exponent_quarters,
                self.fullscreen == v0.fullscreen,
                self.translation == v0.translation,
                self.drag_start == v0.drag_start,
                self.tracked_body == v0.tracked_body,
                kept@ == all_marks.take(k as int).map_values(|mm: Mark| aged_mark(mm)).filter(
                    |mm: Mark| mm.age < TRAIL_HISTORY,
                ),
            decreases total - k,
        {
            let m0 = self.marks[k];
            let aged = Mark {
                position: m0.position,
                age: if m0.age < u32::MAX {
                    m0.age + 1
                } else {
                    m0.age
                },
            };
            proof {
                assert(aged == aged_mark(m0));
            }
            if aged.age < TRAIL_HISTORY {
                kept.push(aged);
            }
            proof {
                let f = |mm: Mark| aged_mark(mm);
                let pred = |mm: Mark| mm.age < TRAIL_HISTORY;
                let before = all_marks.take(k as int).map_values(f);
                let after = all_marks.take(k + 1).map_values(f);
                assert(after =~= before.push(aged_mark(m0)));
                reveal_with_fuel(Seq::filter, 2);
                assert(after.drop_last() =~= before);
                assert(after.filter(pred) == if pred(aged_mark(m0)) {
                    before.filter(pred).push(aged_mark(m0))
                } else {
                    before.filter(pred)
                });
            }
            k += 1;
        }
        proof {
            assert(all_marks.take(total as int) =~= all_marks);
        }
        self.marks = kept;
        self.updates = self.updates + 1;
        proof {
            assert(self@ =~~= tick_spec(v0));
        }
    }

    /// The total number of force entries over all bodies, a diagnostic
    /// figure, capped at the machine word.
    pub fn count_forces(&self) -> (r: usize)
        ensures
            r == usize_capped(total_forces(self@.bodies)),
    {
        let mut result: usize = 0;
        let count = self.bodies.len();
        let mut i: usize = 0;
        while i < count
            invariant
                count == self.bodies.len(),
                i <= count,
                result == usize_capped(total_forces(self@.bodies.take(i as int))),
            decreases count - i,
        {
            let here = self.bodies[i].forces.len();
            proof {
                let views = self@.bodies;
                assert(views.take(i + 1).drop_last() =~= views.take(i as int));
                assert(views.take(i + 1).last() == views[i as int]);
                lemma_total_forces_nonneg(views.take(i as int));
            }
            if result > usize::MAX - here {
                result = usize::MAX;
            } else {
                result = result + here;
            }
            i += 1;
        }
        proof {
            assert(self@.bodies.take(count as int) =~= self@.bodies);
        }
        result
    }

    /// Flips between running and paused.
    pub fn toggle_pause(&mut self)
        ensures
            final(self)@ == (SituationView { paused: !old(self).paused, ..old(self)@ }),
    {
        self.paused = !self.paused;
    }

    /// Advances the tracked-body cursor: through the bodies in order, then
    /// off the end to "no tracking", then around again.
    pub fn track_next(&mut self)
        ensures
            final(self)@ == (SituationView {
                tracked_body: next_tracked(old(self).tracked_body, old(self)@.bodies.len()),
                ..old(self)@
            }),
    {
        match self.tracked_body {
            Some(cursor) => {
                if cursor < self.bodies.len() && self.bodies.len() - cursor > 1 {
                    self.tracked_body = Some(cursor + 1);
                } else {
                    self.tracked_body = None;
                }
            },
            None => {
                if self.bodies.len() > 0 {
                    self.tracked_body = Some(0);
                }
            },
        }
    }

    /// Zooms in by a quarter of a binary order of magnitude.
    pub fn zoom_in(&mut self)
        ensures
            final(self)@ == (SituationView {
                zoom_exponent_quarters: zoomed_in(old(self).zoom_exponent_quarters),
                ..old(self)@
            }),
    {
        if self.zoom_exponent_quarters < i64::MAX {
            self.zoom_exponent_quarters = self.zoom_exponent_quarters + 1;
        }
    }

    /// Zooms out by a quarter of a binary order of magnitude.
    pub fn zoom_out(&mut self)
        ensures
            final(self)@ == (SituationView {
                zoom_exponent_quarters: zoomed_out(old(self).zoom_exponent_quarters),
                ..old(self)@
            }),
    {
        if self.zoom_exponent_quarters > i64::MIN {
            self.zoom_exponent_quarters = self.zoom_exponent_quarters - 1;
        }
    }

    /// Returns the zoom to one-to-one.
    pub fn zoom_reset(&mut self)
        ensures
            final(self)@ == (SituationView { zoom_exponent_quarters: 0, ..old(self)@ }),
    {
        self.zoom_exponent_quarters = 0;
    }

    /// The zoom factor: two to the power of a quarter of the zoom
    /// exponent, as a fixed-point number.
    pub fn zoom(&self) -> (r: i64)
        ensures
            r == zoom_spec(self.zoom_exponent_quarters),
            1 <= r <= SPAN,
    {
        let q = self.zoom_exponent_quarters;
        if q >= 168 {
            proof {
                lemma_zoom_high(q);
            }
            SPAN
        } else if q <= -44 {
            proof {
                lemma_zoom_low(q);
            }
            1
        } else {
            let shifted: u64 = (q + 44) as u64;
            let quot: u64 = shifted / 4;
            let rem: u64 = shifted % 4;
            proof {
                vstd::arithmetic::div_mod::lemma_fundamental_div_mod_converse(
                    q as int,
                    4,
                    quot as int - 11,
                    rem as int,
                );
            }
            let base: i64 = if rem == 0 {
                1000
            } else if rem == 1 {
                1189
            } else if rem == 2 {
                1414
            } else {
                1681
            };
            proof {
                vstd::arithmetic::power2::lemma2_to64();
                vstd::arithmetic::power2::lemma2_to64_rest();
            }
            if quot >= 11 {
                let e: u64 = quot - 11;
                let mut p: i64 = base;
                let mut t: u64 = 0;
                while t < e
                    invariant
                        t <= e,
                        e <= 41,
                        1000 <= base <= 1681,
                        p == base * pow2(t as nat),
                    decreases e - t,
                {
                    proof {
                        if (t as nat) < 41 {
                            vstd::arithmetic::power2::lemma_pow2_strictly_increases(
                                t as nat,
                                41,
                            );
                        }
                        vstd::arithmetic::power2::lemma2_to64();
                        vstd::arithmetic::power2::lemma2_to64_rest();
                        assert(p * 2 <= 1681 * 0x400_0000_0000) by (nonlinear_arith)
                            requires
                                p == base * pow2(t as nat),
                                1000 <= base <= 1681,
                                pow2(t as nat) <= 0x200_0000_0000,
                        ;
                        assert(pow2((t + 1) as nat) == 2 * pow2(t as nat)) by {
                            vstd::arithmetic::power2::lemma_pow2_adds(1, t as nat);
                            vstd::arithmetic::power2::lemma2_to64();
                        }
                        assert(p * 2 == base * pow2((t + 1) as nat)) by (nonlinear_arith)
                            requires
                                p == base * pow2(t as nat),
                                pow2((t + 1) as nat) == 2 * pow2(t as nat),
                        ;
                    }
                    p = p * 2;
                    t = t + 1;
                }
                proof {
                    if (e as nat) < 42 {
                        vstd::arithmetic::power2::lemma_pow2_strictly_increases(
                            e as nat,
                            42,
                        );
                    }
                    assert(p <= 1681 * 0x200_0000_0000) by (nonlinear_arith)
                        requires
                            p == base * pow2(e as nat),
                            1000 <= base <= 1681,
                            pow2(e as nat) <= 0x200_0000_0000,
                    ;
                    assert(p >= 1000) by (nonlinear_arith)
                        requires
                            p == base * pow2(e as nat),
                            1000 <= base,
                            pow2(e as nat) >= 1,
                    ;
                }
                p
            } else {
                let e: u64 = 11 - quot;
                let mut d: i64 = 1;
                let mut t: u64 = 0;
                while t < e
                    invariant
                        t <= e,
                        e <= 11,
                        d == pow2(t as nat),
                    decreases e - t,
                {
                    proof {
                        if (t as nat) < 11 {
                            vstd::arithmetic::power2::lemma_pow2_strictly_increases(
                                t as nat,
                                11,
                            );
                        }
                        vstd::arithmetic::power2::lemma2_to64();
                        assert(pow2((t + 1) as nat) == 2 * pow2(t as nat)) by {
                            vstd::arithmetic::power2::lemma_pow2_adds(1, t as nat);
                            vstd::arithmetic::power2::lemma2_to64();
                        }
                    }
                    d = d * 2;
                    t = t + 1;
                }
                let w: i64 = ((base as u64) / (d as u64)) as i64;
                proof {
                    vstd::arithmetic::power2::lemma_pow2_pos(e as nat);
                    vstd::arithmetic::div_mod::lemma_div_pos_is_pos(base as int, d as int);
                    vstd::arithmetic::div_mod::lemma_div_is_ordered_by_denominator(
                        base as int,
                        1,
                        d as int,
                    );
                }
                if w < 1 {
                    1
                } else {
                    w
                }
            }
        }
    }

    /// Continues a drag of the view to `window_position`: the view pans by
    /// the dragged distance at the current zoom, and the drag anchor moves
    /// along.
    pub fn dragging_to(&mut self, window_position: Coordinate)
        ensures
            final(self)@ == (SituationView {
                translation: old(self).translation.plus_spec(
                    EuclideanVector::between_spec(
                        old(self).drag_start,
                        window_position,
                    ).divided_spec(zoom_spec(old(self).zoom_exponent_quarters)),
                ),
                drag_start: window_position,
                ..old(self)@
            }),
    {
        let z = self.zoom();
        let delta = window_position.minus(self.drag_start).divided(z);
        self.translation = self.translation.plus(delta);
        self.drag_start = window_position;
    }

    /// Begins a drag of the view at `window_position`.
    pub fn drag_started(&mut self, window_position: Coordinate)
        ensures
            final(self)@ == (SituationView { drag_start: window_position, ..old(self)@ }),
    {
        self.drag_start = window_position;
    }

    /// What the renderer should translate by to centre the view.  With a
    /// body tracked its index must be in range, which the tracking cursor
    /// guarantees.
    pub fn center_translation(&self) -> (r: EuclideanVector)
        requires
            self.tracked_body matches Some(t) ==> t < self.bodies.len(),
        ensures
            r == center_spec(self@),
    {
        match self.tracked_body {
            Some(cursor) => EuclideanVector::towards(self.bodies[cursor].position).negated(),
            None => self.translation,
        }
    }
}

} // verus!
