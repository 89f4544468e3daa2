//! The walk state machine.
//!
//! A walker consumes primes one at a time, in strictly increasing order. Each
//! prime becomes one step: the travel distance is the gap to the previous
//! prime (the first step measures from the sentinel 1), the travel direction
//! is the current heading, and afterwards the heading rotates by a fixed turn
//! increment and is normalized back into the open range (-360°, 360°).
//!
//! Angles are held in millidegrees, so a quarter turn is 90,000 and cardinal
//! headings are exact. Headings follow the trigonometric convention: 0° is
//! east and positive angles turn counter-clockwise, so north is +90°. The
//! floating-point placement of each segment (cosine and sine of the heading,
//! the bounding box, the canvas) belongs to the drawing binary; this module
//! states and proves everything about the step sequence that feeds it.

use vstd::prelude::*;
use crate::color::{Color, color_code, color_step, next_color};
use crate::primes::is_prime_seq_upto;
use crate::primes::lemma_prime_seq_unique;

verus! {

/// Millidegrees in a full turn.
pub const FULL_TURN_MDEG: i64 = 360000;

/// Millidegrees in a half turn: a disallowed turn increment.
pub const HALF_TURN_MDEG: i64 = 180000;

/// Millidegrees in a quarter turn: the default turn increment.
pub const QUARTER_TURN_MDEG: i64 = 90000;

/// The prime sentinel before the first step: the first segment's length is
/// `first_prime - 1`.
pub const START_PRIME_SENTINEL: u64 = 1;

/// An initial heading: a cardinal preset or an arbitrary angle in
/// millidegrees.
#[derive(Clone, Copy, PartialEq, Eq, Structural, Debug)]
pub enum Direction {
    North,
    East,
    South,
    West,
    Angle(i64),
}

/// A turn increment: a quarter-turn preset or an arbitrary angle in
/// millidegrees.
#[derive(Clone, Copy, PartialEq, Eq, Structural, Debug)]
pub enum Turn {
    Right,
    Left,
    Angle(i64),
}

/// A configuration rejected before any computation begins.
#[derive(Clone, Copy, PartialEq, Eq, Structural, Debug)]
pub enum ConfigError {
    /// The turn increment is exactly a half turn or not inside (-360°, 360°).
    InvalidTurn,
    /// The initial heading is not inside (-360°, 360°).
    InvalidDirection,
}

/// The angle, in millidegrees, that a direction preset stands for.
pub open spec fn direction_mdeg(d: Direction) -> int {
    match d {
        Direction::North => 90000,
        Direction::East => 0,
        Direction::South => -90000,
        Direction::West => 180000,
        Direction::Angle(a) => a as int,
    }
}

/// The angle, in millidegrees, that a turn preset stands for.
pub open spec fn turn_mdeg(t: Turn) -> int {
    match t {
        Turn::Right => 90000,
        Turn::Left => -90000,
        Turn::Angle(a) => a as int,
    }
}

/// A heading is valid when it lies strictly inside (-360°, 360°).
pub open spec fn valid_heading(h: int) -> bool {
    -360000 < h < 360000
}

/// A turn increment is valid when it lies strictly inside (-360°, 360°) and
/// is not a half turn in either direction.
pub open spec fn valid_turn(t: int) -> bool {
    valid_heading(t) && t != 180000 && t != -180000
}

/// One-step normalization of a heading plus a turn: adding or subtracting a
/// full turn brings the sum back into (-360°, 360°).
pub open spec fn norm_heading(a: int) -> int {
    if a <= -360000 {
        a + 360000
    } else if a >= 360000 {
        a - 360000
    } else {
        a
    }
}

/// What the drawing binary needs to place one segment: how far to travel,
/// along which heading, and in which stroke color.
#[derive(Clone, Copy, PartialEq, Eq, Structural, Debug)]
pub struct Step {
    /// The gap to the previous prime: the segment's length in world units.
    pub distance: u64,
    /// The heading while traveling, in millidegrees.
    pub heading_mdeg: i64,
    /// The stroke color of this segment.
    pub color: Color,
}

/// The walker: the state that one consumed prime advances.
///
/// Positions and the bounding box are floating-point accumulations derived
/// from the emitted [`Step`]s and live with the drawing binary.
#[derive(Clone, Copy, PartialEq, Eq, Structural, Debug)]
pub struct PrimeWalk {
    /// Primes consumed since the walker was created or reset.
    pub steps_completed: u64,
    /// The previous prime, or the sentinel 1 before the first step.
    pub last_prime: u64,
    /// The heading the walker started with, in millidegrees.
    pub initial_heading: i64,
    /// The fixed turn applied after every step, in millidegrees.
    pub turn: i64,
    /// The current heading, in millidegrees, always inside (-360°, 360°).
    pub heading: i64,
    /// The stroke color of the next drawn segment.
    pub color: Color,
    /// Whether steps are being drawn (second pass) or only measured (first).
    pub drawing: bool,
}

/// The step a walker in state `w` emits for the prime `p` (meaningful when
/// `p > w.last_prime`).
pub open spec fn spec_step(w: PrimeWalk, p: u64) -> Step {
    Step { distance: (p - w.last_prime) as u64, heading_mdeg: w.heading, color: w.color }
}

/// The walker state after consuming the prime `p` from state `w`.
pub open spec fn spec_advance(w: PrimeWalk, p: u64) -> PrimeWalk {
    PrimeWalk {
        steps_completed: (w.steps_completed + 1) as u64,
        last_prime: p,
        initial_heading: w.initial_heading,
        turn: w.turn,
        heading: norm_heading(w.heading + w.turn) as i64,
        color: if w.drawing {
            color_step(w.color)
        } else {
            w.color
        },
        drawing: w.drawing,
    }
}

/// The steps a walker in state `w` emits for the prime sequence `ps`, in
/// order.
pub open spec fn walk_step_seq(w: PrimeWalk, ps: Seq<u64>) -> Seq<Step>
    decreases ps.len(),
{
    if ps.len() == 0 {
        Seq::empty()
    } else {
        seq![spec_step(w, ps[0])] + walk_step_seq(spec_advance(w, ps[0]), ps.drop_first())
    }
}

/// The walker state after consuming the whole prime sequence `ps` from `w`.
pub open spec fn walk_final(w: PrimeWalk, ps: Seq<u64>) -> PrimeWalk
    decreases ps.len(),
{
    if ps.len() == 0 {
        w
    } else {
        walk_final(spec_advance(w, ps[0]), ps.drop_first())
    }
}

/// The state reset that begins the drawing pass: the step counter, gap base
/// and heading return to their starting values; configuration and stroke
/// color stay.
pub open spec fn spec_start_drawing(w: PrimeWalk) -> PrimeWalk {
    PrimeWalk {
        steps_completed: 0,
        last_prime: START_PRIME_SENTINEL,
        initial_heading: w.initial_heading,
        turn: w.turn,
        heading: w.initial_heading,
        color: w.color,
        drawing: true,
    }
}

/// `ps` ascends strictly from beyond `base`: what one pass requires of its
/// prime stream.
pub open spec fn ascending_from(base: u64, ps: Seq<u64>) -> bool {
    &&& ps.len() > 0 ==> base < ps[0]
    &&& forall|i: int| 0 <= i < ps.len() - 1 ==> ps[i] < #[trigger] ps[i + 1]
}

impl PrimeWalk {
    /// The walker's invariant: configuration angles are valid, the heading is
    /// normalized, and it agrees with the accumulated turns modulo a full
    /// turn.
    pub open spec fn wf(self) -> bool {
        &&& valid_turn(self.turn as int)
        &&& valid_heading(self.initial_heading as int)
        &&& valid_heading(self.heading as int)
        &&& self.last_prime >= 1
        &&& self.heading as int % 360000
            == (self.initial_heading + self.steps_completed * self.turn) % 360000
    }

    /// A fresh walker: at the origin pass, heading north, turning right a
    /// quarter turn per step, stroke color red, measuring (not drawing).
    pub fn new() -> (w: PrimeWalk)
        ensures
            w.wf(),
            w.steps_completed == 0,
            w.last_prime == START_PRIME_SENTINEL,
            w.initial_heading == QUARTER_TURN_MDEG,
            w.heading == QUARTER_TURN_MDEG,
            w.turn == QUARTER_TURN_MDEG,
            w.color == (Color { r: 255, g: 0, b: 0 }),
            !w.drawing,
    {
        PrimeWalk {
            steps_completed: 0,
            last_prime: START_PRIME_SENTINEL,
            initial_heading: QUARTER_TURN_MDEG,
            turn: QUARTER_TURN_MDEG,
            heading: QUARTER_TURN_MDEG,
            color: Color { r: 255, g: 0, b: 0 },
            drawing: false,
        }
    }

    /// Set the initial heading, rejecting an angle outside (-360°, 360°).
    /// Resets the current heading along with the configured one, as the
    /// walker has not yet stepped.
    pub fn with_direction(self, d: Direction) -> (r: Result<PrimeWalk, ConfigError>)
        requires
            self.steps_completed == 0,
            self.wf(),
        ensures
            match r {
                Ok(w) => {
                    &&& valid_heading(direction_mdeg(d))
                    &&& w == (PrimeWalk {
                        initial_heading: (direction_mdeg(d) as i64),
                        heading: (direction_mdeg(d) as i64),
                        ..self
                    })
                    &&& w.wf()
                },
                Err(e) => {
                    &&& e == ConfigError::InvalidDirection
                    &&& !valid_heading(direction_mdeg(d))
                },
            },
    {
        let a: i64 = match d {
            Direction::North => QUARTER_TURN_MDEG,
            Direction::East => 0,
            Direction::South => -QUARTER_TURN_MDEG,
            Direction::West => HALF_TURN_MDEG,
            Direction::Angle(a) => a,
        };
        if -FULL_TURN_MDEG < a && a < FULL_TURN_MDEG {
            Ok(PrimeWalk { initial_heading: a, heading: a, ..self })
        } else {
            Err(ConfigError::InvalidDirection)
        }
    }

    /// Set the turn increment, rejecting exactly ±180° and anything outside
    /// (-360°, 360°).
    pub fn with_turn(self, t: Turn) -> (r: Result<PrimeWalk, ConfigError>)
        requires
            self.wf(),
        ensures
            match r {
                Ok(w) => {
                    &&& valid_turn(turn_mdeg(t))
                    &&& w == (PrimeWalk { turn: (turn_mdeg(t) as i64), ..self })
                    &&& self.steps_completed == 0 ==> w.wf()
                },
                Err(e) => {
                    &&& e == ConfigError::InvalidTurn
                    &&& !valid_turn(turn_mdeg(t))
                },
            },
    {
        let a: i64 = match t {
            Turn::Right => QUARTER_TURN_MDEG,
            Turn::Left => -QUARTER_TURN_MDEG,
            Turn::Angle(a) => a,
        };
        if -FULL_TURN_MDEG < a && a < FULL_TURN_MDEG && a != HALF_TURN_MDEG && a
            != -HALF_TURN_MDEG {
            proof {
                if self.steps_completed == 0 {
                    assert(self.steps_completed * a == 0 && self.steps_completed * self.turn
                        == 0) by (nonlinear_arith)
                        requires self.steps_completed == 0;
                }
            }
            Ok(PrimeWalk { turn: a, ..self })
        } else {
            Err(ConfigError::InvalidTurn)
        }
    }

    /// Set the stroke color of the first drawn segment.
    pub fn with_start_color(self, r: u8, g: u8, b: u8) -> (w: PrimeWalk)
        ensures
            w == (PrimeWalk { color: (Color { r, g, b }), ..self }),
    {
        PrimeWalk { color: Color { r, g, b }, ..self }
    }

    /// Begin the drawing pass: the step counter, prime sentinel and heading
    /// return to their starting values with the configuration unchanged, so
    /// the second pass replays exactly the step sequence of the first.
    pub fn start_drawing(&mut self)
        requires
            old(self).wf(),
        ensures
            *final(self) == (PrimeWalk {
                steps_completed: 0,
                last_prime: START_PRIME_SENTINEL,
                heading: old(self).initial_heading,
                drawing: true,
                ..*old(self)
            }),
            *final(self) == spec_start_drawing(*old(self)),
            final(self).wf(),
    {
        self.steps_completed = 0;
        self.last_prime = START_PRIME_SENTINEL;
        self.heading = self.initial_heading;
        self.drawing = true;
    }

    /// The stroke color that follows the current one.
    pub fn next_color(&self) -> (c: Color)
        ensures
            color_code(c) == (color_code(self.color) + 1) % 16777216,
            c == color_step(self.color),
    {
        next_color(self.color)
    }

    /// Consume one prime: emit the step that places its segment, then rotate
    /// the heading by the turn increment, normalize it, advance the stroke
    /// color when drawing, and commit the prime as the new gap base.
    pub fn advance_to_prime(&mut self, prime: u64) -> (step: Step)
        requires
            old(self).wf(),
            prime > old(self).last_prime,
            old(self).steps_completed < u64::MAX,
        ensures
            final(self).wf(),
            step == spec_step(*old(self), prime),
            *final(self) == spec_advance(*old(self), prime),
            step.distance == prime - old(self).last_prime,
            step.heading_mdeg == old(self).heading,
            step.color == old(self).color,
            final(self).steps_completed == old(self).steps_completed + 1,
            final(self).last_prime == prime,
            final(self).heading == norm_heading(old(self).heading + old(self).turn),
    {
        let step = Step {
            distance: prime - self.last_prime,
            heading_mdeg: self.heading,
            color: self.color,
        };

        let sum: i64 = self.heading + self.turn;
        let new_heading: i64 = if sum <= -FULL_TURN_MDEG {
            sum + FULL_TURN_MDEG
        } else if sum >= FULL_TURN_MDEG {
            sum - FULL_TURN_MDEG
        } else {
            sum
        };

        if self.drawing {
            self.color = next_color(self.color);
        }

        proof {
            lemma_norm_heading_congruent(
                old(self).heading as int,
                old(self).turn as int,
                old(self).initial_heading as int,
                old(self).steps_completed as nat,
            );
        }

        self.heading = new_heading;
        self.last_prime = prime;
        self.steps_completed = self.steps_completed + 1;

        step
    }
}

/// Normalizing after one turn keeps the heading inside (-360°, 360°) and
/// keeps it congruent, modulo a full turn, to the initial heading plus the
/// accumulated turns.
pub proof fn lemma_norm_heading_congruent(h: int, t: int, init: int, k: nat)
    requires
        valid_heading(h),
        valid_heading(t),
        h % 360000 == (init + k * t) % 360000,
    ensures
        valid_heading(norm_heading(h + t)),
        norm_heading(h + t) % 360000 == (init + (k + 1) * t) % 360000,
{
    let m = 360000int;
    let n = norm_heading(h + t);
    assert(n % m == (h + t) % m) by {
        if h + t <= -m {
            vstd::arithmetic::div_mod::lemma_mod_add_multiples_vanish(h + t, m);
        } else if h + t >= m {
            vstd::arithmetic::div_mod::lemma_mod_sub_multiples_vanish(h + t, m);
        }
    }
    assert((h + t) % m == (init + (k + 1) * t) % m) by {
        vstd::arithmetic::div_mod::lemma_add_mod_noop(h, t, m);
        vstd::arithmetic::div_mod::lemma_add_mod_noop(init + k * t, t, m);
        assert(init + k * t + t == init + (k + 1) * t) by (nonlinear_arith);
    }
}

/// Heading accumulation: in every reachable walker state the heading lies in
/// (-360°, 360°) and equals, modulo a full turn, the initial heading plus one
/// turn increment per completed step.
pub proof fn lemma_heading_accumulation(w: PrimeWalk)
    requires
        w.wf(),
    ensures
        -360000 < w.heading < 360000,
        w.heading as int % 360000
            == (w.initial_heading + w.steps_completed * w.turn) % 360000,
{
}

/// Whether `ps` ascends strictly from beyond `base`: the runtime check that a
/// stream of primes (a freshly sieved one or a decoded cache) is fit to walk.
pub fn is_ascending_from(base: u64, ps: &Vec<u64>) -> (r: bool)
    ensures
        r == ascending_from(base, ps@),
{
    if ps.len() > 0 && ps[0] <= base {
        return false;
    }
    let mut k: usize = 1;
    while k < ps.len()
        invariant
            1 <= k,
            k <= ps@.len() || ps@.len() == 0,
            forall|i: int| 0 <= i < k - 1 && i < ps@.len() - 1 ==> ps@[i] < #[trigger] ps@[i + 1],
        decreases ps@.len() - k,
    {
        if ps[k] <= ps[k - 1] {
            proof {
                let i: int = k - 1;
                assert(ps@[i + 1] == ps@[k as int]);
                assert(!(ps@[i] < ps@[i + 1]));
            }
            return false;
        }
        k = k + 1;
    }
    true
}

/// Consuming one more prime at the end of a sequence advances the final
/// state once and appends one step.
proof fn lemma_walk_push(w: PrimeWalk, ps: Seq<u64>, p: u64)
    ensures
        walk_final(w, ps.push(p)) == spec_advance(walk_final(w, ps), p),
        walk_step_seq(w, ps.push(p)) == walk_step_seq(w, ps).push(
            spec_step(walk_final(w, ps), p),
        ),
    decreases ps.len(),
{
    if ps.len() == 0 {
        assert(ps.push(p)[0] == p);
        assert(ps.push(p).drop_first() =~= Seq::<u64>::empty());
        assert(walk_final(w, ps) == w);
        assert(walk_step_seq(w, ps) == Seq::<Step>::empty());
        assert(walk_final(spec_advance(w, p), Seq::<u64>::empty()) == spec_advance(w, p));
        assert(walk_step_seq(spec_advance(w, p), Seq::<u64>::empty()) == Seq::<Step>::empty());
        assert(walk_final(w, ps.push(p)) == walk_final(
            spec_advance(w, ps.push(p)[0]),
            ps.push(p).drop_first(),
        ));
        assert(walk_step_seq(w, ps.push(p)) == seq![spec_step(w, p)] + walk_step_seq(
            spec_advance(w, ps.push(p)[0]),
            ps.push(p).drop_first(),
        ));
        assert(walk_step_seq(w, ps.push(p)) =~= walk_step_seq(w, ps).push(
            spec_step(walk_final(w, ps), p),
        ));
    } else {
        lemma_walk_push(spec_advance(w, ps[0]), ps.drop_first(), p);
        assert(ps.push(p)[0] == ps[0]);
        assert(ps.push(p).drop_first() =~= ps.drop_first().push(p));
        assert(walk_final(w, ps.push(p)) == walk_final(
            spec_advance(w, ps[0]),
            ps.drop_first().push(p),
        ));
        assert(walk_step_seq(w, ps.push(p)) == seq![spec_step(w, ps[0])] + walk_step_seq(
            spec_advance(w, ps[0]),
            ps.drop_first().push(p),
        ));
        assert(walk_final(w, ps) == walk_final(spec_advance(w, ps[0]), ps.drop_first()));
        assert(walk_step_seq(w, ps) == seq![spec_step(w, ps[0])] + walk_step_seq(
            spec_advance(w, ps[0]),
            ps.drop_first(),
        ));
        assert(walk_step_seq(w, ps.push(p)) =~= walk_step_seq(w, ps).push(
            spec_step(walk_final(w, ps), p),
        ));
    }
}

/// A walk emits exactly one step per prime consumed.
pub proof fn lemma_walk_step_seq_len(w: PrimeWalk, ps: Seq<u64>)
    ensures
        walk_step_seq(w, ps).len() == ps.len(),
    decreases ps.len(),
{
    if ps.len() > 0 {
        lemma_walk_step_seq_len(spec_advance(w, ps[0]), ps.drop_first());
    }
}

/// One pass of the controller: feed every prime of `ps` through the walker,
/// in order, collecting the emitted steps. The steps and the final state are
/// functions of the starting state and the stream alone, so two passes over
/// identical streams behave identically.
pub fn run_pass(w: &mut PrimeWalk, ps: &Vec<u64>) -> (steps: Vec<Step>)
    requires
        old(w).wf(),
        ascending_from(old(w).last_prime, ps@),
        old(w).steps_completed + ps@.len() <= u64::MAX,
    ensures
        final(w).wf(),
        steps@ == walk_step_seq(*old(w), ps@),
        steps@.len() == ps@.len(),
        *final(w) == walk_final(*old(w), ps@),
{
    proof {
        lemma_walk_step_seq_len(*old(w), ps@);
    }
    let mut steps: Vec<Step> = Vec::new();
    let mut k: usize = 0;
    proof {
        assert(ps@.take(0) =~= Seq::<u64>::empty());
    }
    while k < ps.len()
        invariant
            w.wf(),
            k <= ps@.len(),
            ascending_from(old(w).last_prime, ps@),
            old(w).steps_completed + ps@.len() <= u64::MAX,
            w.steps_completed == old(w).steps_completed + k,
            w.last_prime == (if k == 0 {
                old(w).last_prime
            } else {
                ps@[k - 1]
            }),
            steps@ == walk_step_seq(*old(w), ps@.take(k as int)),
            *w == walk_final(*old(w), ps@.take(k as int)),
        decreases ps@.len() - k,
    {
        let p = ps[k];
        proof {
            if k > 0 {
                assert(ps@[k - 1] < ps@[(k - 1) + 1]);
                assert(ps@[(k - 1) + 1] == ps@[k as int]);
            }
            lemma_walk_push(*old(w), ps@.take(k as int), p);
            assert(ps@.take(k as int).push(p) =~= ps@.take(k + 1));
        }
        let step = w.advance_to_prime(p);
        steps.push(step);
        k = k + 1;
    }
    proof {
        assert(ps@.take(ps@.len() as int) =~= ps@);
    }
    steps
}

/// The two passes replay the same geometry: walkers that agree on the gap
/// base, the heading and the turn increment emit steps with identical
/// distances and headings over the same stream, whatever their drawing modes
/// and colors.
pub proof fn lemma_two_pass_replay(a: PrimeWalk, b: PrimeWalk, ps: Seq<u64>)
    requires
        a.last_prime == b.last_prime,
        a.heading == b.heading,
        a.turn == b.turn,
    ensures
        walk_step_seq(a, ps).len() == ps.len(),
        walk_step_seq(b, ps).len() == ps.len(),
        forall|i: int| 0 <= i < ps.len() ==> #[trigger] walk_step_seq(a, ps)[i].distance
            == walk_step_seq(b, ps)[i].distance && walk_step_seq(a, ps)[i].heading_mdeg
            == walk_step_seq(b, ps)[i].heading_mdeg,
    decreases ps.len(),
{
    if ps.len() > 0 {
        lemma_two_pass_replay(spec_advance(a, ps[0]), spec_advance(b, ps[0]), ps.drop_first());
        assert forall|i: int| 0 <= i < ps.len() implies #[trigger] walk_step_seq(a, ps)[i].distance
            == walk_step_seq(b, ps)[i].distance && walk_step_seq(a, ps)[i].heading_mdeg
            == walk_step_seq(b, ps)[i].heading_mdeg by {
            if i > 0 {
                let ta = walk_step_seq(spec_advance(a, ps[0]), ps.drop_first());
                let tb = walk_step_seq(spec_advance(b, ps[0]), ps.drop_first());
                assert(walk_step_seq(a, ps)[i] == ta[i - 1]);
                assert(walk_step_seq(b, ps)[i] == tb[i - 1]);
            }
        }
    }
}

/// Walking changes no configuration: the initial heading, the turn increment
/// and the drawing mode survive any stream.
proof fn lemma_walk_final_config(w: PrimeWalk, ps: Seq<u64>)
    ensures
        walk_final(w, ps).initial_heading == w.initial_heading,
        walk_final(w, ps).turn == w.turn,
        walk_final(w, ps).drawing == w.drawing,
    decreases ps.len(),
{
    if ps.len() > 0 {
        lemma_walk_final_config(spec_advance(w, ps[0]), ps.drop_first());
    }
}

/// The controller's central invariant: after a measuring walk from a fresh
/// state, resetting for the drawing pass and walking the same stream again
/// emits steps with identical distances and headings. Every position the
/// drawing pass visits is therefore one the measurement pass measured, which
/// is what lets the measured bounding box contain the whole drawing.
pub proof fn lemma_drawing_replays_measurement(w0: PrimeWalk, ps: Seq<u64>)
    requires
        w0.steps_completed == 0,
        w0.last_prime == START_PRIME_SENTINEL,
        w0.heading == w0.initial_heading,
    ensures
        walk_step_seq(spec_start_drawing(walk_final(w0, ps)), ps).len() == ps.len(),
        walk_step_seq(w0, ps).len() == ps.len(),
        forall|i: int| 0 <= i < ps.len() ==> #[trigger] walk_step_seq(
            spec_start_drawing(walk_final(w0, ps)),
            ps,
        )[i].distance == walk_step_seq(w0, ps)[i].distance && walk_step_seq(
            spec_start_drawing(walk_final(w0, ps)),
            ps,
        )[i].heading_mdeg == walk_step_seq(w0, ps)[i].heading_mdeg,
{
    lemma_walk_final_config(w0, ps);
    lemma_two_pass_replay(spec_start_drawing(walk_final(w0, ps)), w0, ps);
}

/// The pipeline is deterministic: from equal walker states, two prime
/// sequences for the same limit (fresh or replayed from the cache) drive the
/// walker through identical step sequences to identical final states.
pub proof fn lemma_pass_deterministic(w: PrimeWalk, s1: Seq<u64>, s2: Seq<u64>, limit: u64)
    requires
        is_prime_seq_upto(s1, limit),
        is_prime_seq_upto(s2, limit),
    ensures
        walk_step_seq(w, s1) == walk_step_seq(w, s2),
        walk_final(w, s1) == walk_final(w, s2),
{
    lemma_prime_seq_unique(s1, s2, limit);
}

} // verus!

