//! The animation of one straight segment: a point that moves from one fixed
//! position to another within a fixed time.

use vstd::prelude::*;
use crate::easing::fixes_endpoints;
use crate::geometry::{
    gap,
    interpolate,
    interpolate_spec,
    lemma_interpolate_approaches,
    lemma_interpolate_endpoints,
    within,
    Point,
    UNIT,
};

verus! {

/// What a segment animation is at one moment.
pub struct SegmentState {
    /// Where the segment begins.
    pub start: Point,
    /// Where the segment ends.
    pub end: Point,
    /// The time allotted to the segment, in microseconds.
    pub duration: nat,
    /// The time spent on the segment so far, in microseconds.
    pub elapsed: nat,
}

impl SegmentState {
    /// A segment on which no time has been spent.
    pub open spec fn fresh(start: Point, end: Point, duration: nat) -> SegmentState {
        SegmentState { start, end, duration, elapsed: 0 }
    }

    /// The segment is over: more time has been spent on it than it was
    /// allotted. No segment is over before any time is spent on it.
    pub open spec fn finished(self) -> bool {
        self.elapsed > self.duration
    }

    /// The time spent as a fraction of the time allotted, in parts of `UNIT`,
    /// rounded down, and no more than an `i64` holds. It is zero while no
    /// time is spent; on a segment that was allotted no time it is the
    /// largest `i64` as soon as any is.
    pub open spec fn progress(self) -> int {
        if self.elapsed == 0 {
            0
        } else if self.duration == 0 {
            i64::MAX as int
        } else if (self.elapsed * UNIT) / (self.duration as int) > i64::MAX {
            i64::MAX as int
        } else {
            (self.elapsed * UNIT) / (self.duration as int)
        }
    }

    /// The state after `dt` more microseconds: a segment that is over stays
    /// as it is, any other has the whole of `dt` added to the time spent on it.
    pub open spec fn advance(self, dt: nat) -> SegmentState {
        if self.finished() {
            self
        } else {
            SegmentState { elapsed: self.elapsed + dt, ..self }
        }
    }

    /// The state after a series of time steps, the first of `ticks` first.
    pub open spec fn after(self, ticks: Seq<nat>) -> SegmentState
        decreases ticks.len(),
    {
        if ticks.len() == 0 {
            self
        } else {
            self.after(ticks.drop_last()).advance(ticks.last())
        }
    }

    /// `p` is a position that the segment may show in this state under the
    /// easing function `easing`: the blend of its two ends by a weight that
    /// `easing` returns for the state's progress.
    pub open spec fn shows<F: Fn(i64) -> i64>(self, easing: F, p: Point) -> bool {
        exists|weight: i64|
            call_ensures(easing, (self.progress() as i64,), weight) && p == interpolate_spec(
                self.start,
                self.end,
                weight as int,
            )
    }
}

/// The sum of a series of time steps.
pub open spec fn total_time(ticks: Seq<nat>) -> nat
    decreases ticks.len(),
{
    if ticks.len() == 0 {
        0
    } else {
        total_time(ticks.drop_last()) + ticks.last()
    }
}

/// The progress of a segment is never negative; it is zero before any time
/// is spent, `UNIT` when exactly the allotted time is spent, and within
/// `0..=UNIT` as long as the segment is not over.
pub proof fn lemma_progress_range(s: SegmentState)
    ensures
        0 <= s.progress() <= i64::MAX,
        !s.finished() ==> s.progress() <= UNIT,
        s.elapsed == 0 ==> s.progress() == 0,
        s.duration > 0 && s.elapsed == s.duration ==> s.progress() == UNIT,
{
    if s.duration > 0 {
        let d = s.duration as int;
        let m = s.elapsed * UNIT;
        assert(m >= 0) by (nonlinear_arith)
            requires
                m == s.elapsed * UNIT,
                s.elapsed >= 0,
                UNIT == 1_000_000,
        ;
        assert(d * (m / d) <= m < d * (m / d) + d) by (nonlinear_arith)
            requires
                d > 0,
        ;
        assert(m / d >= 0) by (nonlinear_arith)
            requires
                m < d * (m / d) + d,
                m >= 0,
                d > 0,
        ;
        if s.elapsed <= s.duration {
            assert(m / d <= 1_000_000) by (nonlinear_arith)
                requires
                    d * (m / d) <= m,
                    m <= 1_000_000 * d,
                    d > 0,
            ;
        }
        if s.elapsed == 0 {
            assert(m == 0) by (nonlinear_arith)
                requires
                    m == s.elapsed * UNIT,
                    s.elapsed == 0,
            ;
        }
        if s.elapsed == s.duration {
            assert(m / d == 1_000_000) by (nonlinear_arith)
                requires
                    d * (m / d) <= m < d * (m / d) + d,
                    m == 1_000_000 * d,
                    d > 0,
            ;
        }
    }
}

/// Time steps leave a segment's two ends and its allotted time alone. As
/// long as the segment is not over, the time spent on it is the sum of the
/// steps; it is over as soon as that sum is more than the allotted time, and
/// stays so.
pub proof fn lemma_after(s: SegmentState, ticks: Seq<nat>)
    ensures
        ({
            let t = s.after(ticks);
            &&& t.start == s.start
            &&& t.end == s.end
            &&& t.duration == s.duration
            &&& s.finished() ==> t == s
            &&& !s.finished() ==> (t.finished() <==> s.elapsed + total_time(ticks) > s.duration)
            &&& !t.finished() ==> t.elapsed == s.elapsed + total_time(ticks)
        }),
    decreases ticks.len(),
{
    if ticks.len() > 0 {
        lemma_after(s, ticks.drop_last());
    }
}

/// A segment is over exactly when the time steps it has been given add up to
/// more than the time it was allotted, however they are cut.
pub proof fn lemma_over_when_time_is_up(start: Point, end: Point, duration: nat, ticks: Seq<nat>)
    ensures
        SegmentState::fresh(start, end, duration).after(ticks).finished() <==> total_time(ticks)
            > duration,
{
    lemma_after(SegmentState::fresh(start, end, duration), ticks);
}

/// Under an easing function that returns `0` for `0` and `UNIT` for `UNIT`,
/// every segment shows its start before any time is spent, and a segment
/// that was allotted some time shows its end when exactly that time is spent.
pub proof fn lemma_position_at_ends<F: Fn(i64) -> i64>(s: SegmentState, easing: F, p: Point)
    requires
        fixes_endpoints(easing),
        s.shows(easing, p),
    ensures
        s.elapsed == 0 ==> p == s.start,
        s.duration > 0 && s.elapsed == s.duration ==> p == s.end,
{
    lemma_progress_range(s);
    lemma_interpolate_endpoints(s.start, s.end);
}

/// Where the easing function keeps its weight between `floor` and `UNIT`,
/// the position lies between the segment's two ends, coordinate by
/// coordinate, and what separates it from the end is at most the share
/// `(UNIT - floor) / UNIT` of what separates the two ends, rounded up: the
/// closer the weight is held to `UNIT`, the closer the position is to the end.
pub proof fn lemma_position_approaches_end<F: Fn(i64) -> i64>(
    s: SegmentState,
    easing: F,
    p: Point,
    floor: int,
)
    requires
        0 <= floor,
        forall|weight: i64| #[trigger]
            call_ensures(easing, (s.progress() as i64,), weight) ==> floor <= weight <= UNIT,
        s.shows(easing, p),
    ensures
        within(s.start.x as int, s.end.x as int, p.x as int),
        within(s.start.y as int, s.end.y as int, p.y as int),
        gap(p.x as int, s.end.x as int) * UNIT <= gap(s.start.x as int, s.end.x as int) * (UNIT
            - floor) + UNIT,
        gap(p.y as int, s.end.y as int) * UNIT <= gap(s.start.y as int, s.end.y as int) * (UNIT
            - floor) + UNIT,
{
    let weight = choose|weight: i64|
        call_ensures(easing, (s.progress() as i64,), weight) && p == interpolate_spec(
            s.start,
            s.end,
            weight as int,
        );
    lemma_interpolate_approaches(s.start, s.end, weight as int);
    let gx = gap(s.start.x as int, s.end.x as int);
    let gy = gap(s.start.y as int, s.end.y as int);
    assert(gx * (UNIT - weight) <= gx * (UNIT - floor)) by (nonlinear_arith)
        requires
            gx >= 0,
            floor <= weight,
    ;
    assert(gy * (UNIT - weight) <= gy * (UNIT - floor)) by (nonlinear_arith)
        requires
            gy >= 0,
            floor <= weight,
    ;
}

/// A point on its way from one position to another.
pub struct AnimateMove<F> {
    starting_pos: Point,
    ending_pos: Point,
    duration: u64,
    elapsed: u128,
    easing_fn: F,
}

impl<F: Fn(i64) -> i64 + Copy> View for AnimateMove<F> {
    type V = SegmentState;

    closed spec fn view(&self) -> SegmentState {
        SegmentState {
            start: self.starting_pos,
            end: self.ending_pos,
            duration: self.duration as nat,
            elapsed: self.elapsed as nat,
        }
    }
}

impl<F: Fn(i64) -> i64 + Copy> AnimateMove<F> {
    /// The easing function that shapes the movement.
    pub closed spec fn easing(&self) -> F {
        self.easing_fn
    }

    /// The time spent stays within what the counter holds: a time step is
    /// only ever added to a segment that is not over.
    pub closed spec fn wf(&self) -> bool {
        self.elapsed <= self.duration + u64::MAX
    }

    /// A segment from `starting_pos` to `ending_pos` that takes `time`
    /// microseconds, with no time spent on it yet.
    pub fn new(starting_pos: Point, ending_pos: Point, time: u64, easing_fn: F) -> (segment: Self)
        ensures
            segment.wf(),
            segment@ == SegmentState::fresh(starting_pos, ending_pos, time as nat),
            segment.easing() == easing_fn,
    {
        AnimateMove { starting_pos, ending_pos, duration: time, elapsed: 0, easing_fn }
    }

    /// Lets `dt` microseconds pass. What goes beyond the end of the segment
    /// is kept in the time spent, and never handed on to anything else.
    pub fn step(&mut self, dt: u64)
        requires
            old(self).wf(),
        ensures
            final(self).wf(),
            final(self)@ == old(self)@.advance(dt as nat),
            final(self).easing() == old(self).easing(),
    {
        if self.finished() {
            return ;
        }
        self.elapsed = self.elapsed + dt as u128;
    }

    /// Whether the segment is over.
    pub fn finished(&self) -> (done: bool)
        ensures
            done == self@.finished(),
    {
        self.elapsed > self.duration as u128
    }

    /// The time spent as a fraction of the time allotted, in parts of `UNIT`.
    pub fn progress(&self) -> (p: i64)
        requires
            self.wf(),
        ensures
            p == self@.progress(),
            p >= 0,
            !self@.finished() ==> p <= UNIT,
    {
        if self.elapsed == 0 {
            return 0;
        }
        if self.duration == 0 {
            return 0x7FFF_FFFF_FFFF_FFFF;
        }
        let duration: u128 = self.duration as u128;
        let scaled: u128 = self.elapsed * 1_000_000;
        let p: u128 = scaled / duration;
        proof {
            if self.elapsed <= duration {
                assert(scaled / duration <= 1_000_000) by (nonlinear_arith)
                    requires
                        scaled <= 1_000_000 * duration,
                        duration > 0,
                ;
            }
        }
        if p > 0x7FFF_FFFF_FFFF_FFFF {
            0x7FFF_FFFF_FFFF_FFFF
        } else {
            p as i64
        }
    }

    /// Where the point is now: the blend of the segment's two ends by the
    /// weight that the easing function returns for the progress.
    ///
    /// The easing function is handed the progress as it is, also beyond
    /// `UNIT` on a segment that is over.
    pub fn get_position(&self) -> (p: Point)
        requires
            self.wf(),
            call_requires(self.easing(), (self@.progress() as i64,)),
        ensures
            self@.shows(self.easing(), p),
    {
        let f = self.easing_fn;
        let progress = self.progress();
        let weight = f(progress);
        let p = interpolate(self.starting_pos, self.ending_pos, weight);
        assert(call_ensures(self.easing(), (self@.progress() as i64,), weight) && p
            == interpolate_spec(self@.start, self@.end, weight as int));
        p
    }
}

} // verus!
