//! The animation of a whole path: a point that travels from a start through
//! an ordered list of stops to an end, one straight segment at a time.

use vstd::prelude::*;
use crate::easing::{accepts_unit_range, fixes_endpoints};
use crate::geometry::{distance, distance_spec, lemma_distance_zero, Point};
use crate::segment::{lemma_position_at_ends, lemma_progress_range, AnimateMove, SegmentState};
use crate::timing::{
    all_non_negative,
    lemma_length_within_total,
    lemma_share_bounds,
    lemma_shares_add_up,
    lemma_shares_of_nothing,
    lemma_total_length_step,
    lemma_total_non_negative,
    lemma_total_of_nothing,
    segment_time,
    share_spec,
    total_length,
    total_share,
};

verus! {

/// Why a path animation could not be made.
#[derive(Clone, Copy, Debug, PartialEq, Eq, Structural)]
pub enum AnimationError {
    /// The path was given no time at all.
    InvalidConfiguration,
}

/// What a path animation is asked to do: the way and the time for it.
pub struct PathPlan {
    /// Where the path begins.
    pub start: Point,
    /// Where the path ends.
    pub end: Point,
    /// The positions to pass on the way, in their order.
    pub stops: Seq<Point>,
    /// The time for the whole path, in microseconds.
    pub time: nat,
}

impl PathPlan {
    /// The number of segments: one to each stop, and one more to the end.
    pub open spec fn legs(self) -> nat {
        self.stops.len() + 1
    }

    /// Where segment `i` begins: at the start, or at the stop before.
    pub open spec fn leg_start(self, i: int) -> Point {
        if i <= 0 {
            self.start
        } else {
            self.stops[i - 1]
        }
    }

    /// Where segment `i` ends: at stop `i`, or, after the last stop, at the end.
    pub open spec fn leg_end(self, i: int) -> Point {
        if i >= self.stops.len() {
            self.end
        } else {
            self.stops[i]
        }
    }

    /// The length of segment `i`.
    pub open spec fn leg_length(self, i: int) -> int {
        distance_spec(self.leg_start(i), self.leg_end(i))
    }

    /// The lengths of all segments, in their order.
    pub open spec fn lengths(self) -> Seq<int> {
        Seq::new(self.legs(), |i: int| self.leg_length(i))
    }

    /// The length of the whole path.
    pub open spec fn total(self) -> int {
        total_length(self.lengths())
    }

    /// The time allotted to segment `i`: the share of the whole time that its
    /// length is of the whole length.
    pub open spec fn leg_time(self, i: int) -> int {
        share_spec(self.time as int, self.leg_length(i), self.total())
    }

    /// Segment `i` with no time spent on it.
    pub open spec fn leg(self, i: int) -> SegmentState {
        SegmentState::fresh(self.leg_start(i), self.leg_end(i), self.leg_time(i) as nat)
    }
}

/// Where a path animation stands.
pub enum Phase {
    /// On the way to the stop of this index.
    Traveling(nat),
    /// Past the last stop, on the way to the end.
    TravelingFinal,
    /// Arrived: at rest at the end.
    Idle,
}

/// What a path animation is at one moment.
pub struct PathState {
    /// The way and the time.
    pub plan: PathPlan,
    /// The index of the segment that is being travelled.
    pub leg: nat,
    /// The state of that segment.
    pub segment: SegmentState,
}

impl PathState {
    /// The state in which every animation of `plan` begins: on the first
    /// segment, with no time spent.
    pub open spec fn initial(plan: PathPlan) -> PathState {
        PathState { plan, leg: 0, segment: plan.leg(0int) }
    }

    /// The segment is one of the plan and the state's segment is that one;
    /// a segment before the last is never kept once it is over.
    pub open spec fn valid(self) -> bool {
        &&& self.leg < self.plan.legs()
        &&& self.segment.start == self.plan.leg_start(self.leg as int)
        &&& self.segment.end == self.plan.leg_end(self.leg as int)
        &&& self.segment.duration == self.plan.leg_time(self.leg as int)
        &&& self.leg < self.plan.stops.len() ==> !self.segment.finished()
    }

    /// The animation is over: the last segment is, and nothing follows it.
    /// On a path of no length there is no way to go, and the animation is
    /// over from the start.
    pub open spec fn finished(self) -> bool {
        self.plan.total() == 0 || (self.leg >= self.plan.stops.len() && self.segment.finished())
    }

    /// Where the animation stands.
    pub open spec fn phase(self) -> Phase {
        if self.finished() {
            Phase::Idle
        } else if self.leg < self.plan.stops.len() {
            Phase::Traveling(self.leg)
        } else {
            Phase::TravelingFinal
        }
    }

    /// The state after `dt` more microseconds. An animation that is over
    /// stays as it is. In any other the time goes to the segment that is
    /// being travelled. If that segment is then over and another follows,
    /// the next one begins, with no time spent on it: what `dt` held beyond
    /// the end of the old segment is dropped, and one call never moves on by
    /// more than one segment.
    pub open spec fn step(self, dt: nat) -> PathState {
        let moved = self.segment.advance(dt);
        if self.finished() {
            self
        } else if moved.finished() && self.leg < self.plan.stops.len() {
            PathState { leg: self.leg + 1, segment: self.plan.leg(self.leg as int + 1), ..self }
        } else {
            PathState { segment: moved, ..self }
        }
    }

    /// `p` is a position that the animation may show in this state under the
    /// easing function `easing`: the end of the path once it is over, before
    /// that a position of the segment that is being travelled.
    pub open spec fn shows<F: Fn(i64) -> i64>(self, easing: F, p: Point) -> bool {
        if self.finished() {
            p == self.plan.end
        } else {
            self.segment.shows(easing, p)
        }
    }
}

/// A point that travels along a path of straight segments.
pub struct PathAnimation<F> {
    starting_pos: Point,
    ending_pos: Point,
    animator: AnimateMove<F>,
    stops: Vec<Point>,
    current_stop_index: Option<usize>,
    distances: Vec<u64>,
    total_distance: u128,
    time: u64,
    easing_fn: F,
}

impl<F: Fn(i64) -> i64 + Copy> View for PathAnimation<F> {
    type V = PathState;

    closed spec fn view(&self) -> PathState {
        PathState {
            plan: PathPlan {
                start: self.starting_pos,
                end: self.ending_pos,
                stops: self.stops@,
                time: self.time as nat,
            },
            leg: match self.current_stop_index {
                Some(k) => k as nat,
                None => self.stops@.len(),
            },
            segment: self.animator@,
        }
    }
}

impl<F: Fn(i64) -> i64 + Copy> PathAnimation<F> {
    /// The easing function that shapes the movement on every segment.
    pub closed spec fn easing(&self) -> F {
        self.easing_fn
    }

    /// The lengths of the segments as the animation keeps them, one for
    /// every segment, in their order.
    pub closed spec fn distances(&self) -> Seq<int> {
        Seq::new(self.distances@.len(), |i: int| self.distances@[i] as int)
    }

    /// The length of the whole path as the animation keeps it.
    pub closed spec fn total_distance(&self) -> int {
        self.total_distance as int
    }

    /// The stored lengths are those of the plan's segments and the stored
    /// total is their sum; the segment in hand belongs to the plan, and the
    /// easing function accepts whatever progress it can be handed.
    pub closed spec fn wf(&self) -> bool {
        &&& self@.valid()
        &&& self.time > 0
        &&& self.current_stop_index matches Some(k) ==> k < self.stops@.len()
        &&& self.distances@.len() == self.stops@.len() + 1
        &&& forall|i: int|
            0 <= i < self.distances@.len() ==> #[trigger] self.distances@[i]
                == self@.plan.leg_length(i)
        &&& self.total_distance == self@.plan.total()
        &&& self.animator.wf()
        &&& self.animator.easing() == self.easing_fn
        &&& accepts_unit_range(self.easing_fn)
    }

    /// A well-formed animation is in a valid state, has been given some
    /// time, and has an easing function that accepts every progress from `0`
    /// to `UNIT`. It keeps one length for every segment, each the distance
    /// between the segment's two ends, and their sum as the length of the
    /// whole path.
    pub proof fn lemma_wf(&self)
        requires
            self.wf(),
        ensures
            self@.valid(),
            self@.plan.time > 0,
            accepts_unit_range(self.easing()),
            self.distances() == self@.plan.lengths(),
            self.distances().len() == self@.plan.stops.len() + 1,
            self.total_distance() == self@.plan.total(),
            self.total_distance() == total_length(self.distances()),
    {
        assert(self.distances() =~= self@.plan.lengths());
    }

    /// An animation from `starting_pos` through `stops` to `ending_pos` that
    /// takes `time` microseconds in all, ready on its first segment.
    ///
    /// A path must be given some time: a `time` of zero is refused.
    pub fn new(
        starting_pos: Point,
        ending_pos: Point,
        time: u64,
        stops: Vec<Point>,
        easing_fn: F,
    ) -> (made: Result<Self, AnimationError>)
        requires
            accepts_unit_range(easing_fn),
        ensures
            time == 0 <==> made == Err::<Self, AnimationError>(
                AnimationError::InvalidConfiguration,
            ),
            time > 0 <==> made is Ok,
            made matches Ok(path) ==> {
                &&& path.wf()
                &&& path.easing() == easing_fn
                &&& path@ == PathState::initial(
                    PathPlan {
                        start: starting_pos,
                        end: ending_pos,
                        stops: stops@,
                        time: time as nat,
                    },
                )
            },
    {
        if time == 0 {
            return Err(AnimationError::InvalidConfiguration);
        }
        let ghost plan = PathPlan {
            start: starting_pos,
            end: ending_pos,
            stops: stops@,
            time: time as nat,
        };
        let mut distances: Vec<u64> = Vec::new();
        let mut total_distance: u128 = 0;
        let mut last_stop = starting_pos;
        let mut i: usize = 0;
        proof {
            lemma_total_length_step(plan.lengths(), 0);
        }
        while i < stops.len()
            invariant
                i <= stops.len(),
                plan.stops == stops@,
                plan.start == starting_pos,
                distances@.len() == i,
                last_stop == plan.leg_start(i as int),
                forall|j: int| 0 <= j < i ==> #[trigger] distances@[j] == plan.leg_length(j),
                total_distance == total_length(plan.lengths().take(i as int)),
                total_distance <= i * 0x2_0000_0000,
            decreases stops.len() - i,
        {
            let current_stop = stops[i];
            let d = distance(&last_stop, &current_stop);
            proof {
                lemma_total_length_step(plan.lengths(), i as int);
            }
            distances.push(d);
            total_distance = total_distance + d as u128;
            last_stop = current_stop;
            i += 1;
        }
        let d = distance(&last_stop, &ending_pos);
        proof {
            lemma_total_length_step(plan.lengths(), i as int);
        }
        distances.push(d);
        total_distance = total_distance + d as u128;
        proof {
            lemma_lengths_non_negative(plan);
            lemma_length_within_total(plan.lengths(), 0);
        }
        let first_time = segment_time(time, distances[0], total_distance);
        let first_target = if stops.len() == 0 {
            ending_pos
        } else {
            stops[0]
        };
        let current_stop_index = if stops.len() == 0 {
            None
        } else {
            Some(0)
        };
        let animator = AnimateMove::new(starting_pos, first_target, first_time, easing_fn);
        Ok(
            PathAnimation {
                starting_pos,
                ending_pos,
                animator,
                stops,
                current_stop_index,
                distances,
                total_distance,
                time,
                easing_fn,
            },
        )
    }

    /// Puts the animation back on its first segment, with no time spent,
    /// whatever state it is in.
    pub fn restart(&mut self)
        requires
            old(self).wf(),
        ensures
            final(self).wf(),
            final(self).easing() == old(self).easing(),
            final(self)@ == PathState::initial(old(self)@.plan),
    {
        proof {
            lemma_lengths_non_negative(self@.plan);
            lemma_length_within_total(self@.plan.lengths(), 0);
        }
        let first_time = segment_time(self.time, self.distances[0], self.total_distance);
        let first_target = if self.stops.len() == 0 {
            self.ending_pos
        } else {
            self.stops[0]
        };
        self.current_stop_index = if self.stops.len() == 0 {
            None
        } else {
            Some(0)
        };
        self.animator = AnimateMove::new(self.starting_pos, first_target, first_time, self.easing_fn);
    }

    /// Lets `dt` microseconds pass.
    ///
    /// An animation that is over stays as it is. In any other the time goes
    /// to the segment that is being travelled; if that segment is then over,
    /// the next one begins.
    pub fn step(&mut self, dt: u64)
        requires
            old(self).wf(),
        ensures
            final(self).wf(),
            final(self).easing() == old(self).easing(),
            final(self)@ == old(self)@.step(dt as nat),
    {
        if self.total_distance == 0 {
            return ;
        }
        self.animator.step(dt);
        if !self.animator.finished() {
            return ;
        }
        match self.current_stop_index {
            None => {},
            Some(k) => {
                let stops = self.stops.len();
                let next = k + 1;
                proof {
                    lemma_lengths_non_negative(self@.plan);
                    lemma_length_within_total(self@.plan.lengths(), next as int);
                }
                let time = segment_time(self.time, self.distances[next], self.total_distance);
                let current_stop = self.stops[k];
                if next == stops {
                    self.current_stop_index = None;
                    self.animator = AnimateMove::new(
                        current_stop,
                        self.ending_pos,
                        time,
                        self.easing_fn,
                    );
                } else {
                    let next_stop = self.stops[next];
                    self.current_stop_index = Some(next);
                    self.animator = AnimateMove::new(current_stop, next_stop, time, self.easing_fn);
                }
            },
        }
    }

    /// Whether the animation is over: the last segment is, and nothing
    /// follows it, or the path has no length.
    pub fn finished(&self) -> (done: bool)
        requires
            self.wf(),
        ensures
            done == self@.finished(),
    {
        self.total_distance == 0 || (self.animator.finished()
            && self.current_stop_index.is_none())
    }

    /// Where the point is now: at the end of the path once the animation is
    /// over, before that where the segment that is being travelled puts it.
    pub fn get_position(&self) -> (p: Point)
        requires
            self.wf(),
        ensures
            self@.shows(self.easing(), p),
            self@.finished() ==> p == self@.plan.end,
    {
        if self.finished() {
            return self.ending_pos;
        }
        proof {
            lemma_progress_range(self@.segment);
        }
        self.animator.get_position()
    }
}

/// No segment of a plan has a negative length.
pub proof fn lemma_lengths_non_negative(plan: PathPlan)
    ensures
        all_non_negative(plan.lengths()),
        plan.lengths().len() == plan.stops.len() + 1,
{
    assert forall|i: int| 0 <= i < plan.lengths().len() implies plan.lengths()[i] >= 0 by {
        lemma_distance_zero(plan.leg_start(i), plan.leg_end(i));
    }
}

/// The times allotted to the segments of a plan, in their order.
pub open spec fn leg_times(plan: PathPlan) -> Seq<int> {
    Seq::new(plan.legs(), |i: int| plan.leg_time(i))
}

/// The times allotted to the segments of a path add up to the time of the
/// whole path, short of it by less than one microsecond per segment (what
/// the roundings down have dropped). On a path of no length they add up to
/// nothing.
pub proof fn lemma_leg_times_add_up(plan: PathPlan)
    ensures
        total_length(leg_times(plan)) == total_share(
            plan.time as int,
            plan.lengths(),
            plan.total(),
        ),
        plan.total() > 0 ==> plan.time - plan.legs() < total_length(leg_times(plan))
            <= plan.time,
        plan.total() == 0 ==> total_length(leg_times(plan)) == 0,
{
    lemma_lengths_non_negative(plan);
    lemma_times_are_shares(plan, plan.legs() as int);
    assert(leg_times(plan).take(plan.legs() as int) =~= leg_times(plan));
    assert(plan.lengths().take(plan.legs() as int) =~= plan.lengths());
    if plan.total() > 0 {
        lemma_shares_add_up(plan.time as int, plan.lengths());
    } else {
        lemma_total_non_negative(plan.lengths());
        lemma_shares_of_nothing(plan.time as int, plan.lengths());
    }
}

/// The times of the first `n` segments add up to the shares of their lengths.
proof fn lemma_times_are_shares(plan: PathPlan, n: int)
    requires
        0 <= n <= plan.legs(),
    ensures
        total_length(leg_times(plan).take(n)) == total_share(
            plan.time as int,
            plan.lengths().take(n),
            plan.total(),
        ),
    decreases n,
{
    if n > 0 {
        lemma_times_are_shares(plan, n - 1);
        assert(leg_times(plan).take(n).drop_last() =~= leg_times(plan).take(n - 1));
        assert(plan.lengths().take(n).drop_last() =~= plan.lengths().take(n - 1));
    }
}

/// Every segment of a plan is allotted a time that is not negative and not
/// more than the time of the whole path.
pub proof fn lemma_leg_time_bounds(plan: PathPlan, i: int)
    requires
        0 <= i < plan.legs(),
    ensures
        0 <= plan.leg_time(i) <= plan.time,
{
    lemma_lengths_non_negative(plan);
    lemma_length_within_total(plan.lengths(), i);
    lemma_share_bounds(plan.time as int, plan.leg_length(i), plan.total());
}

/// A path has no length exactly when all its stops and its end are where it
/// starts.
pub proof fn lemma_no_length(plan: PathPlan)
    ensures
        plan.total() >= 0,
        plan.total() == 0 <==> (plan.end == plan.start && forall|i: int|
            0 <= i < plan.stops.len() ==> plan.stops[i] == plan.start),
{
    lemma_lengths_non_negative(plan);
    lemma_total_non_negative(plan.lengths());
    let n = plan.stops.len() as int;
    if plan.total() == 0 {
        assert forall|i: int| 0 <= i <= n implies plan.leg_start(i) == plan.leg_end(i) by {
            lemma_length_within_total(plan.lengths(), i);
            lemma_distance_zero(plan.leg_start(i), plan.leg_end(i));
        }
        assert forall|i: int| 0 <= i <= n implies plan.leg_end(i) == plan.start by {
            lemma_stands_still(plan, i);
        }
        assert forall|i: int| 0 <= i < n implies plan.stops[i] == plan.start by {
            assert(plan.leg_end(i) == plan.start);
        }
        assert(plan.leg_end(n) == plan.start);
    }
    if plan.end == plan.start && (forall|i: int| 0 <= i < n ==> plan.stops[i] == plan.start) {
        assert forall|i: int| 0 <= i < plan.lengths().len() implies plan.lengths()[i] == 0 by {
            lemma_distance_zero(plan.leg_start(i), plan.leg_end(i));
        }
        lemma_total_of_nothing(plan.lengths());
    }
}

/// Where no segment leads anywhere, every segment up to segment `i` ends
/// where the path starts.
proof fn lemma_stands_still(plan: PathPlan, i: int)
    requires
        0 <= i <= plan.stops.len(),
        forall|j: int| 0 <= j <= plan.stops.len() ==> plan.leg_start(j) == plan.leg_end(j),
    ensures
        plan.leg_end(i) == plan.start,
    decreases i,
{
    if i > 0 {
        lemma_stands_still(plan, i - 1);
        assert(plan.leg_start(i) == plan.leg_end(i - 1));
    }
    assert(plan.leg_start(i) == plan.leg_end(i));
}

/// An animation that has just been made or restarted is over only if its
/// path has no length; any other is under way again, however it stood
/// before. To restart twice is to restart once.
pub proof fn lemma_initial_not_finished(plan: PathPlan)
    ensures
        PathState::initial(plan).valid(),
        PathState::initial(plan).finished() <==> plan.total() == 0,
        PathState::initial(PathState::initial(plan).plan) == PathState::initial(plan),
{
    lemma_leg_time_bounds(plan, 0);
}

/// Under an easing function that returns `0` for `0`, an animation that has
/// just been made or restarted shows the start of its path.
pub proof fn lemma_initial_position<F: Fn(i64) -> i64>(plan: PathPlan, easing: F, p: Point)
    requires
        fixes_endpoints(easing),
        PathState::initial(plan).shows(easing, p),
    ensures
        p == plan.start,
{
    let s = PathState::initial(plan);
    if s.finished() {
        lemma_no_length(plan);
    } else {
        lemma_position_at_ends(s.segment, easing, p);
    }
}

/// A time step keeps a valid state valid and leaves the plan alone; it moves
/// on by one segment at most, and an animation that is over stays exactly as
/// it is.
pub proof fn lemma_step_keeps_valid(s: PathState, dt: nat)
    requires
        s.valid(),
    ensures
        s.step(dt).valid(),
        s.step(dt).plan == s.plan,
        s.leg <= s.step(dt).leg <= s.leg + 1,
        s.finished() ==> s.step(dt) == s,
{
    if s.leg + 1 < s.plan.legs() {
        lemma_leg_time_bounds(s.plan, s.leg as int + 1);
    }
}

/// What a time step does, phase by phase. At rest nothing changes. On the
/// way to the end the time goes to the last segment, and the animation
/// comes to rest when that segment is over. On the way to a stop the time
/// goes to the segment in hand; if that segment is then over, the next one
/// begins with no time spent on it, and the animation is on the way to the
/// next stop, or, after the last stop, on the way to the end.
pub proof fn lemma_phases(s: PathState, dt: nat)
    requires
        s.valid(),
    ensures
        s.phase() is Idle <==> s.finished(),
        match s.phase() {
            Phase::Idle => s.step(dt) == s,
            Phase::TravelingFinal => {
                &&& s.step(dt).leg == s.leg
                &&& s.step(dt).segment == s.segment.advance(dt)
                &&& s.step(dt).phase() is Idle <==> s.segment.elapsed + dt > s.segment.duration
                &&& s.step(dt).phase() is TravelingFinal <==> s.segment.elapsed + dt
                    <= s.segment.duration
            },
            Phase::Traveling(k) => if s.segment.elapsed + dt > s.segment.duration {
                &&& s.step(dt).leg == k + 1
                &&& s.step(dt).segment == s.plan.leg(k as int + 1)
                &&& !s.step(dt).finished()
                &&& k + 1 < s.plan.stops.len() ==> s.step(dt).phase() == Phase::Traveling(k + 1)
                &&& k + 1 == s.plan.stops.len() ==> s.step(dt).phase() == Phase::TravelingFinal
            } else {
                &&& s.step(dt).phase() == Phase::Traveling(k)
                &&& s.step(dt).segment == s.segment.advance(dt)
            },
        },
{
}

} // verus!
