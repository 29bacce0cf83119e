//! The fixed timestep: real time is gathered frame by frame and spent in
//! steps of one sixtieth of a second, whatever the rate of the frames.
use vstd::prelude::*;
use crate::state::{GameState, GameView};
use crate::step::{stepped, update_game, written, Input};

verus! {

/// The unit of time: sixty million ticks make a second, so that a step is a
/// whole number of ticks.
pub const TICKS_PER_SECOND: u64 = 60_000_000;

/// The length of one step in ticks: one sixtieth of a second.
pub const DT: u64 = 1_000_000;

/// Time that has passed and has not been simulated yet, and the number of
/// steps made so far.
#[derive(Clone, Copy, PartialEq, Eq, Debug)]
pub struct Clock {
    pub available_time: u64,
    pub frame_count: usize,
}

/// What one frame did: the number of steps it made and the last text that a
/// step handed out to be saved.
pub struct FrameReport {
    pub steps: u64,
    pub saved: Option<String>,
}

/// The time at hand once a frame's time is added: the sum, or the most that
/// the clock can hold.
pub open spec fn gathered(available: u64, elapsed: u64) -> int {
    if available + elapsed > u64::MAX {
        u64::MAX as int
    } else {
        available + elapsed
    }
}

/// The number of whole steps in the time at hand.
pub open spec fn steps_due(available: u64, elapsed: u64) -> int {
    gathered(available, elapsed) / (DT as int)
}

/// The time that is left when the whole steps are taken out: less than one
/// step, kept for the next frame.
pub open spec fn time_left(available: u64, elapsed: u64) -> int {
    gathered(available, elapsed) % (DT as int)
}

/// The time at hand is the whole steps and what is left, and what is left is
/// less than one step.
pub proof fn lemma_time_is_kept(available: u64, elapsed: u64)
    ensures
        steps_due(available, elapsed) * DT + time_left(available, elapsed) == gathered(
            available,
            elapsed,
        ),
        0 <= time_left(available, elapsed) < DT,
        0 <= steps_due(available, elapsed),
{
}

/// A count of steps after `steps` more, or the most that the count can hold.
pub open spec fn counted(frame_count: usize, steps: int) -> int {
    if frame_count + steps > usize::MAX {
        usize::MAX as int
    } else {
        frame_count + steps
    }
}

/// The state after a run of steps, one for each cell that chance offered.
pub open spec fn run(v: GameView, input: Input, draws: Seq<(usize, usize)>) -> GameView
    decreases draws.len(),
{
    if draws.len() == 0 {
        v
    } else {
        stepped(run(v, input, draws.drop_last()), input, draws.last().0, draws.last().1)
    }
}

/// The text that a run of steps leaves to be saved: that of the last step
/// that handed one out.
pub open spec fn run_saved(v: GameView, input: Input, draws: Seq<(usize, usize)>) -> Option<
    Seq<char>,
>
    decreases draws.len(),
{
    if draws.len() == 0 {
        None
    } else {
        match written(run(v, input, draws.drop_last()), input) {
            Some(t) => Some(t),
            None => run_saved(v, input, draws.drop_last()),
        }
    }
}

/// `after` and `saved` are what a run of `steps` steps makes of `before`, for
/// some cells that chance may offer.
pub open spec fn frame_of(
    before: GameView,
    input: Input,
    steps: int,
    after: GameView,
    saved: Option<Seq<char>>,
) -> bool {
    exists|draws: Seq<(usize, usize)>|
        {
            &&& draws.len() == steps
            &&& forall|i: int| 0 <= i < draws.len() ==> (#[trigger] draws[i]).0 < 3 && draws[i].1 < 3
            &&& #[trigger] run(before, input, draws) == after
            &&& run_saved(before, input, draws) == saved
        }
}

impl Clock {
    /// A clock on which no time has passed.
    pub fn new() -> (clock: Self)
        ensures
            clock.available_time == 0,
            clock.frame_count == 0,
    {
        Clock { available_time: 0, frame_count: 0 }
    }

    /// Adds the time of one frame to the time at hand.
    pub fn gather(&mut self, elapsed: u64)
        ensures
            final(self).available_time == gathered(old(self).available_time, elapsed),
            final(self).frame_count == old(self).frame_count,
    {
        self.available_time = if elapsed > u64::MAX - self.available_time {
            u64::MAX
        } else {
            self.available_time + elapsed
        };
    }

    /// Takes the time of one step out of the time at hand, if there is as
    /// much, and counts the step.
    pub fn take_step(&mut self) -> (taken: bool)
        ensures
            taken == (old(self).available_time >= DT),
            taken ==> final(self).available_time == old(self).available_time - DT
                && final(self).frame_count == counted(old(self).frame_count, 1),
            !taken ==> *final(self) == *old(self),
    {
        if self.available_time >= DT {
            self.available_time = self.available_time - DT;
            if self.frame_count < usize::MAX {
                self.frame_count = self.frame_count + 1;
            }
            true
        } else {
            false
        }
    }
}

/// The text of an optional string.
pub open spec fn text_of(s: Option<String>) -> Option<Seq<char>> {
    match s {
        Some(t) => Some(t@),
        None => None,
    }
}

/// One frame of the driver. The time that has passed is added to the time at
/// hand; then, as long as a whole step is at hand, its time is taken out and
/// one step of the game is made. What is left, less than a step, stays on the
/// clock for the next frame.
pub fn run_frame(state: &mut GameState, clock: &mut Clock, input: &Input, elapsed: u64) -> (report:
    FrameReport)
    requires
        old(state).wf(),
    ensures
        report.steps == steps_due(old(clock).available_time, elapsed),
        final(clock).available_time == time_left(old(clock).available_time, elapsed),
        final(clock).frame_count == counted(old(clock).frame_count, report.steps as int),
        final(state).wf(),
        frame_of(
            old(state)@,
            *input,
            report.steps as int,
            final(state)@,
            text_of(report.saved),
        ),
{
    let ghost before = state@;
    let ghost start = *clock;
    clock.gather(elapsed);
    let ghost total = clock.available_time;
    let mut steps: u64 = 0;
    let mut saved: Option<String> = None;
    let ghost mut draws: Seq<(usize, usize)> = Seq::empty();
    loop
        invariant
            state.wf(),
            total == gathered(start.available_time, elapsed),
            clock.available_time + steps * DT == total,
            clock.frame_count == counted(start.frame_count, steps as int),
            draws.len() == steps,
            forall|i: int| 0 <= i < draws.len() ==> (#[trigger] draws[i]).0 < 3 && draws[i].1 < 3,
            state@ == run(before, *input, draws),
            text_of(saved) == run_saved(before, *input, draws),
        ensures
            clock.available_time < DT,
        decreases clock.available_time,
    {
        let frame: usize = clock.frame_count;
        if !clock.take_step() {
            break;
        }
        let ghost last = state@;
        let text: Option<String> = update_game(state, input, frame);
        proof {
            let pair = choose|r: usize, c: usize|
                r < 3 && c < 3 && #[trigger] stepped(last, *input, r, c) == state@;
            let more = draws.push(pair);
            assert(more.drop_last() =~= draws);
            assert(more.last() == pair);
            draws = more;
        }
        if text.is_some() {
            saved = text;
        }
        steps = steps + 1;
    }
    FrameReport { steps, saved }
}

} // verus!
