//! The statistics kept for one player over many games.

use vstd::prelude::*;

verus! {

/// The most guesses a win can take; the histogram has one counter for each
/// number of guesses up to it.
pub const MAX_ATTEMPTS: usize = 6;

/// The counters of one player as stored.
#[derive(Clone, Copy, Debug, PartialEq, Eq)]
pub struct Stats {
    pub played: i32,
    pub won: i32,
    pub streak_current: i32,
    pub streak_max: i32,
    pub frequency: [i32; 6],
}

/// Why the statistics were not changed.
#[derive(Clone, Copy, Debug, PartialEq, Eq, Structural)]
pub enum StatsError {
    /// A win was reported with a number of guesses outside one to six.
    RangeError,
    /// A loss was reported for a player of whom nothing is stored.
    NotFoundError,
}

/// A finished game as the statistics see it.
#[derive(Clone, Copy, Debug, PartialEq, Eq, Structural)]
pub enum StatsEvent {
    /// A win with this many guesses.
    Win(usize),
    Loss,
}

/// The counters as numbers without bound.
pub struct StatsView {
    pub played: int,
    pub won: int,
    pub streak_current: int,
    pub streak_max: int,
    pub frequency: Seq<int>,
}

impl StatsView {
    /// The counters of a player who has finished no game.
    pub open spec fn zero() -> StatsView {
        StatsView {
            played: 0,
            won: 0,
            streak_current: 0,
            streak_max: 0,
            frequency: Seq::new(MAX_ATTEMPTS as nat, |i: int| 0int),
        }
    }

    /// The number of wins that the histogram holds.
    pub open spec fn total(self) -> int {
        self.frequency[0] + self.frequency[1] + self.frequency[2] + self.frequency[3]
            + self.frequency[4] + self.frequency[5]
    }

    /// What holds of the counters whatever games were recorded: no counter
    /// is negative, no more games were won than played, the longest streak
    /// is no shorter than the current one, and the histogram holds every win
    /// once.
    pub open spec fn wf(self) -> bool {
        &&& 0 <= self.won <= self.played
        &&& 0 <= self.streak_current <= self.streak_max
        &&& self.frequency.len() == MAX_ATTEMPTS
        &&& forall|i: int| 0 <= i < MAX_ATTEMPTS ==> 0 <= #[trigger] self.frequency[i]
        &&& self.total() == self.won
    }

    /// The counters after one more win that took `attempts` guesses.
    pub open spec fn with_win(self, attempts: int) -> StatsView {
        StatsView {
            played: self.played + 1,
            won: self.won + 1,
            streak_current: self.streak_current + 1,
            streak_max: if self.streak_current + 1 > self.streak_max {
                self.streak_current + 1
            } else {
                self.streak_max
            },
            frequency: self.frequency.update(attempts - 1, self.frequency[attempts - 1] + 1),
        }
    }

    /// The counters after one more loss.
    pub open spec fn with_loss(self) -> StatsView {
        StatsView { played: self.played + 1, streak_current: 0, ..self }
    }

    /// The counters after one more finished game.
    pub open spec fn with_event(self, event: StatsEvent) -> StatsView {
        match event {
            StatsEvent::Win(attempts) => self.with_win(attempts as int),
            StatsEvent::Loss => self.with_loss(),
        }
    }
}

/// Whether an event can be recorded: a win took one to six guesses.
pub open spec fn recordable(event: StatsEvent) -> bool {
    match event {
        StatsEvent::Win(attempts) => 1 <= attempts <= MAX_ATTEMPTS,
        StatsEvent::Loss => true,
    }
}

/// The counters of a player after the finished games `events`, oldest first.
pub open spec fn replay(events: Seq<StatsEvent>) -> StatsView
    decreases events.len(),
{
    if events.len() == 0 {
        StatsView::zero()
    } else {
        replay(events.drop_last()).with_event(events.last())
    }
}

impl View for Stats {
    type V = StatsView;

    open spec fn view(&self) -> StatsView {
        StatsView {
            played: self.played as int,
            won: self.won as int,
            streak_current: self.streak_current as int,
            streak_max: self.streak_max as int,
            frequency: Seq::new(MAX_ATTEMPTS as nat, |i: int| self.frequency@[i] as int),
        }
    }
}

impl Stats {
    /// Whether the counters that a win with `attempts` guesses raises are
    /// all below the largest number they can hold.
    pub open spec fn room_for_win(&self, attempts: usize) -> bool {
        &&& self.played < i32::MAX
        &&& self.won < i32::MAX
        &&& self.streak_current < i32::MAX
        &&& 1 <= attempts <= MAX_ATTEMPTS ==> self.frequency@[attempts - 1] < i32::MAX
    }

    /// The counters of a player who has finished no game.
    pub fn new() -> (stats: Self)
        ensures
            stats@ == StatsView::zero(),
            stats@.wf(),
    {
        let stats = Stats {
            played: 0,
            won: 0,
            streak_current: 0,
            streak_max: 0,
            frequency: [0i32;6],
        };
        proof {
            assert(stats@.frequency =~= StatsView::zero().frequency);
        }
        stats
    }

    /// Whether the counters are such as recorded games can lead to.
    pub fn is_valid(&self) -> (r: bool)
        ensures
            r == self@.wf(),
    {
        let mut i: usize = 0;
        let mut sum: i64 = 0;
        while i < MAX_ATTEMPTS
            invariant
                i <= MAX_ATTEMPTS,
                forall|k: int| 0 <= k < i ==> 0 <= #[trigger] self@.frequency[k],
                sum == Self::partial_total(self@.frequency, i as int),
                0 <= sum <= i * i32::MAX,
            decreases MAX_ATTEMPTS - i,
        {
            if self.frequency[i] < 0 {
                return false;
            }
            sum = sum + self.frequency[i] as i64;
            i += 1;
        }
        proof {
            reveal_with_fuel(Stats::partial_total, 7);
            assert(sum == self@.total());
        }
        self.won >= 0 && self.won <= self.played && self.streak_current >= 0
            && self.streak_current <= self.streak_max && sum == self.won as i64
    }

    /// The sum of the first `n` counters of a histogram.
    pub open spec fn partial_total(frequency: Seq<int>, n: int) -> int
        decreases n,
    {
        if n <= 0 {
            0
        } else {
            Self::partial_total(frequency, n - 1) + frequency[n - 1]
        }
    }

    /// Whether a win with `attempts` guesses can be counted without a
    /// counter running over.
    pub fn has_room_for_win(&self, attempts: usize) -> (r: bool)
        ensures
            r == self.room_for_win(attempts),
    {
        self.played < i32::MAX && self.won < i32::MAX && self.streak_current < i32::MAX && (
        attempts < 1 || attempts > MAX_ATTEMPTS || self.frequency[attempts - 1] < i32::MAX)
    }

    /// Counts a win that took `attempts` guesses. With `attempts` outside
    /// one to six nothing is counted.
    pub fn record_win(&mut self, attempts: usize) -> (r: Result<(), StatsError>)
        requires
            old(self).room_for_win(attempts),
        ensures
            match r {
                Ok(_) => 1 <= attempts <= MAX_ATTEMPTS && final(self)@ == old(self)@.with_win(
                    attempts as int,
                ),
                Err(e) => !(1 <= attempts <= MAX_ATTEMPTS) && e == StatsError::RangeError
                    && *final(self) == *old(self),
            },
            old(self)@.wf() ==> final(self)@.wf(),
    {
        if attempts < 1 || attempts > MAX_ATTEMPTS {
            return Err(StatsError::RangeError);
        }
        self.played = self.played + 1;
        self.won = self.won + 1;
        self.streak_current = self.streak_current + 1;
        if self.streak_current > self.streak_max {
            self.streak_max = self.streak_current;
        }
        let count: i32 = self.frequency[attempts - 1];
        self.frequency[attempts - 1] = count + 1;
        proof {
            assert(self@.frequency =~= old(self)@.with_win(attempts as int).frequency);
        }
        Ok(())
    }

    /// Counts a loss.
    pub fn record_loss(&mut self)
        requires
            old(self).played < i32::MAX,
        ensures
            final(self)@ == old(self)@.with_loss(),
            old(self)@.wf() ==> final(self)@.wf(),
    {
        self.played = self.played + 1;
        self.streak_current = 0;
    }
}

/// The counters that stand for what is stored of a player: the stored ones,
/// or zeros where nothing is stored yet.
pub open spec fn stored(row: Option<Stats>) -> StatsView {
    match row {
        Some(stats) => stats@,
        None => StatsView::zero(),
    }
}

/// The statistics of a player, given what is stored of them: the stored
/// counters, or zeros for a player of whom nothing is stored yet.
pub fn get_stats(row: Option<Stats>) -> (stats: Stats)
    ensures
        stats@ == stored(row),
        row matches Some(found) ==> stats == found,
{
    match row {
        Some(found) => found,
        None => Stats::new(),
    }
}

/// The statistics to store after a win that took `attempts` guesses, given
/// what is stored of the player; a player of whom nothing is stored starts
/// from zeros.
pub fn add_win(row: Option<Stats>, attempts: usize) -> (r: Result<Stats, StatsError>)
    requires
        row matches Some(found) ==> found.room_for_win(attempts),
    ensures
        match r {
            Ok(stats) => 1 <= attempts <= MAX_ATTEMPTS && stats@ == stored(row).with_win(
                attempts as int,
            ),
            Err(e) => !(1 <= attempts <= MAX_ATTEMPTS) && e == StatsError::RangeError,
        },
        stored(row).wf() ==> (r matches Ok(stats) ==> stats@.wf()),
{
    let mut stats = get_stats(row);
    proof {
        assert(stats@.frequency[attempts - 1] == stats.frequency@[attempts - 1]
            || !(1 <= attempts <= MAX_ATTEMPTS));
    }
    match stats.record_win(attempts) {
        Ok(_) => Ok(stats),
        Err(e) => Err(e),
    }
}

/// The statistics to store after a loss, given what is stored of the
/// player. Of a player of whom nothing is stored no loss is counted.
pub fn add_loss(row: Option<Stats>) -> (r: Result<Stats, StatsError>)
    requires
        row matches Some(found) ==> found.played < i32::MAX,
    ensures
        match r {
            Ok(stats) => row is Some && stats@ == stored(row).with_loss(),
            Err(e) => row is None && e == StatsError::NotFoundError,
        },
        stored(row).wf() ==> (r matches Ok(stats) ==> stats@.wf()),
{
    match row {
        Some(found) => {
            let mut stats = found;
            stats.record_loss();
            Ok(stats)
        },
        None => Err(StatsError::NotFoundError),
    }
}

/// Recording a game keeps the counters well-formed and counts the game as
/// played.
pub proof fn lemma_event_keeps_wf(before: StatsView, event: StatsEvent)
    requires
        before.wf(),
        recordable(event),
    ensures
        before.with_event(event).wf(),
        before.with_event(event).played == before.played + 1,
{
}

/// After any sequence of recorded wins and losses, as many games were
/// played as were recorded, no more were won than played, the histogram
/// sums to the number of wins, and the longest streak is no shorter than
/// the current one.
pub proof fn lemma_replay_counts(events: Seq<StatsEvent>)
    requires
        forall|i: int| 0 <= i < events.len() ==> recordable(#[trigger] events[i]),
    ensures
        replay(events).played == events.len(),
        replay(events).won <= replay(events).played,
        replay(events).total() == replay(events).won,
        replay(events).streak_max >= replay(events).streak_current,
        replay(events).wf(),
    decreases events.len(),
{
    if events.len() > 0 {
        lemma_replay_counts(events.drop_last());
        lemma_event_keeps_wf(replay(events.drop_last()), events.last());
    }
}

/// The number of wins among `events` that took `attempts` guesses.
pub open spec fn wins_in(events: Seq<StatsEvent>, attempts: int) -> nat
    decreases events.len(),
{
    if events.len() == 0 {
        0
    } else {
        wins_in(events.drop_last(), attempts) + match events.last() {
            StatsEvent::Win(taken) => if taken == attempts {
                1nat
            } else {
                0nat
            },
            StatsEvent::Loss => 0nat,
        }
    }
}

/// The number of wins at the end of `events` since the last loss.
pub open spec fn current_run(events: Seq<StatsEvent>) -> nat
    decreases events.len(),
{
    if events.len() == 0 {
        0
    } else {
        match events.last() {
            StatsEvent::Win(_) => current_run(events.drop_last()) + 1,
            StatsEvent::Loss => 0,
        }
    }
}

/// The longest run of wins without a loss between them anywhere in `events`.
pub open spec fn longest_run(events: Seq<StatsEvent>) -> nat
    decreases events.len(),
{
    if events.len() == 0 {
        0
    } else if current_run(events) > longest_run(events.drop_last()) {
        current_run(events)
    } else {
        longest_run(events.drop_last())
    }
}

/// After any sequence of recorded wins and losses, each counter of the
/// histogram holds the wins that took its number of guesses, the current
/// streak is the run of wins since the last loss, and the longest streak is
/// the longest such run there was.
pub proof fn lemma_replay_histogram_and_streaks(events: Seq<StatsEvent>)
    requires
        forall|i: int| 0 <= i < events.len() ==> recordable(#[trigger] events[i]),
    ensures
        replay(events).frequency.len() == MAX_ATTEMPTS,
        forall|attempts: int|
            1 <= attempts <= MAX_ATTEMPTS ==> replay(events).frequency[attempts - 1] == #[trigger] wins_in(
                events,
                attempts,
            ),
        replay(events).streak_current == current_run(events),
        replay(events).streak_max == longest_run(events),
    decreases events.len(),
{
    if events.len() > 0 {
        let earlier = events.drop_last();
        lemma_replay_histogram_and_streaks(earlier);
        assert(recordable(events.last()));
        assert forall|attempts: int| 1 <= attempts <= MAX_ATTEMPTS implies replay(
            events,
        ).frequency[attempts - 1] == #[trigger] wins_in(events, attempts) by {
            assert(replay(earlier).frequency[attempts - 1] == wins_in(earlier, attempts));
        }
    }
}

} // verus!
