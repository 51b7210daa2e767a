use wordle_game::stats::{add_loss, add_win, get_stats, Stats, StatsError};

fn stats(played: i32, won: i32, current: i32, max: i32, frequency: [i32; 6]) -> Stats {
    Stats { played, won, streak_current: current, streak_max: max, frequency }
}

#[test]
fn new_stats_are_zero() {
    assert_eq!(Stats::new(), stats(0, 0, 0, 0, [0; 6]));
    assert!(Stats::new().is_valid());
}

#[test]
fn first_win_in_three() {
    assert_eq!(add_win(None, 3), Ok(stats(1, 1, 1, 1, [0, 0, 1, 0, 0, 0])));
}

#[test]
fn get_stats_reads_or_starts_from_zero() {
    assert_eq!(get_stats(None), stats(0, 0, 0, 0, [0; 6]));
    let row = stats(4, 2, 0, 2, [0, 1, 1, 0, 0, 0]);
    assert_eq!(get_stats(Some(row)), row);
}

#[test]
fn win_raises_the_counters() {
    let mut s = stats(4, 2, 1, 2, [0, 1, 1, 0, 0, 0]);
    assert_eq!(s.record_win(6), Ok(()));
    assert_eq!(s, stats(5, 3, 2, 2, [0, 1, 1, 0, 0, 1]));
    assert_eq!(s.record_win(1), Ok(()));
    assert_eq!(s, stats(6, 4, 3, 3, [1, 1, 1, 0, 0, 1]));
}

#[test]
fn win_out_of_range_changes_nothing() {
    let mut s = stats(4, 2, 1, 2, [0, 1, 1, 0, 0, 0]);
    assert_eq!(s.record_win(0), Err(StatsError::RangeError));
    assert_eq!(s.record_win(7), Err(StatsError::RangeError));
    assert_eq!(s, stats(4, 2, 1, 2, [0, 1, 1, 0, 0, 0]));
    assert_eq!(add_win(Some(s), 0), Err(StatsError::RangeError));
    assert_eq!(add_win(None, 7), Err(StatsError::RangeError));
}

#[test]
fn loss_ends_the_streak() {
    let mut s = stats(5, 3, 2, 2, [0, 1, 1, 0, 0, 1]);
    s.record_loss();
    assert_eq!(s, stats(6, 3, 0, 2, [0, 1, 1, 0, 0, 1]));
    assert_eq!(add_loss(Some(s)), Ok(stats(7, 3, 0, 2, [0, 1, 1, 0, 0, 1])));
}

#[test]
fn loss_without_a_record_is_an_error() {
    assert_eq!(add_loss(None), Err(StatsError::NotFoundError));
}

#[test]
fn counters_stay_consistent_over_a_run_of_games() {
    let mut row = None;
    let games: [Option<usize>; 8] =
        [Some(3), Some(1), None, Some(6), Some(3), Some(2), None, Some(4)];
    let mut recorded = 0;
    for game in games {
        let next = match game {
            Some(attempts) => add_win(row, attempts).unwrap(),
            None => add_loss(row).unwrap(),
        };
        recorded += 1;
        assert_eq!(next.played, recorded);
        assert!(next.won <= next.played);
        assert_eq!(next.frequency.iter().sum::<i32>(), next.won);
        assert!(next.streak_max >= next.streak_current);
        assert!(next.is_valid());
        row = Some(next);
    }
    assert_eq!(row, Some(stats(8, 6, 1, 3, [1, 1, 2, 1, 0, 1])));
}

#[test]
fn is_valid_tells_inconsistent_counters() {
    assert!(stats(3, 2, 1, 2, [1, 1, 0, 0, 0, 0]).is_valid());
    assert!(!stats(1, 2, 1, 2, [1, 1, 0, 0, 0, 0]).is_valid());
    assert!(!stats(3, 2, 3, 2, [1, 1, 0, 0, 0, 0]).is_valid());
    assert!(!stats(3, 2, 1, 2, [1, 0, 0, 0, 0, 0]).is_valid());
    assert!(!stats(3, 2, 1, 2, [3, -1, 0, 0, 0, 0]).is_valid());
}

#[test]
fn room_for_a_win_ends_at_the_largest_count() {
    assert!(stats(3, 2, 1, 2, [1, 1, 0, 0, 0, 0]).has_room_for_win(1));
    assert!(!stats(i32::MAX, 2, 1, 2, [1, 1, 0, 0, 0, 0]).has_room_for_win(1));
    assert!(!stats(3, 2, 1, 2, [i32::MAX, 1, 0, 0, 0, 0]).has_room_for_win(1));
    assert!(stats(3, 2, 1, 2, [i32::MAX, 1, 0, 0, 0, 0]).has_room_for_win(2));
    assert!(stats(3, 2, 1, 2, [1, 1, 0, 0, 0, 0]).has_room_for_win(9));
}
