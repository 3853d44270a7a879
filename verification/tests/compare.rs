use std::collections::HashMap;

use chrono::{DateTime, Datelike, Utc};
use ddcrate::instant::Instant;
use ddcrate::level::Level;
use ddcrate::ranking::records_to_update_ranks;
use ddcrate::record::{Change, PlayerRecord};
use ddcrate::team::Team;
use ddcrate::tournament::{bonus_points, Tournament};

/// A small generator of numbers that look arbitrary.
fn next(state: &mut u64) -> u64 {
    *state = state
        .wrapping_mul(6364136223846793005)
        .wrapping_add(1442695040888963407);
    *state >> 33
}

#[test]
fn instants_order_as_chrono_orders_them() {
    let parts: [(i64, u32); 8] = [
        (-62_135_596_800, 0),
        (-1, 999_999_999),
        (0, 0),
        (0, 1),
        (59, 999_999_999),
        (59, 1_500_000_000),
        (60, 0),
        (1_656_115_200, 0),
    ];
    for a in parts {
        for b in parts {
            let x = Instant::new(a.0, a.1).unwrap();
            let y = Instant::new(b.0, b.1).unwrap();
            let dx: DateTime<Utc> = DateTime::from_timestamp(a.0, a.1).unwrap();
            let dy: DateTime<Utc> = DateTime::from_timestamp(b.0, b.1).unwrap();
            assert_eq!(x.is_before(&y), dx < dy);
            assert_eq!(x.is_same_time(&y), dx == dy);
            assert_eq!(x.calendar_year(), dx.year());
        }
    }
}

#[test]
fn standings_agree_with_a_direct_sum() {
    let mut state: u64 = 7;
    for round in 0..40u64 {
        let teams = 1 + (next(&mut state) % 9);
        let mut results: Vec<(u64, Team)> = Vec::new();
        let mut place: u64 = 1;
        let mut tied: u64 = 0;
        for k in 0..teams {
            if k > 0 && next(&mut state) % 3 != 0 {
                place += tied;
                tied = 0;
            }
            tied += 1;
            results.push((place, Team::new(2 * k + 1, 2 * k + 2).unwrap()));
        }
        let mut ranks: HashMap<u64, u64> = HashMap::new();
        for p in 1..=2 * teams {
            if next(&mut state) % 4 != 0 {
                ranks.insert(p, 1 + next(&mut state) % 250);
            }
        }
        let mut shuffled = results.clone();
        shuffled.rotate_left((round % teams) as usize);
        let at = Instant::new(1_656_115_200, 0).unwrap();
        let t = Tournament::new(shuffled, at, Level::Medium).unwrap();
        let standings = t.standings(&ranks);
        assert_eq!(standings.len(), results.len());
        for s in standings.iter() {
            let mut expected: u128 = 0;
            for (other_place, other) in results.iter() {
                if *other_place > s.place {
                    for p in other.players() {
                        expected += bonus_points(*ranks.get(p).unwrap_or(&201)) as u128;
                    }
                }
            }
            assert_eq!(s.bonus, expected);
            assert!(results.contains(&(s.place, s.team)));
        }
        for pair in standings.windows(2) {
            assert!(pair[0].place >= pair[1].place);
        }
    }
}

#[test]
fn record_holds_the_best_of_all_results() {
    let mut state: u64 = 11;
    for _ in 0..40 {
        let length = (next(&mut state) % 6) as usize;
        let count = (next(&mut state) % 15) as usize;
        let mut all: Vec<u64> = Vec::new();
        let mut record = PlayerRecord::new(1, length);
        for _ in 0..count {
            let score = next(&mut state) % 20;
            let before = record.scores();
            let change = record.add_result(score);
            all.push(score);
            match change {
                Change::Added => assert!(before.len() < length),
                Change::Replaced(out) => {
                    assert_eq!(Some(&out), before.iter().min());
                    assert!(out < score);
                }
                Change::Unchanged => {
                    assert_eq!(before.len(), length);
                    assert!(before.iter().all(|held| score <= *held));
                }
            }
        }
        all.sort();
        all.reverse();
        all.truncate(length);
        all.reverse();
        let mut held = record.scores();
        held.sort();
        assert_eq!(held, all);
    }
}

#[test]
fn record_does_not_depend_on_the_order_of_two_results() {
    for a in 0..6u64 {
        for b in 0..6u64 {
            let mut first = PlayerRecord::new_with_points(1, 3, &vec![2, 4, 3, a, b]).scores();
            let mut second = PlayerRecord::new_with_points(1, 3, &vec![2, 4, 3, b, a]).scores();
            first.sort();
            second.sort();
            assert_eq!(first, second);
        }
    }
}

#[test]
fn ranks_agree_with_a_direct_count() {
    let mut state: u64 = 3;
    for _ in 0..30 {
        let players = next(&mut state) % 12;
        let ratings: Vec<(u64, u64)> = (0..players)
            .map(|p| (p, next(&mut state) % 6))
            .collect();
        let mut ranks = HashMap::new();
        records_to_update_ranks(&ratings, &mut ranks);
        assert_eq!(ranks.len(), ratings.len());
        for (p, score) in ratings.iter() {
            let above = ratings.iter().filter(|(_, other)| other > score).count() as u64;
            assert_eq!(ranks[p], above + 1);
        }
    }
}
