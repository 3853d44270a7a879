use std::collections::HashMap;

use chrono::{Datelike, TimeZone, Utc};
use ddcrate::instant::Instant;
use ddcrate::level::Level;
use ddcrate::ranking::{rank_of_score, rank_schedule, records_to_update_ranks, OutOfOrder, RankEngine, Refresh};
use ddcrate::record::{credit, rating_changed, Change, PlayerRecord, RECORD_LENGTH};
use ddcrate::score::ZERO;
use ddcrate::score::{bits_of_score, score_of_bits, SIGN};
use ddcrate::team::{RepeatedPlayer, Team};
use ddcrate::tournament::{
    bonus_points, check_ascending, check_places, find_repeated_player, sort_by_place, team_bonus, InconsistentRanks,
    InvalidTournament, Tournament, UNRANKED,
};

fn team(a: u64, b: u64) -> Team {
    Team::new(a, b).unwrap()
}

fn at(year: i32, month: u32, day: u32) -> Instant {
    let dt = Utc.with_ymd_and_hms(year, month, day, 0, 0, 0).unwrap();
    Instant::new(dt.timestamp(), dt.timestamp_subsec_nanos()).unwrap()
}

fn four_teams(places: [u64; 4]) -> Vec<(u64, Team)> {
    vec![
        (places[0], team(1, 2)),
        (places[1], team(3, 4)),
        (places[2], team(5, 6)),
        (places[3], team(7, 8)),
    ]
}

#[test]
fn team_is_put_in_order() {
    assert_eq!(Team::new(7, 3).unwrap().players(), [&3, &7]);
    assert_eq!(Team::new(3, 7).unwrap().players(), [&3, &7]);
    assert_eq!(Team::new(7, 3).unwrap(), Team::new(3, 7).unwrap());
    assert_eq!(Team::new_unchecked(3, 7), Team::new(7, 3).unwrap());
}

#[test]
fn team_of_one_player_is_refused() {
    assert_eq!(Team::new(5, 5), Err(RepeatedPlayer(5)));
}

#[test]
fn level_names_and_bases() {
    assert_eq!(Level::Small.directory_name(), "small");
    assert_eq!(Level::Medium.directory_name(), "medium");
    assert_eq!(Level::Major.directory_name(), "major");
    assert_eq!(Level::Championship.directory_name(), "championship");
    assert_eq!(Level::Small.point_base(), 50);
    assert_eq!(Level::Medium.point_base(), 125);
    assert_eq!(Level::Major.point_base(), 200);
    assert_eq!(Level::Championship.point_base(), 250);
    assert_eq!(
        Level::all(),
        vec![Level::Small, Level::Medium, Level::Major, Level::Championship]
    );
}

#[test]
fn instant_knows_its_year() {
    let t = Instant::new(1431648000, 0).unwrap();
    assert_eq!(t.calendar_year(), 2015);
    assert_eq!(t.timestamp(), 1431648000);
    assert_eq!(t.subsec_nanos(), 0);
    assert_eq!(Instant::new(-1, 0).unwrap().calendar_year(), 1969);
    assert_eq!(Instant::new(0, 0).unwrap().calendar_year(), 1970);
}

#[test]
fn instant_out_of_the_calendar_is_refused() {
    assert!(Instant::new(i64::MAX, 0).is_none());
    assert!(Instant::new(i64::MIN, 0).is_none());
    assert!(Instant::new(0, 2_000_000_000).is_none());
}

#[test]
fn instant_minimum_is_the_calendars() {
    let earliest = chrono::DateTime::<Utc>::MIN_UTC;
    let m = Instant::minimum();
    assert_eq!(m.timestamp(), earliest.timestamp());
    assert_eq!(m.subsec_nanos(), earliest.timestamp_subsec_nanos());
    assert_eq!(m.calendar_year(), earliest.year());
    assert!(m.is_before(&at(1970, 1, 1)));
    assert!(Instant::new(m.timestamp() - 1, 0).is_none());
    assert_eq!(Instant::new(m.timestamp(), m.subsec_nanos()), Some(m));
}

#[test]
fn instants_compare_by_time() {
    let a = Instant::new(100, 5).unwrap();
    let b = Instant::new(100, 6).unwrap();
    let c = Instant::new(101, 0).unwrap();
    assert!(a.is_before(&b));
    assert!(b.is_before(&c));
    assert!(!c.is_before(&a));
    assert!(!a.is_before(&a));
    assert!(a.is_same_time(&a));
    assert!(!a.is_same_time(&b));
}

#[test]
fn tournament_places_with_a_tie_are_accepted() {
    let t = Tournament::new(four_teams([1, 2, 2, 4]), at(2022, 6, 25), Level::Small).unwrap();
    assert_eq!(t.placements(), &four_teams([1, 2, 2, 4]));
    assert_eq!(t.tier(), Level::Small);
    assert_eq!(t.time(), at(2022, 6, 25));
}

#[test]
fn tournament_places_after_a_tie_must_skip() {
    let r = Tournament::new(four_teams([1, 2, 2, 3]), at(2022, 6, 25), Level::Small);
    assert!(matches!(
        r,
        Err(InvalidTournament::InconsistentRanks(InconsistentRanks()))
    ));
}

#[test]
fn tournament_places_must_start_at_one() {
    let r = Tournament::new(vec![(2, team(1, 2))], at(2022, 6, 25), Level::Small);
    assert!(matches!(r, Err(InvalidTournament::InconsistentRanks(_))));
}

#[test]
fn tournament_with_a_long_tie_and_more_places_is_accepted() {
    let results = vec![
        (1, team(1, 2)),
        (2, team(3, 4)),
        (2, team(5, 6)),
        (4, team(7, 8)),
        (5, team(9, 10)),
    ];
    assert!(Tournament::new(results, at(2022, 6, 25), Level::Major).is_ok());
}

#[test]
fn tournament_results_are_sorted_by_place() {
    let results = vec![(4, team(7, 8)), (2, team(5, 6)), (1, team(1, 2)), (2, team(3, 4))];
    let t = Tournament::new(results, at(2022, 6, 25), Level::Medium).unwrap();
    assert_eq!(
        t.placements(),
        &vec![(1, team(1, 2)), (2, team(5, 6)), (2, team(3, 4)), (4, team(7, 8))]
    );
}

#[test]
fn tournament_player_in_two_teams_is_refused() {
    let results = vec![(1, team(1, 2)), (2, team(2, 3))];
    let r = Tournament::new(results, at(2022, 6, 25), Level::Small);
    assert!(matches!(
        r,
        Err(InvalidTournament::RepeatedPlayer(RepeatedPlayer(2)))
    ));
}

#[test]
fn tournament_repeated_player_comes_before_places() {
    let results = vec![(1, team(1, 2)), (5, team(2, 3))];
    let r = Tournament::new(results, at(2022, 6, 25), Level::Small);
    assert!(matches!(r, Err(InvalidTournament::RepeatedPlayer(_))));
}

#[test]
fn tournament_without_results_is_accepted() {
    let t = Tournament::new(Vec::new(), at(2022, 6, 25), Level::Small).unwrap();
    assert!(t.placements().is_empty());
    assert!(t.standings(&HashMap::new()).is_empty());
}

#[test]
fn unchecked_tournament_can_be_tested() {
    let good = Tournament::new_unchecked(four_teams([1, 2, 2, 4]), at(2022, 6, 25), Level::Small);
    assert!(good.is_valid());
    assert!(check_ascending(&four_teams([1, 1, 2, 9])));
    assert!(!check_ascending(&four_teams([1, 3, 2, 9])));
}

#[test]
fn validation_parts() {
    assert_eq!(find_repeated_player(&four_teams([1, 2, 2, 4])), None);
    assert_eq!(
        find_repeated_player(&vec![(1, Team::new_unchecked(5, 5))]),
        Some(5)
    );
    assert_eq!(
        find_repeated_player(&vec![(1, team(1, 2)), (2, team(3, 4)), (3, team(4, 9))]),
        Some(4)
    );
    assert!(check_places(&four_teams([1, 2, 2, 4])));
    assert!(!check_places(&four_teams([1, 2, 2, 3])));
    assert!(!check_places(&four_teams([1, 1, 2, 4])));
    assert!(check_places(&four_teams([1, 1, 1, 1])));
    assert!(check_places(&Vec::new()));
    assert_eq!(
        sort_by_place(vec![(3, team(1, 2)), (1, team(3, 4)), (3, team(5, 6)), (2, team(7, 8))]),
        vec![(1, team(3, 4)), (2, team(7, 8)), (3, team(1, 2)), (3, team(5, 6))]
    );
}

#[test]
fn bonus_table() {
    let expected: [(u64, u64); 15] = [
        (0, 20),
        (1, 20),
        (5, 20),
        (6, 15),
        (10, 15),
        (11, 10),
        (20, 10),
        (21, 5),
        (50, 5),
        (51, 2),
        (100, 2),
        (101, 1),
        (200, 1),
        (201, 0),
        (u64::MAX, 0),
    ];
    for (rank, halves) in expected {
        assert_eq!(bonus_points(rank), halves);
    }
    assert_eq!(UNRANKED, 201);
}

#[test]
fn team_bonus_adds_both_players() {
    let mut ranks = HashMap::new();
    ranks.insert(1, 3);
    ranks.insert(2, 60);
    assert_eq!(team_bonus(&ranks, &team(1, 2)), 22);
    assert_eq!(team_bonus(&ranks, &team(2, 9)), 2);
    assert_eq!(team_bonus(&ranks, &team(8, 9)), 0);
}

#[test]
fn standings_carry_the_bonus_of_all_worse_places() {
    let t = Tournament::new(four_teams([1, 2, 2, 4]), at(2022, 6, 25), Level::Small).unwrap();
    let mut ranks = HashMap::new();
    ranks.insert(7, 1);
    ranks.insert(5, 10);
    ranks.insert(6, 50);
    ranks.insert(3, 200);
    ranks.insert(4, 201);
    ranks.insert(1, 1);
    let s = t.standings(&ranks);
    assert_eq!(s.len(), 4);
    assert_eq!((s[0].place, s[0].team, s[0].bonus), (4, team(7, 8), 0));
    assert_eq!((s[1].place, s[1].team, s[1].bonus), (2, team(5, 6), 20));
    assert_eq!((s[2].place, s[2].team, s[2].bonus), (2, team(3, 4), 20));
    assert_eq!((s[3].place, s[3].team, s[3].bonus), (1, team(1, 2), 41));
}

#[test]
fn standings_of_unranked_players_carry_no_bonus() {
    let t = Tournament::new(four_teams([1, 2, 3, 4]), at(2022, 6, 25), Level::Small).unwrap();
    let s = t.standings(&HashMap::new());
    assert!(s.iter().all(|x| x.bonus == 0));
}

#[test]
fn single_team_tournament_of_the_current_season() {
    let t = Tournament::new(vec![(1, team(10, 20))], at(2023, 3, 1), Level::Small).unwrap();
    assert_eq!(t.age(2023), 0);
    let s = t.standings(&HashMap::new());
    assert_eq!(s.len(), 1);
    assert_eq!((s[0].place, s[0].team, s[0].bonus), (1, team(10, 20), 0));
    assert_eq!(t.tier().point_base(), 50);
    let points = 50.0 / 1.1f64.powi(1) / 1.1f64.powi(0) + s[0].bonus as f64 * 0.5;
    assert!((points / 2.0 - 22.727272727272727).abs() < 1e-12);
}

#[test]
fn age_counts_seasons() {
    let t = Tournament::new(Vec::new(), at(2020, 12, 31), Level::Small).unwrap();
    assert_eq!(t.age(2023), 3);
    assert_eq!(t.age(2020), 0);
    assert_eq!(t.age(2019), -1);
    assert_eq!(t.age(i32::MIN), i32::MIN as i64 - 2020);
}

#[test]
fn record_keeps_everything_while_there_is_room() {
    let mut r = PlayerRecord::new(9, 3);
    assert_eq!(r.id(), 9);
    assert_eq!(r.record_length(), 3);
    assert_eq!(r.add_result(30), Change::Added);
    assert_eq!(r.add_result(10), Change::Added);
    assert_eq!(r.add_result(20), Change::Added);
    let mut held = r.scores();
    held.sort();
    assert_eq!(held, vec![10, 20, 30]);
    assert_eq!(r.held(), 3);
}

#[test]
fn record_order_does_not_matter_while_there_is_room() {
    let mut a = PlayerRecord::new_with_points(1, 4, &vec![4, 1, 3]).scores();
    let mut b = PlayerRecord::new_with_points(1, 4, &vec![3, 4, 1]).scores();
    a.sort();
    b.sort();
    assert_eq!(a, b);
    assert_eq!(a.iter().sum::<u64>(), 8);
}

#[test]
fn full_record_drops_the_least() {
    let mut r = PlayerRecord::new_with_points(1, 3, &vec![30, 10, 20]);
    assert_eq!(r.add_result(25), Change::Replaced(10));
    let mut held = r.scores();
    held.sort();
    assert_eq!(held, vec![20, 25, 30]);
    assert_eq!(r.add_result(20), Change::Unchanged);
    assert_eq!(r.add_result(5), Change::Unchanged);
    let mut held = r.scores();
    held.sort();
    assert_eq!(held, vec![20, 25, 30]);
    assert_eq!(r.add_result(21), Change::Replaced(20));
}

#[test]
fn record_of_the_usual_length_holds_ten() {
    assert_eq!(RECORD_LENGTH, 10);
    let points: Vec<u64> = (1..=12).collect();
    let r = PlayerRecord::new_with_points(4, RECORD_LENGTH, &points);
    let mut held = r.scores();
    held.sort();
    assert_eq!(held, (3..=12).collect::<Vec<u64>>());
}

#[test]
fn record_of_no_length_keeps_nothing() {
    let mut r = PlayerRecord::new(1, 0);
    assert_eq!(r.add_result(7), Change::Unchanged);
    assert_eq!(r.held(), 0);
}

#[test]
fn record_with_more_points_than_length_keeps_the_best() {
    let r = PlayerRecord::new_with_points(1, 2, &vec![5, 9, 1, 7, 9, 3]);
    let mut held = r.scores();
    held.sort();
    assert_eq!(held, vec![9, 9]);
}

#[test]
fn ranks_follow_standard_competition_ranking() {
    let ratings = vec![(1, 30), (2, 50), (3, 30), (4, 10)];
    let mut ranks = HashMap::new();
    ranks.insert(99, 1);
    records_to_update_ranks(&ratings, &mut ranks);
    assert_eq!(ranks.len(), 4);
    assert_eq!(ranks[&2], 1);
    assert_eq!(ranks[&1], 2);
    assert_eq!(ranks[&3], 2);
    assert_eq!(ranks[&4], 4);
    assert_eq!(rank_of_score(&ratings, 3), 4);
}

#[test]
fn ranks_are_the_same_on_a_second_run() {
    let ratings = vec![(1, 30), (2, 50), (3, 30), (4, 10), (5, 50)];
    let mut first = HashMap::new();
    let mut second = HashMap::new();
    records_to_update_ranks(&ratings, &mut first);
    records_to_update_ranks(&ratings, &mut second);
    assert_eq!(first, second);
    assert_eq!(first[&2], 1);
    assert_eq!(first[&5], 1);
    assert_eq!(first[&1], 3);
}

#[test]
fn ranks_of_nobody_are_empty() {
    let mut ranks = HashMap::new();
    ranks.insert(1, 1);
    records_to_update_ranks(&Vec::new(), &mut ranks);
    assert!(ranks.is_empty());
}

fn empty_at(year: i32, month: u32, day: u32) -> Tournament {
    Tournament::new(Vec::new(), at(year, month, day), Level::Small).unwrap()
}

#[test]
fn schedule_refreshes_when_time_moves_on() {
    let ts = vec![
        empty_at(2020, 1, 1),
        empty_at(2020, 2, 1),
        empty_at(2020, 2, 1),
        empty_at(2020, 3, 1),
    ];
    let plan = rank_schedule(&ts).unwrap();
    assert_eq!(plan.after, vec![true, true, false, true]);
    assert!(!plan.at_end);
}

#[test]
fn schedule_refreshes_at_the_end_after_a_shared_instant() {
    let ts = vec![empty_at(2020, 1, 1), empty_at(2020, 1, 1)];
    let plan = rank_schedule(&ts).unwrap();
    assert_eq!(plan.after, vec![true, false]);
    assert!(plan.at_end);
    let none = rank_schedule(&Vec::new()).unwrap();
    assert!(none.after.is_empty());
    assert!(none.at_end);
}

#[test]
fn schedule_refuses_tournaments_out_of_order() {
    let ts = vec![empty_at(2020, 1, 1), empty_at(2021, 1, 1), empty_at(2020, 6, 1)];
    assert_eq!(rank_schedule(&ts).err(), Some(OutOfOrder { index: 2 }));
}

#[test]
fn engine_steps() {
    let mut e = RankEngine::new();
    assert!(e.needs_updating());
    assert_eq!(e.advance(at(2020, 1, 1)), Some(Refresh::Now));
    assert!(!e.needs_updating());
    assert_eq!(e.advance(at(2020, 1, 1)), Some(Refresh::Deferred));
    assert!(e.needs_updating());
    assert_eq!(e.advance(at(2019, 1, 1)), None);
    assert!(e.needs_updating());
    assert_eq!(e.advance(at(2020, 1, 2)), Some(Refresh::Now));
    assert!(!e.needs_updating());
}

#[test]
fn scores_order_as_numbers_do() {
    let numbers: [f64; 9] = [
        f64::NEG_INFINITY,
        -1.0e300,
        -2.5,
        -1.0e-300,
        0.0,
        1.0e-300,
        22.727272727272727,
        45.5,
        f64::INFINITY,
    ];
    for pair in numbers.windows(2) {
        assert!(score_of_bits(pair[0].to_bits()) < score_of_bits(pair[1].to_bits()));
    }
    for x in numbers {
        assert_eq!(bits_of_score(score_of_bits(x.to_bits())), x.to_bits());
    }
    assert_eq!(score_of_bits(0), SIGN);
    assert_eq!(score_of_bits(1.0f64.to_bits()), 0xBFF0_0000_0000_0000);
    assert_eq!(score_of_bits((-1.0f64).to_bits()), 0x400F_FFFF_FFFF_FFFF);
    assert_eq!(bits_of_score(u64::MAX), 0x7FFF_FFFF_FFFF_FFFF);
    assert_eq!(bits_of_score(0), u64::MAX);
}

#[test]
fn credit_opens_a_record_with_the_first_result() {
    let mut records: HashMap<u64, PlayerRecord> = HashMap::new();
    assert_eq!(credit(&mut records, 7, 2, 30), Change::Added);
    assert_eq!(credit(&mut records, 8, 2, 5), Change::Added);
    assert_eq!(credit(&mut records, 7, 9, 10), Change::Added);
    assert_eq!(credit(&mut records, 7, 9, 20), Change::Replaced(10));
    assert_eq!(credit(&mut records, 7, 9, 20), Change::Unchanged);
    assert_eq!(records.len(), 2);
    assert_eq!(records[&7].id(), 7);
    assert_eq!(records[&7].record_length(), 2);
    let mut held = records[&7].scores();
    held.sort();
    assert_eq!(held, vec![20, 30]);
    assert_eq!(records[&8].scores(), vec![5]);
}

#[test]
fn rating_changes_with_the_record() {
    assert!(rating_changed(Change::Added, ZERO + 1));
    assert!(!rating_changed(Change::Added, ZERO));
    assert!(rating_changed(Change::Replaced(3), ZERO));
    assert!(!rating_changed(Change::Unchanged, ZERO + 1));
    assert_eq!(ZERO, score_of_bits(0.0f64.to_bits()));
}
