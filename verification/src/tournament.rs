//! Tournaments: validated finishing placements, and the strength-of-field
//! bonus that each placement earns.

use vstd::prelude::*;
use vstd::seq_lib::*;
use std::collections::HashMap;
use std::collections::HashSet;
use crate::team::{PlayerId, RepeatedPlayer, Team};
use crate::level::Level;
use crate::instant::Instant;

verus! {

/// The finishing places do not follow standard competition ranking.
#[derive(Debug, Clone, Copy, PartialEq, Eq, Structural)]
pub struct InconsistentRanks();

/// Why a list of results is no tournament.
#[derive(Debug, Clone, Copy, PartialEq, Eq, Structural)]
pub enum InvalidTournament {
    RepeatedPlayer(RepeatedPlayer),
    InconsistentRanks(InconsistentRanks),
}

impl From<RepeatedPlayer> for InvalidTournament {
    fn from(e: RepeatedPlayer) -> (r: InvalidTournament) {
        InvalidTournament::RepeatedPlayer(e)
    }
}

impl vstd::std_specs::convert::FromSpecImpl<RepeatedPlayer> for InvalidTournament {
    open spec fn obeys_from_spec() -> bool {
        true
    }

    open spec fn from_spec(e: RepeatedPlayer) -> InvalidTournament {
        InvalidTournament::RepeatedPlayer(e)
    }
}

impl From<InconsistentRanks> for InvalidTournament {
    fn from(e: InconsistentRanks) -> (r: InvalidTournament) {
        InvalidTournament::InconsistentRanks(e)
    }
}

impl vstd::std_specs::convert::FromSpecImpl<InconsistentRanks> for InvalidTournament {
    open spec fn obeys_from_spec() -> bool {
        true
    }

    open spec fn from_spec(e: InconsistentRanks) -> InvalidTournament {
        InvalidTournament::InconsistentRanks(e)
    }
}

/// The rank that stands for a player whom the rank table does not hold.
pub const UNRANKED: u64 = 201;

/// Whether player `p` is one of the two players of the entry.
pub open spec fn plays_in(e: (u64, Team), p: PlayerId) -> bool {
    e.1.early() == p || e.1.late() == p
}

/// Whether the two entries have a player in common.
pub open spec fn shares_player(a: (u64, Team), b: (u64, Team)) -> bool {
    plays_in(a, b.1.early()) || plays_in(a, b.1.late())
}

/// No player occurs twice: neither within a team nor in two entries.
pub open spec fn players_distinct(s: Seq<(u64, Team)>) -> bool {
    &&& forall|i: int| 0 <= i < s.len() ==> (#[trigger] s[i]).1.early() != s[i].1.late()
    &&& forall|i: int, j: int| 0 <= i < j < s.len() ==> !shares_player(#[trigger] s[i], #[trigger] s[j])
}

/// Player `p` occurs twice: within one team, or in two entries.
pub open spec fn player_repeated(s: Seq<(u64, Team)>, p: PlayerId) -> bool {
    ||| exists|i: int| 0 <= i < s.len() && (#[trigger] s[i]).1.early() == p && s[i].1.late() == p
    ||| exists|i: int, j: int|
        0 <= i < j < s.len() && plays_in(#[trigger] s[i], p) && plays_in(#[trigger] s[j], p)
}

/// Whether `p` plays in one of the first `upto` entries.
pub open spec fn occurs_before(s: Seq<(u64, Team)>, upto: int, p: PlayerId) -> bool {
    exists|k: int| 0 <= k < upto && k < s.len() && plays_in(#[trigger] s[k], p)
}

/// Whether the entry at index `i` names a player of an entry before it, or
/// one player twice.
pub open spec fn repeats_at(s: Seq<(u64, Team)>, i: int) -> bool {
    ||| occurs_before(s, i, s[i].1.early())
    ||| s[i].1.early() == s[i].1.late()
    ||| occurs_before(s, i, s[i].1.late())
}

/// The player of the entry at index `i` that is found repeated first: the
/// first of its team, unless only the second was seen before.
pub open spec fn repeat_at(s: Seq<(u64, Team)>, i: int) -> PlayerId {
    if occurs_before(s, i, s[i].1.early()) || s[i].1.early() == s[i].1.late() {
        s[i].1.early()
    } else {
        s[i].1.late()
    }
}

/// Whether `p` is the repeated player that is found first when the entries
/// are read in their order: the one of the first entry ahead of which no
/// player is repeated and which repeats one.
pub open spec fn first_repeated(s: Seq<(u64, Team)>, p: PlayerId) -> bool {
    exists|i: int|
        0 <= i < s.len() && players_distinct(s.take(i)) && #[trigger] repeats_at(s, i) && p
            == repeat_at(s, i)
}

/// The entries in ascending order of place.
pub open spec fn places_ascend(s: Seq<(u64, Team)>) -> bool {
    forall|i: int, j: int| 0 <= i <= j < s.len() ==> (#[trigger] s[i]).0 <= (#[trigger] s[j]).0
}

/// Whether the entry at index `i` either ties with the one before it or
/// takes the place that equals its position counted from one.
pub open spec fn place_fits(s: Seq<(u64, Team)>, i: int) -> bool {
    if i == 0 {
        s[i].0 == 1
    } else {
        s[i].0 == s[i - 1].0 || s[i].0 == i + 1
    }
}

/// Standard competition ranking of entries in ascending order: the first
/// place is 1, and a place that is shared by several entries is followed by
/// the place that counts all of them.
pub open spec fn places_consistent(s: Seq<(u64, Team)>) -> bool {
    forall|i: int| 0 <= i < s.len() ==> #[trigger] place_fits(s, i)
}

/// `e` put into `s` behind the last entry whose place is not greater.
pub open spec fn place_inserted(s: Seq<(u64, Team)>, e: (u64, Team)) -> Seq<(u64, Team)>
    decreases s.len(),
{
    if s.len() == 0 {
        seq![e]
    } else if s.last().0 <= e.0 {
        s.push(e)
    } else {
        place_inserted(s.drop_last(), e).push(s.last())
    }
}

/// The entries of `s` in ascending order of place; entries that share a
/// place keep the order they came in.
pub open spec fn ordered_by_place(s: Seq<(u64, Team)>) -> Seq<(u64, Team)>
    decreases s.len(),
{
    if s.len() == 0 {
        s
    } else {
        place_inserted(ordered_by_place(s.drop_last()), s.last())
    }
}

/// What makes a list of results a tournament.
pub open spec fn valid_results(s: Seq<(u64, Team)>) -> bool {
    players_distinct(s) && places_consistent(ordered_by_place(s))
}

/// The bonus, in half points, that outplacing a player of the given rank is worth.
pub open spec fn bonus_units(rank: u64) -> nat {
    if rank <= 5 {
        20
    } else if rank <= 10 {
        15
    } else if rank <= 20 {
        10
    } else if rank <= 50 {
        5
    } else if rank <= 100 {
        2
    } else if rank <= 200 {
        1
    } else {
        0
    }
}

/// The rank of a player in the table, or `UNRANKED`.
pub open spec fn rank_or_unranked(ranks: Map<PlayerId, u64>, p: PlayerId) -> u64 {
    if ranks.contains_key(p) {
        ranks[p]
    } else {
        UNRANKED
    }
}

/// The bonus, in half points, that outplacing both players of a team is worth.
pub open spec fn team_units(ranks: Map<PlayerId, u64>, team: Team) -> nat {
    bonus_units(rank_or_unranked(ranks, team.early())) + bonus_units(
        rank_or_unranked(ranks, team.late()),
    )
}

/// The half points that the entries from index `from` on are worth together.
pub open spec fn units_from(s: Seq<(u64, Team)>, ranks: Map<PlayerId, u64>, from: int) -> nat
    decreases s.len() - from,
{
    if from < 0 || from >= s.len() {
        0
    } else {
        team_units(ranks, s[from].1) + units_from(s, ranks, from + 1)
    }
}

/// The half points that those entries from index `from` on are worth whose
/// place is worse than `place`.
pub open spec fn units_beyond(
    s: Seq<(u64, Team)>,
    ranks: Map<PlayerId, u64>,
    place: u64,
    from: int,
) -> nat
    decreases s.len() - from,
{
    if from < 0 || from >= s.len() {
        0
    } else {
        (if s[from].0 > place {
            team_units(ranks, s[from].1)
        } else {
            0
        }) + units_beyond(s, ranks, place, from + 1)
    }
}

/// The strength-of-field bonus of a place, in half points: what all the
/// teams that finished worse than `place` are worth together.
pub open spec fn field_bonus(s: Seq<(u64, Team)>, ranks: Map<PlayerId, u64>, place: u64) -> nat {
    units_beyond(s, ranks, place, 0)
}

/// In an ascending sequence the position found by walking down from the end
/// is the position at which `place_inserted` puts the entry.
proof fn lemma_place_inserted(s: Seq<(u64, Team)>, e: (u64, Team), j: int)
    requires
        0 <= j <= s.len(),
        forall|k: int| j <= k < s.len() ==> (#[trigger] s[k]).0 > e.0,
        j > 0 ==> s[j - 1].0 <= e.0,
    ensures
        place_inserted(s, e) == s.insert(j, e),
    decreases s.len(),
{
    if s.len() == 0 {
        assert(seq![e] =~= s.insert(j, e));
    } else if s.last().0 <= e.0 {
        assert(j == s.len()) by {
            if j < s.len() {
                assert(s[s.len() - 1].0 > e.0);
            }
        }
        assert(s.push(e) =~= s.insert(j, e));
    } else {
        assert(j < s.len());
        let t = s.drop_last();
        assert forall|k: int| j <= k < t.len() implies (#[trigger] t[k]).0 > e.0 by {
            assert(t[k] == s[k]);
        }
        lemma_place_inserted(t, e, j);
        assert(t.insert(j, e).push(s.last()) =~= s.insert(j, e));
    }
}

/// Entries before `k` whose place is not worse than `place` add nothing.
proof fn lemma_units_beyond_skip(
    s: Seq<(u64, Team)>,
    ranks: Map<PlayerId, u64>,
    place: u64,
    k: int,
)
    requires
        0 <= k <= s.len(),
        forall|j: int| 0 <= j < k ==> (#[trigger] s[j]).0 <= place,
    ensures
        units_beyond(s, ranks, place, 0) == units_beyond(s, ranks, place, k),
    decreases k,
{
    if k > 0 {
        lemma_units_beyond_skip(s, ranks, place, k - 1);
        assert(s[k - 1].0 <= place);
    }
}

/// Where every entry from `k` on is worse than `place`, all of them count.
proof fn lemma_units_beyond_all(
    s: Seq<(u64, Team)>,
    ranks: Map<PlayerId, u64>,
    place: u64,
    k: int,
)
    requires
        0 <= k <= s.len(),
        forall|j: int| k <= j < s.len() ==> (#[trigger] s[j]).0 > place,
    ensures
        units_beyond(s, ranks, place, k) == units_from(s, ranks, k),
    decreases s.len() - k,
{
    if k < s.len() {
        lemma_units_beyond_all(s, ranks, place, k + 1);
        assert(s[k].0 > place);
    }
}

/// One finishing place of a tournament with the bonus it earned.
#[derive(Debug, Clone, Copy, PartialEq, Eq, Structural)]
pub struct Standing {
    /// The finishing place.
    pub place: u64,
    /// The team that took it.
    pub team: Team,
    /// The strength-of-field bonus of the team, in half points.
    pub bonus: u128,
}

/// The bonus, in half points, that outplacing a player of the given rank is worth.
pub fn bonus_points(rank: u64) -> (r: u64)
    ensures
        r == bonus_units(rank),
{
    if rank <= 5 {
        20
    } else if rank <= 10 {
        15
    } else if rank <= 20 {
        10
    } else if rank <= 50 {
        5
    } else if rank <= 100 {
        2
    } else if rank <= 200 {
        1
    } else {
        0
    }
}

/// The bonus, in half points, that outplacing both players of a team is worth.
pub fn team_bonus(ranks: &HashMap<PlayerId, u64>, team: &Team) -> (r: u64)
    ensures
        r == team_units(ranks@, *team),
        r <= 40,
{
    broadcast use vstd::std_specs::hash::group_hash_axioms;

    let players = team.players();
    let first: u64 = match ranks.get(players[0]) {
        Some(rank) => bonus_points(*rank),
        None => bonus_points(UNRANKED),
    };
    let second: u64 = match ranks.get(players[1]) {
        Some(rank) => bonus_points(*rank),
        None => bonus_points(UNRANKED),
    };
    first + second
}

/// Sorts results by place, ascending; results that share a place keep their order.
pub fn sort_by_place(results: Vec<(u64, Team)>) -> (r: Vec<(u64, Team)>)
    ensures
        r@ == ordered_by_place(results@),
        places_ascend(r@),
        r@.to_multiset() == results@.to_multiset(),
        r@.len() == results@.len(),
{
    let mut out: Vec<(u64, Team)> = Vec::with_capacity(results.len());
    let mut i: usize = 0;
    proof {
        assert(results@.take(0) =~= Seq::empty());
        assert(out@ =~= results@.take(0));
    }
    while i < results.len()
        invariant
            i <= results.len(),
            out@ == ordered_by_place(results@.take(i as int)),
            places_ascend(out@),
            out@.to_multiset() == results@.take(i as int).to_multiset(),
            out@.len() == i,
        decreases results.len() - i,
    {
        let e = results[i];
        let mut j: usize = out.len();
        while j > 0 && out[j - 1].0 > e.0
            invariant
                j <= out.len(),
                forall|k: int| j <= k < out.len() ==> (#[trigger] out@[k]).0 > e.0,
            decreases j,
        {
            j -= 1;
        }
        proof {
            let prefix = results@.take(i as int);
            let next = results@.take(i as int + 1);
            assert(next.drop_last() =~= prefix);
            assert(next.last() == e);
            assert(next =~= prefix.push(e));
            lemma_place_inserted(out@, e, j as int);
            to_multiset_insert(out@, j as int, e);
            to_multiset_build(prefix, e);
            let grown = out@.insert(j as int, e);
            assert forall|a: int, b: int| 0 <= a <= b < grown.len() implies (#[trigger] grown[a]).0
                <= (#[trigger] grown[b]).0 by {
                if j > 0 {
                    assert(out@[j as int - 1].0 <= e.0);
                }
                if a < j && b > j {
                    assert(grown[a] == out@[a]);
                    assert(grown[b] == out@[b - 1]);
                } else if a < j && b == j {
                    assert(grown[a] == out@[a]);
                    assert(out@[a].0 <= out@[j as int - 1].0);
                } else if a < j && b < j {
                    assert(grown[a] == out@[a]);
                    assert(grown[b] == out@[b]);
                } else if a == j && b > j {
                    assert(grown[b] == out@[b - 1]);
                } else if a > j {
                    assert(grown[a] == out@[a - 1]);
                    assert(grown[b] == out@[b - 1]);
                }
            }
        }
        out.insert(j, e);
        i += 1;
    }
    proof {
        assert(results@.take(i as int) =~= results@);
    }
    out
}

/// Whether results in ascending order of place follow standard competition ranking.
pub fn check_places(sorted: &Vec<(u64, Team)>) -> (r: bool)
    ensures
        r == places_consistent(sorted@),
{
    let mut i: usize = 0;
    while i < sorted.len()
        invariant
            i <= sorted.len(),
            places_consistent(sorted@.take(i as int)),
        decreases sorted.len() - i,
    {
        let place: u64 = sorted[i].0;
        let fits: bool = if i == 0 {
            place == 1
        } else {
            place == sorted[i - 1].0 || place == i as u64 + 1
        };
        if !fits {
            proof {
                assert(!place_fits(sorted@, i as int));
            }
            return false;
        }
        proof {
            let longer = sorted@.take(i as int + 1);
            let shorter = sorted@.take(i as int);
            assert forall|k: int| 0 <= k < longer.len() implies #[trigger] place_fits(longer, k) by {
                if k < i {
                    assert(place_fits(shorter, k));
                }
            }
        }
        i += 1;
    }
    proof {
        assert(sorted@.take(i as int) =~= sorted@);
    }
    true
}

/// Whether the results are in ascending order of place.
pub fn check_ascending(results: &Vec<(u64, Team)>) -> (r: bool)
    ensures
        r == places_ascend(results@),
{
    let mut i: usize = 1;
    while i < results.len()
        invariant
            1 <= i,
            forall|a: int, b: int|
                0 <= a <= b < i && b < results@.len() ==> (#[trigger] results@[a]).0 <= (
                #[trigger] results@[b]).0,
        decreases results.len() - i,
    {
        if results[i - 1].0 > results[i].0 {
            return false;
        }
        proof {
            assert forall|a: int, b: int| 0 <= a <= b < i + 1 && b < results@.len() implies (
            #[trigger] results@[a]).0 <= (#[trigger] results@[b]).0 by {
                if b == i && a < i {
                    assert(results@[a].0 <= results@[i as int - 1].0);
                }
            }
        }
        i += 1;
    }
    true
}

/// A player who occurs twice in the results, if there is one.
pub fn find_repeated_player(results: &Vec<(u64, Team)>) -> (r: Option<PlayerId>)
    ensures
        r is None <==> players_distinct(results@),
        r matches Some(p) ==> player_repeated(results@, p) && first_repeated(results@, p),
{
    broadcast use vstd::std_specs::hash::group_hash_axioms;

    let mut seen: HashSet<PlayerId> = HashSet::new();
    let mut i: usize = 0;
    while i < results.len()
        invariant
            i <= results.len(),
            forall|p: PlayerId| seen@.contains(p) <==> occurs_before(results@, i as int, p),
            forall|a: int| 0 <= a < i ==> (#[trigger] results@[a]).1.early() != results@[a].1.late(),
            forall|a: int, b: int|
                0 <= a < b < i ==> !shares_player(#[trigger] results@[a], #[trigger] results@[b]),
        decreases results.len() - i,
    {
        let players = results[i].1.players();
        let first: PlayerId = *players[0];
        let second: PlayerId = *players[1];
        proof {
            let prefix = results@.take(i as int);
            assert forall|a: int| 0 <= a < prefix.len() implies (#[trigger] prefix[a]).1.early()
                != prefix[a].1.late() by {
                assert(prefix[a] == results@[a]);
            }
            assert forall|a: int, b: int| 0 <= a < b < prefix.len() implies !shares_player(
                #[trigger] prefix[a],
                #[trigger] prefix[b],
            ) by {
                assert(prefix[a] == results@[a]);
                assert(prefix[b] == results@[b]);
            }
            assert(players_distinct(prefix));
        }
        if seen.contains(&first) {
            proof {
                let k = choose|k: int| 0 <= k < i && plays_in(#[trigger] results@[k], first);
                assert(plays_in(results@[i as int], first));
                assert(shares_player(results@[k], results@[i as int]));
                assert(repeats_at(results@, i as int));
            }
            return Some(first);
        }
        if first == second {
            proof {
                assert(results@[i as int].1.early() == results@[i as int].1.late());
                assert(repeats_at(results@, i as int));
            }
            return Some(first);
        }
        if seen.contains(&second) {
            proof {
                let k = choose|k: int| 0 <= k < i && plays_in(#[trigger] results@[k], second);
                assert(plays_in(results@[i as int], second));
                assert(shares_player(results@[k], results@[i as int]));
                assert(repeats_at(results@, i as int));
                assert(!occurs_before(results@, i as int, first));
            }
            return Some(second);
        }
        let ghost before = seen@;
        seen.insert(first);
        seen.insert(second);
        proof {
            assert forall|p: PlayerId| seen@.contains(p) <==> occurs_before(
                results@,
                i as int + 1,
                p,
            ) by {
                if seen@.contains(p) {
                    if before.contains(p) {
                        let k = choose|k: int|
                            0 <= k < i && k < results@.len() && plays_in(#[trigger] results@[k], p);
                        assert(plays_in(results@[k], p));
                    } else {
                        assert(plays_in(results@[i as int], p));
                    }
                }
                if occurs_before(results@, i as int + 1, p) {
                    let k = choose|k: int|
                        0 <= k < i + 1 && k < results@.len() && plays_in(#[trigger] results@[k], p);
                    if k < i {
                        assert(occurs_before(results@, i as int, p));
                    }
                }
            }
            assert forall|a: int, b: int| 0 <= a < b < i + 1 implies !shares_player(
                #[trigger] results@[a],
                #[trigger] results@[b],
            ) by {
                if b == i {
                    if shares_player(results@[a], results@[b]) {
                        if plays_in(results@[a], first) {
                            assert(occurs_before(results@, i as int, first));
                        } else {
                            assert(plays_in(results@[a], second));
                            assert(occurs_before(results@, i as int, second));
                        }
                    }
                }
            }
        }
        i += 1;
    }
    None
}

/// One competition: its finishing placements in ascending order of place,
/// when it took place, and its tier.
#[derive(Debug, Clone)]
pub struct Tournament {
    results: Vec<(u64, Team)>,
    datetime: Instant,
    level: Level,
}

impl Tournament {
    /// The placements, best place first.
    pub closed spec fn results(&self) -> Seq<(u64, Team)> {
        self.results@
    }

    /// When the tournament took place.
    pub closed spec fn datetime(&self) -> Instant {
        self.datetime
    }

    /// The tier of the tournament.
    pub closed spec fn level(&self) -> Level {
        self.level
    }

    /// The invariant of a tournament: its placements are in ascending order
    /// of place, follow standard competition ranking, and name no player twice.
    pub open spec fn wf(&self) -> bool {
        &&& places_ascend(self.results())
        &&& places_consistent(self.results())
        &&& players_distinct(self.results())
    }

    /// Validates the results, given in any order, and builds the tournament.
    ///
    /// A repeated player is reported before inconsistent places.
    pub fn new(results: Vec<(u64, Team)>, datetime: Instant, level: Level) -> (r: Result<
        Self,
        InvalidTournament,
    >)
        ensures
            r is Ok <==> valid_results(results@),
            r matches Ok(t) ==> t.wf() && t.results() == ordered_by_place(results@)
                && t.results().to_multiset() == results@.to_multiset() && t.datetime() == datetime
                && t.level() == level,
            r matches Err(InvalidTournament::RepeatedPlayer(e)) ==> player_repeated(results@, e.0)
                && first_repeated(results@, e.0),
            !players_distinct(results@) <==> r matches Err(InvalidTournament::RepeatedPlayer(_)),
            players_distinct(results@) && !places_consistent(ordered_by_place(results@)) <==> r matches Err(
                InvalidTournament::InconsistentRanks(_),
            ),
    {
        match find_repeated_player(&results) {
            Some(p) => {
                return Err(InvalidTournament::RepeatedPlayer(RepeatedPlayer(p)));
            },
            None => {},
        }
        let ghost given = results@;
        let sorted = sort_by_place(results);
        if !check_places(&sorted) {
            return Err(InvalidTournament::InconsistentRanks(InconsistentRanks()));
        }
        proof {
            lemma_distinct_players_permuted(given, sorted@);
        }
        Ok(Self::new_unchecked(sorted, datetime, level))
    }

    /// Builds a tournament from results that the caller has validated and
    /// put in ascending order of place.
    pub fn new_unchecked(results: Vec<(u64, Team)>, datetime: Instant, level: Level) -> (r: Self)
        requires
            places_ascend(results@),
            places_consistent(results@),
            players_distinct(results@),
        ensures
            r.wf(),
            r.results() == results@,
            r.datetime() == datetime,
            r.level() == level,
    {
        Self { results, datetime, level }
    }

    /// Whether the tournament keeps its invariant.
    pub fn is_valid(&self) -> (r: bool)
        ensures
            r == self.wf(),
    {
        check_ascending(&self.results) && check_places(&self.results) && find_repeated_player(
            &self.results,
        ).is_none()
    }

    /// The placements, best place first.
    pub fn placements(&self) -> (r: &Vec<(u64, Team)>)
        ensures
            r@ == self.results(),
    {
        &self.results
    }

    /// When the tournament took place.
    pub fn time(&self) -> (r: Instant)
        ensures
            r == self.datetime(),
    {
        self.datetime
    }

    /// The tier of the tournament.
    pub fn tier(&self) -> (r: Level)
        ensures
            r == self.level(),
    {
        self.level
    }

    /// How many seasons lie between the tournament and the current season;
    /// negative for a tournament of a later season.
    pub fn age(&self, current_season: i32) -> (r: i64)
        ensures
            r == current_season - self.datetime().year(),
    {
        let season: i64 = current_season as i64;
        let year: i64 = self.datetime.calendar_year() as i64;
        season - year
    }

    /// The placements from the worst place to the best, each with its
    /// strength-of-field bonus under the given rank table: what all teams
    /// that finished worse are worth together. Teams that share a place earn
    /// the same bonus.
    pub fn standings(&self, ranks: &HashMap<PlayerId, u64>) -> (r: Vec<Standing>)
        requires
            self.wf(),
        ensures
            r@.len() == self.results().len(),
            forall|k: int|
                0 <= k < r@.len() ==> {
                    let e = self.results()[self.results().len() - 1 - k];
                    &&& (#[trigger] r@[k]).place == e.0
                    &&& r@[k].team == e.1
                    &&& r@[k].bonus == field_bonus(self.results(), ranks@, e.0)
                },
    {
        let n: usize = self.results.len();
        let mut out: Vec<Standing> = Vec::with_capacity(n);
        let mut bonus: u128 = 0;
        let mut total: u128 = 0;
        let mut i: usize = n;
        let ghost s = self.results@;
        while i > 0
            invariant
                i <= n,
                n == s.len(),
                s == self.results@,
                places_ascend(s),
                out@.len() == n - i,
                total == units_from(s, ranks@, i as int),
                total <= 40 * (n - i),
                bonus <= total,
                i < n ==> bonus == units_beyond(s, ranks@, s[i as int].0, i as int),
                forall|k: int|
                    0 <= k < out@.len() ==> {
                        let e = s[n - 1 - k];
                        &&& (#[trigger] out@[k]).place == e.0
                        &&& out@[k].team == e.1
                        &&& out@[k].bonus == field_bonus(s, ranks@, e.0)
                    },
            decreases i,
        {
            let k: usize = i - 1;
            let entry = self.results[k];
            let place: u64 = entry.0;
            if i == n || place != self.results[i].0 {
                proof {
                    if i < n {
                        assert(s[k as int].0 <= s[i as int].0);
                    }
                    assert forall|j: int| i <= j < s.len() implies (#[trigger] s[j]).0 > place by {
                        assert(s[i as int].0 <= s[j].0);
                    }
                    lemma_units_beyond_all(s, ranks@, place, i as int);
                }
                bonus = total;
            }
            proof {
                assert(units_beyond(s, ranks@, place, k as int) == units_beyond(
                    s,
                    ranks@,
                    place,
                    i as int,
                ));
                assert forall|j: int| 0 <= j < k implies (#[trigger] s[j]).0 <= place by {
                    assert(s[j].0 <= s[k as int].0);
                }
                lemma_units_beyond_skip(s, ranks@, place, k as int);
            }
            let worth: u64 = team_bonus(ranks, &entry.1);
            out.push(Standing { place, team: entry.1, bonus });
            total = total + worth as u128;
            i = k;
        }
        out
    }
}

/// How many of the first `upto` entries took a better place than `place`.
pub open spec fn count_better(s: Seq<(u64, Team)>, place: u64, upto: int) -> nat
    decreases upto,
{
    if upto <= 0 {
        0
    } else {
        count_better(s, place, upto - 1) + if s[upto - 1].0 < place {
            1nat
        } else {
            0nat
        }
    }
}

/// Where all of the first `upto` entries took a better place, all count.
proof fn lemma_count_better_all(s: Seq<(u64, Team)>, place: u64, upto: int)
    requires
        0 <= upto <= s.len(),
        forall|j: int| 0 <= j < upto ==> (#[trigger] s[j]).0 < place,
    ensures
        count_better(s, place, upto) == upto,
    decreases upto,
{
    if upto > 0 {
        lemma_count_better_all(s, place, upto - 1);
        assert(s[upto - 1].0 < place);
    }
}

/// Entries from `k` on that took no better place add nothing.
proof fn lemma_count_better_rest(s: Seq<(u64, Team)>, place: u64, k: int, upto: int)
    requires
        0 <= k <= upto <= s.len(),
        forall|j: int| k <= j < upto ==> (#[trigger] s[j]).0 >= place,
    ensures
        count_better(s, place, upto) == count_better(s, place, k),
    decreases upto,
{
    if upto > k {
        lemma_count_better_rest(s, place, k, upto - 1);
        assert(s[upto - 1].0 >= place);
    }
}

/// In a tournament every place is one more than the number of teams that
/// took a better place: teams that tie share a place, and the place after
/// a tie counts all of them.
pub proof fn lemma_place_counts_better(s: Seq<(u64, Team)>, i: int)
    requires
        places_ascend(s),
        places_consistent(s),
        0 <= i < s.len(),
    ensures
        s[i].0 == 1 + count_better(s, s[i].0, s.len() as int),
    decreases i,
{
    let place = s[i].0;
    assert(place_fits(s, i));
    if i > 0 && s[i].0 == s[i - 1].0 {
        lemma_place_counts_better(s, i - 1);
    } else {
        assert forall|j: int| 0 <= j < i implies (#[trigger] s[j]).0 < place by {
            assert(s[j].0 <= s[i - 1].0);
            assert(s[i - 1].0 <= s[i].0);
        }
        assert forall|j: int| i <= j < s.len() implies (#[trigger] s[j]).0 >= place by {
            assert(s[i].0 <= s[j].0);
        }
        lemma_count_better_all(s, place, i);
        lemma_count_better_rest(s, place, i, s.len() as int);
    }
}

/// Whether every place is one more than the number of teams that took a
/// better place.
pub open spec fn places_count_better(s: Seq<(u64, Team)>) -> bool {
    forall|i: int|
        0 <= i < s.len() ==> (#[trigger] s[i]).0 == 1 + count_better(s, s[i].0, s.len() as int)
}

/// Entries in ascending order of place follow standard competition ranking
/// exactly if every place is one more than the number of teams that took a
/// better place.
pub proof fn lemma_consistent_iff_counts(s: Seq<(u64, Team)>)
    requires
        places_ascend(s),
    ensures
        places_consistent(s) <==> places_count_better(s),
{
    if places_consistent(s) {
        assert forall|i: int| 0 <= i < s.len() implies (#[trigger] s[i]).0 == 1 + count_better(
            s,
            s[i].0,
            s.len() as int,
        ) by {
            lemma_place_counts_better(s, i);
        }
    }
    if places_count_better(s) {
        assert forall|i: int| 0 <= i < s.len() implies #[trigger] place_fits(s, i) by {
            let place = s[i].0;
            assert(s[i].0 == 1 + count_better(s, s[i].0, s.len() as int));
            if i == 0 || s[i].0 != s[i - 1].0 {
                assert forall|j: int| 0 <= j < i implies (#[trigger] s[j]).0 < place by {
                    assert(s[j].0 <= s[i - 1].0);
                    assert(s[i - 1].0 <= s[i].0);
                }
                assert forall|j: int| i <= j < s.len() implies (#[trigger] s[j]).0 >= place by {
                    assert(s[i].0 <= s[j].0);
                }
                lemma_count_better_all(s, place, i);
                lemma_count_better_rest(s, place, i, s.len() as int);
            }
        }
    }
}

/// A better place never earns a smaller bonus than a worse one.
pub proof fn lemma_bonus_grows_with_place(
    s: Seq<(u64, Team)>,
    ranks: Map<PlayerId, u64>,
    better: u64,
    worse: u64,
    from: int,
)
    requires
        better <= worse,
        0 <= from,
    ensures
        units_beyond(s, ranks, better, from) >= units_beyond(s, ranks, worse, from),
    decreases s.len() - from,
{
    if from < s.len() {
        lemma_bonus_grows_with_place(s, ranks, better, worse, from + 1);
    }
}

/// A list without a repeated player stays so in any other order.
pub proof fn lemma_distinct_players_permuted(a: Seq<(u64, Team)>, b: Seq<(u64, Team)>)
    requires
        players_distinct(a),
        a.to_multiset() == b.to_multiset(),
    ensures
        players_distinct(b),
{
    broadcast use vstd::multiset::group_multiset_axioms;

    to_multiset_len(a);
    to_multiset_len(b);
    assert forall|i: int| 0 <= i < b.len() implies (#[trigger] b[i]).1.early() != b[i].1.late() by {
        assert(b.contains(b[i]));
        to_multiset_contains(b, b[i]);
        to_multiset_contains(a, b[i]);
        let k = choose|k: int| 0 <= k < a.len() && a[k] == b[i];
        assert(a[k].1.early() != a[k].1.late());
    }
    assert forall|i: int, j: int| 0 <= i < j < b.len() implies !shares_player(
        #[trigger] b[i],
        #[trigger] b[j],
    ) by {
        if shares_player(b[i], b[j]) {
            assert(b.contains(b[i]));
            assert(b.contains(b[j]));
            to_multiset_contains(b, b[i]);
            to_multiset_contains(a, b[i]);
            to_multiset_contains(b, b[j]);
            to_multiset_contains(a, b[j]);
            let x = choose|x: int| 0 <= x < a.len() && a[x] == b[i];
            let y = choose|y: int| 0 <= y < a.len() && a[y] == b[j];
            if x < y {
                assert(!shares_player(a[x], a[y]));
            } else if y < x {
                assert(!shares_player(a[y], a[x]));
            } else {
                // the same entry of `a` would occur twice in `b`
                assert(b[i] == b[j]);
                lemma_two_occurrences(b, i, j);
                assert(b.to_multiset().count(b[i]) >= 2);
                lemma_count_bounds_occurrences(a, x);
            }
        }
    }
}

/// An entry that stands at two indices is counted at least twice.
proof fn lemma_two_occurrences(s: Seq<(u64, Team)>, i: int, j: int)
    requires
        0 <= i < j < s.len(),
        s[i] == s[j],
    ensures
        s.to_multiset().count(s[i]) >= 2,
{
    broadcast use vstd::multiset::group_multiset_axioms;

    let rest = s.remove(j);
    to_multiset_remove(s, j);
    assert(rest[i] == s[i]);
    assert(rest.contains(s[i]));
    to_multiset_contains(rest, s[i]);
}

/// In a list without a repeated player an entry that is counted twice or
/// more does not exist.
proof fn lemma_count_bounds_occurrences(s: Seq<(u64, Team)>, x: int)
    requires
        players_distinct(s),
        0 <= x < s.len(),
    ensures
        s.to_multiset().count(s[x]) == 1,
{
    broadcast use vstd::multiset::group_multiset_axioms;

    let rest = s.remove(x);
    to_multiset_remove(s, x);
    to_multiset_contains(rest, s[x]);
    assert(s.contains(s[x]));
    to_multiset_contains(s, s[x]);
    if rest.contains(s[x]) {
        let k = choose|k: int| 0 <= k < rest.len() && rest[k] == s[x];
        assert(plays_in(s[x], s[x].1.early()));
        if k < x {
            assert(rest[k] == s[k]);
            assert(shares_player(s[k], s[x]));
        } else {
            assert(rest[k] == s[k + 1]);
            assert(shares_player(s[x], s[k + 1]));
        }
    }
}

} // verus!
