//! Ranks from ratings, and the schedule by which ranks are refreshed while
//! tournaments are fed in the order of their time.
//!
//! A rating is held as a score: an unsigned integer that orders as the
//! rating it stands for does.

use vstd::prelude::*;
use std::collections::HashMap;
use crate::team::PlayerId;
use crate::instant::Instant;
use crate::tournament::Tournament;

verus! {

/// How many of the first `upto` ratings are greater than `score`.
pub open spec fn count_above(s: Seq<(PlayerId, u64)>, score: u64, upto: int) -> nat
    decreases upto,
{
    if upto <= 0 {
        0
    } else {
        count_above(s, score, upto - 1) + if s[upto - 1].1 > score {
            1nat
        } else {
            0nat
        }
    }
}

/// The rank of a rating among `s` in standard competition ranking with the
/// highest rating first: one more than the number of ratings above it, so
/// that equal ratings share a rank and the ranks after them skip ahead.
pub open spec fn rank_among(s: Seq<(PlayerId, u64)>, score: u64) -> nat {
    1 + count_above(s, score, s.len() as int)
}

/// Whether `p` has a rating in `s`.
pub open spec fn is_rated(s: Seq<(PlayerId, u64)>, p: PlayerId) -> bool {
    exists|i: int| 0 <= i < s.len() && (#[trigger] s[i]).0 == p
}

/// Whether the rating at index `i` is the last one of its player among the
/// first `upto`.
pub open spec fn last_of_player(s: Seq<(PlayerId, u64)>, i: int, upto: int) -> bool {
    forall|j: int| i < j < upto ==> (#[trigger] s[j]).0 != s[i].0
}

/// Whether `table` is the rank table of the ratings: it holds the players
/// that are rated and no others, each with the rank of the player's rating,
/// the last one where a player has several.
pub open spec fn is_rank_table(s: Seq<(PlayerId, u64)>, table: Map<PlayerId, u64>) -> bool {
    &&& forall|p: PlayerId| table.contains_key(p) <==> is_rated(s, p)
    &&& forall|i: int|
        0 <= i < s.len() && last_of_player(s, i, s.len() as int) ==> table[(#[trigger] s[i]).0]
            == rank_among(s, s[i].1)
}

/// A player who is rated among the first `upto` has a last rating among them.
proof fn lemma_last_rating(s: Seq<(PlayerId, u64)>, p: PlayerId, upto: int) -> (i: int)
    requires
        0 <= upto <= s.len(),
        exists|k: int| 0 <= k < upto && (#[trigger] s[k]).0 == p,
    ensures
        0 <= i < upto,
        s[i].0 == p,
        last_of_player(s, i, upto),
    decreases upto,
{
    if s[upto - 1].0 == p {
        upto - 1
    } else {
        let k = choose|k: int| 0 <= k < upto && (#[trigger] s[k]).0 == p;
        assert(k < upto - 1);
        lemma_last_rating(s, p, upto - 1)
    }
}

/// The ratings have one rank table and no other: deriving the ranks again
/// from the same ratings gives the same table.
pub proof fn lemma_rank_table_unique(
    s: Seq<(PlayerId, u64)>,
    a: Map<PlayerId, u64>,
    b: Map<PlayerId, u64>,
)
    requires
        is_rank_table(s, a),
        is_rank_table(s, b),
    ensures
        a == b,
{
    assert forall|p: PlayerId| a.contains_key(p) implies #[trigger] a[p] == b[p] by {
        assert(is_rated(s, p));
        let i = lemma_last_rating(s, p, s.len() as int);
        assert(a[s[i].0] == rank_among(s, s[i].1));
        assert(b[s[i].0] == rank_among(s, s[i].1));
    }
    assert forall|p: PlayerId| a.dom().contains(p) == b.dom().contains(p) by {
        assert(a.contains_key(p) <==> is_rated(s, p));
        assert(b.contains_key(p) <==> is_rated(s, p));
    }
    assert(a.dom() =~= b.dom());
    assert(a =~= b);
}

/// No more ratings lie above a score than there are ratings, and the rating
/// at index `i` does not lie above itself.
proof fn lemma_count_above_bound(s: Seq<(PlayerId, u64)>, i: int, upto: int)
    requires
        0 <= i < s.len(),
        0 <= upto <= s.len(),
    ensures
        count_above(s, s[i].1, upto) <= (if upto > i {
            upto - 1
        } else {
            upto
        }),
    decreases upto,
{
    if upto > 0 {
        lemma_count_above_bound(s, i, upto - 1);
    }
}

/// A higher rating never has a worse rank than a lower one.
pub proof fn lemma_rank_follows_rating(s: Seq<(PlayerId, u64)>, higher: u64, lower: u64, upto: int)
    requires
        lower <= higher,
    ensures
        count_above(s, higher, upto) <= count_above(s, lower, upto),
        upto == s.len() ==> rank_among(s, higher) <= rank_among(s, lower),
    decreases upto,
{
    if upto > 0 {
        lemma_rank_follows_rating(s, higher, lower, upto - 1);
    }
}

/// Where no rating lies above a player's, the player has rank 1.
pub proof fn lemma_best_has_rank_one(s: Seq<(PlayerId, u64)>, score: u64, upto: int)
    requires
        0 <= upto <= s.len(),
        forall|j: int| 0 <= j < s.len() ==> (#[trigger] s[j]).1 <= score,
    ensures
        count_above(s, score, upto) == 0,
        upto == s.len() ==> rank_among(s, score) == 1,
    decreases upto,
{
    if upto > 0 {
        lemma_best_has_rank_one(s, score, upto - 1);
        assert(s[upto - 1].1 <= score);
    }
}

/// The rank of a score among the ratings.
pub fn rank_of_score(ratings: &Vec<(PlayerId, u64)>, i: usize) -> (r: u64)
    requires
        i < ratings@.len(),
    ensures
        r == rank_among(ratings@, ratings@[i as int].1),
        1 <= r <= ratings@.len(),
{
    let score: u64 = ratings[i].1;
    let mut above: usize = 0;
    let mut j: usize = 0;
    while j < ratings.len()
        invariant
            j <= ratings.len(),
            i < ratings@.len(),
            score == ratings@[i as int].1,
            above == count_above(ratings@, score, j as int),
            above <= j,
        decreases ratings.len() - j,
    {
        if ratings[j].1 > score {
            above += 1;
        }
        j += 1;
    }
    proof {
        lemma_count_above_bound(ratings@, i as int, ratings@.len() as int);
    }
    above as u64 + 1
}

/// Replaces the rank table by the ranks of the given ratings: the player of
/// the highest rating has rank 1, equal ratings share a rank, and the next
/// lower rating's rank counts all players above it. Where a player has
/// several ratings the last one counts.
pub fn records_to_update_ranks(ratings: &Vec<(PlayerId, u64)>, into: &mut HashMap<PlayerId, u64>)
    ensures
        is_rank_table(ratings@, final(into)@),
{
    broadcast use vstd::std_specs::hash::group_hash_axioms;

    into.clear();
    let mut i: usize = 0;
    while i < ratings.len()
        invariant
            i <= ratings.len(),
            forall|p: PlayerId|
                into@.contains_key(p) <==> exists|k: int|
                    0 <= k < i && (#[trigger] ratings@[k]).0 == p,
            forall|k: int|
                0 <= k < i && last_of_player(ratings@, k, i as int) ==> into@[(
                #[trigger] ratings@[k]).0] == rank_among(ratings@, ratings@[k].1),
        decreases ratings.len() - i,
    {
        let rank: u64 = rank_of_score(ratings, i);
        let ghost before = into@;
        into.insert(ratings[i].0, rank);
        proof {
            let id = ratings@[i as int].0;
            assert forall|p: PlayerId|
                into@.contains_key(p) <==> exists|k: int|
                    0 <= k < i + 1 && (#[trigger] ratings@[k]).0 == p by {
                if into@.contains_key(p) {
                    if p == id {
                        assert(ratings@[i as int].0 == p);
                    } else {
                        assert(before.contains_key(p));
                        let k = choose|k: int| 0 <= k < i && (#[trigger] ratings@[k]).0 == p;
                        assert(ratings@[k].0 == p);
                    }
                }
                if exists|k: int| 0 <= k < i + 1 && (#[trigger] ratings@[k]).0 == p {
                    let k = choose|k: int| 0 <= k < i + 1 && (#[trigger] ratings@[k]).0 == p;
                    if k < i {
                        assert(before.contains_key(p));
                    }
                }
            }
            assert forall|k: int|
                0 <= k < i + 1 && last_of_player(ratings@, k, i as int + 1) implies into@[(
            #[trigger] ratings@[k]).0] == rank_among(ratings@, ratings@[k].1) by {
                if k < i {
                    assert(ratings@[i as int].0 != ratings@[k].0);
                    assert(last_of_player(ratings@, k, i as int));
                }
            }
        }
        i += 1;
    }
}

/// A tournament was fed that lies before the one fed ahead of it.
#[derive(Debug, Clone, Copy, PartialEq, Eq, Structural)]
pub struct OutOfOrder {
    /// The index of the tournament that came too late.
    pub index: usize,
}

/// What is to be done with the rank table after a tournament was scored.
#[derive(Debug, Clone, Copy, PartialEq, Eq, Structural)]
pub enum Refresh {
    /// The tournament opened a new instant: the ranks are derived anew.
    Now,
    /// The tournament shares its instant with the one before it: the ranks
    /// stay as they are until a later instant opens, or the run ends.
    Deferred,
}

/// The state of a run over tournaments in the order of their time.
#[derive(Debug, Clone, Copy)]
pub struct RankEngine {
    prev: Instant,
    needs_updating: bool,
}

impl RankEngine {
    /// The instant of the latest tournament that opened one.
    pub closed spec fn prev(&self) -> Instant {
        self.prev
    }

    /// Whether results were scored since the ranks were last derived.
    pub closed spec fn pending(&self) -> bool {
        self.needs_updating
    }

    /// The state before the first tournament.
    pub fn new() -> (r: Self)
        ensures
            r.pending(),
            r.prev() == Instant::earliest(),
            r.prev().is_earliest(),
    {
        RankEngine { prev: Instant::minimum(), needs_updating: true }
    }

    /// Whether the ranks are to be derived once more when the run ends.
    pub fn needs_updating(&self) -> (r: bool)
        ensures
            r == self.pending(),
    {
        self.needs_updating
    }

    /// Takes note of a tournament held at `at` that was just scored.
    pub fn advance(&mut self, at: Instant) -> (r: Option<Refresh>)
        ensures
            r is None <==> at.before(&old(self).prev()),
            r is None ==> *final(self) == *old(self),
            r == Some(Refresh::Now) <==> old(self).prev().before(&at),
            r == Some(Refresh::Now) ==> final(self).prev() == at && !final(self).pending(),
            r == Some(Refresh::Deferred) ==> final(self).prev() == old(self).prev()
                && final(self).pending(),
    {
        if self.prev.is_before(&at) {
            self.prev = at;
            self.needs_updating = false;
            Some(Refresh::Now)
        } else if at.is_before(&self.prev) {
            None
        } else {
            self.needs_updating = true;
            Some(Refresh::Deferred)
        }
    }
}

/// The instants of the tournaments, in their order.
pub open spec fn times_of(s: Seq<Tournament>) -> Seq<Instant> {
    Seq::new(s.len(), |i: int| s[i].datetime())
}

/// Whether no instant lies before the one ahead of it, nor the first before `start`.
pub open spec fn in_time_order(start: Instant, s: Seq<Instant>) -> bool {
    forall|i: int| 0 <= i < s.len() ==> #[trigger] follows(start, s, i)
}

/// Whether the instant at index `i` does not lie before the one ahead of it.
pub open spec fn follows(start: Instant, s: Seq<Instant>, i: int) -> bool {
    !s[i].before(&previous(start, s, i))
}

/// The instant ahead of index `i`: `start` for the first.
pub open spec fn previous(start: Instant, s: Seq<Instant>, i: int) -> Instant {
    if i <= 0 {
        start
    } else {
        s[i - 1]
    }
}

/// When the ranks are derived anew during a run.
#[derive(Debug, Clone)]
pub struct Schedule {
    /// For each tournament, whether the ranks are derived after it was scored.
    pub after: Vec<bool>,
    /// Whether the ranks are derived once more when all are scored.
    pub at_end: bool,
}

/// Plans a run over the tournaments in the order given. After a tournament
/// that lies later than the one before it the ranks are derived anew; after
/// one that shares the instant of the one before it they are left as they
/// are; one that lies before the one ahead of it ends the run: nothing is
/// planned then.
pub fn rank_schedule(tournaments: &Vec<Tournament>) -> (r: Result<Schedule, OutOfOrder>)
    ensures
        r is Ok <==> in_time_order(Instant::earliest(), times_of(tournaments@)),
        r matches Ok(plan) ==> {
            &&& plan.after@.len() == tournaments@.len()
            &&& forall|i: int|
                0 <= i < tournaments@.len() ==> (#[trigger] plan.after@[i]) == previous(
                    Instant::earliest(),
                    times_of(tournaments@),
                    i,
                ).before(&tournaments@[i].datetime())
            &&& plan.at_end == (tournaments@.len() == 0 || !plan.after@[tournaments@.len() - 1])
        },
        r matches Err(e) ==> {
            &&& e.index < tournaments@.len()
            &&& tournaments@[e.index as int].datetime().before(
                &previous(Instant::earliest(), times_of(tournaments@), e.index as int),
            )
            &&& in_time_order(Instant::earliest(), times_of(tournaments@).take(e.index as int))
        },
{
    let mut engine = RankEngine::new();
    let mut after: Vec<bool> = Vec::with_capacity(tournaments.len());
    let mut i: usize = 0;
    let ghost start = Instant::earliest();
    let ghost times = times_of(tournaments@);
    while i < tournaments.len()
        invariant
            i <= tournaments.len(),
            start == Instant::earliest(),
            times == times_of(tournaments@),
            after@.len() == i,
            in_time_order(start, times.take(i as int)),
            forall|k: int| 0 <= k < i ==> (#[trigger] after@[k]) == previous(start, times, k).before(&times[k]),
            engine.prev().same_time(&previous(start, times, i as int)),
            engine.pending() == (i == 0 || !after@[i - 1]),
        decreases tournaments.len() - i,
    {
        let at = tournaments[i].time();
        proof {
            assert(times[i as int] == at);
        }
        match engine.advance(at) {
            None => {
                proof {
                    assert(!follows(start, times, i as int));
                }
                return Err(OutOfOrder { index: i });
            },
            Some(Refresh::Now) => {
                after.push(true);
            },
            Some(Refresh::Deferred) => {
                after.push(false);
            },
        }
        proof {
            let longer = times.take(i as int + 1);
            let shorter = times.take(i as int);
            assert forall|k: int| 0 <= k < longer.len() implies #[trigger] follows(
                start,
                longer,
                k,
            ) by {
                if k < i {
                    assert(follows(start, shorter, k));
                    assert(previous(start, shorter, k) == previous(start, longer, k));
                } else {
                    assert(previous(start, longer, k) == previous(start, times, k));
                }
            }
        }
        i += 1;
    }
    proof {
        assert(times.take(i as int) =~= times);
    }
    let at_end: bool = engine.needs_updating();
    Ok(Schedule { after, at_end })
}

} // verus!
