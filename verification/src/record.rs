//! The bounded record of a player's best results.
//!
//! A result is held as a score: an unsigned integer that orders as the
//! points it stands for do.

use vstd::prelude::*;
use vstd::multiset::*;
use vstd::seq_lib::*;
use std::collections::HashMap;
use crate::team::PlayerId;
use crate::score::ZERO;

verus! {

/// How many results a record holds where nothing else is asked for.
pub const RECORD_LENGTH: usize = 10;

/// Whether `x` is in `m` and nothing in `m` is smaller.
pub open spec fn is_least(m: Multiset<u64>, x: u64) -> bool {
    m.contains(x) && forall|y: u64| m.contains(y) ==> x <= y
}

/// The smallest score in `m`.
pub open spec fn least(m: Multiset<u64>) -> u64 {
    choose|x: u64| is_least(m, x)
}

/// What a record of the given length holds after a result with score `p`
/// was added to the scores `m`: while there is room the new score joins the
/// others; after that it takes the place of the smallest one, unless it is
/// no greater itself.
pub open spec fn retained_after(m: Multiset<u64>, length: nat, p: u64) -> Multiset<u64> {
    if m.len() < length {
        m.insert(p)
    } else if m.len() == 0 || p <= least(m) {
        m
    } else {
        m.remove(least(m)).insert(p)
    }
}

/// What a record of the given length holds after the results in `s` were
/// added to an empty record, one after the other.
pub open spec fn fed(length: nat, s: Seq<u64>) -> Multiset<u64>
    decreases s.len(),
{
    if s.len() == 0 {
        Multiset::empty()
    } else {
        retained_after(fed(length, s.drop_last()), length, s.last())
    }
}

/// What adding a result did to a record.
#[derive(Debug, Clone, Copy, PartialEq, Eq, Structural)]
pub enum Change {
    /// There was room: the result was added and nothing left.
    Added,
    /// The result took the place of the smallest one, whose score this is.
    Replaced(u64),
    /// The result was no greater than the smallest one: nothing changed.
    Unchanged,
}

/// What adding a result with score `p` does to a record of the given
/// length that holds the scores `m`.
pub open spec fn change_after(m: Multiset<u64>, length: nat, p: u64) -> Change {
    if m.len() < length {
        Change::Added
    } else if m.len() == 0 || p <= least(m) {
        Change::Unchanged
    } else {
        Change::Replaced(least(m))
    }
}

/// Whether a change alters the rating, the sum of the results held: a
/// result that joins the others does unless it is worth nothing, and one
/// that takes another's place always does.
pub open spec fn alters_rating(change: Change, points: u64) -> bool {
    match change {
        Change::Added => points != ZERO,
        Change::Replaced(_) => true,
        Change::Unchanged => false,
    }
}

/// Whether a change alters the rating.
pub fn rating_changed(change: Change, points: u64) -> (r: bool)
    ensures
        r == alters_rating(change, points),
{
    match change {
        Change::Added => points != ZERO,
        Change::Replaced(_) => true,
        Change::Unchanged => false,
    }
}

/// The scores that a player's record holds: none where the player has no
/// record yet.
pub open spec fn held_by(records: Map<PlayerId, PlayerRecord>, p: PlayerId) -> Multiset<u64> {
    if records.contains_key(p) {
        records[p]@
    } else {
        Multiset::empty()
    }
}

/// The length of a player's record: `fresh` where the player has no record yet.
pub open spec fn length_for(records: Map<PlayerId, PlayerRecord>, p: PlayerId, fresh: nat) -> nat {
    if records.contains_key(p) {
        records[p].length()
    } else {
        fresh
    }
}

/// Adds a result to a player's record. A player who has no record gets
/// one, of the given length, with this first result.
pub fn credit(
    records: &mut HashMap<PlayerId, PlayerRecord>,
    player: PlayerId,
    record_length: usize,
    points: u64,
) -> (r: Change)
    ensures
        final(records)@.dom() == old(records)@.dom().insert(player),
        forall|q: PlayerId|
            q != player && old(records)@.contains_key(q) ==> #[trigger] final(records)@[q]
                == old(records)@[q],
        final(records)@[player]@ == retained_after(
            held_by(old(records)@, player),
            length_for(old(records)@, player, record_length as nat),
            points,
        ),
        final(records)@[player].length() == length_for(
            old(records)@,
            player,
            record_length as nat,
        ),
        final(records)@[player].player() == (if old(records)@.contains_key(player) {
            old(records)@[player].player()
        } else {
            player
        }),
        r == change_after(
            held_by(old(records)@, player),
            length_for(old(records)@, player, record_length as nat),
            points,
        ),
{
    broadcast use vstd::std_specs::hash::group_hash_axioms;

    let mut record = match records.remove(&player) {
        Some(found) => found,
        None => PlayerRecord::new(player, record_length),
    };
    let change = record.add_result(points);
    records.insert(player, record);
    proof {
        assert(final(records)@.dom() =~= old(records)@.dom().insert(player));
    }
    change
}

/// The best results of one player, up to a fixed number of them.
#[derive(Debug, Clone)]
pub struct PlayerRecord {
    id: PlayerId,
    record_length: usize,
    points: Vec<u64>,
}

impl View for PlayerRecord {
    type V = Multiset<u64>;

    /// The scores that the record holds.
    closed spec fn view(&self) -> Multiset<u64> {
        self.points@.to_multiset()
    }
}

impl PlayerRecord {
    /// The player whose record this is.
    pub closed spec fn player(&self) -> PlayerId {
        self.id
    }

    /// The player whose record this is.
    pub fn id(&self) -> (r: PlayerId)
        ensures
            r == self.player(),
    {
        self.id
    }

    /// How many results the record holds at most.
    pub fn record_length(&self) -> (r: usize)
        ensures
            r == self.length(),
    {
        self.record_length
    }

    /// How many results the record holds at most.
    pub closed spec fn length(&self) -> nat {
        self.record_length as nat
    }

    /// The record holds no more results than its length allows.
    pub closed spec fn wf(&self) -> bool {
        self.points@.len() <= self.record_length
    }

    /// An empty record.
    pub fn new(id: PlayerId, record_length: usize) -> (r: Self)
        ensures
            r.wf(),
            r.player() == id,
            r.length() == record_length,
            r@ == Multiset::<u64>::empty(),
    {
        let points: Vec<u64> = Vec::new();
        proof {
            assert(points@.to_multiset() =~= Multiset::<u64>::empty()) by {
                to_multiset_len(points@);
                assert(points@.to_multiset().len() == 0);
                lemma_empty_has_nothing(points@.to_multiset());
            }
        }
        Self { id, record_length, points }
    }

    /// A record to which the given results were added, one after the other.
    pub fn new_with_points(id: PlayerId, record_length: usize, points: &Vec<u64>) -> (r: Self)
        ensures
            r.wf(),
            r.player() == id,
            r.length() == record_length,
            r@ == fed(record_length as nat, points@),
    {
        let mut player = Self::new(id, record_length);
        let mut i: usize = 0;
        while i < points.len()
            invariant
                i <= points.len(),
                player.wf(),
                player.player() == id,
                player.length() == record_length,
                player@ == fed(record_length as nat, points@.take(i as int)),
            decreases points.len() - i,
        {
            proof {
                assert(points@.take(i as int + 1).drop_last() =~= points@.take(i as int));
            }
            player.add_result(points[i]);
            i += 1;
        }
        proof {
            assert(points@.take(i as int) =~= points@);
        }
        player
    }

    /// How many results the record holds.
    pub fn held(&self) -> (r: usize)
        ensures
            r == self@.len(),
    {
        proof {
            to_multiset_len(self.points@);
        }
        self.points.len()
    }

    /// The scores that the record holds, in no particular order.
    pub fn scores(&self) -> (r: Vec<u64>)
        ensures
            r@.to_multiset() == self@,
    {
        self.points.clone()
    }

    /// Adds a result, keeping the best ones.
    pub fn add_result(&mut self, points: u64) -> (r: Change)
        ensures
            old(self).wf() ==> final(self).wf(),
            final(self).player() == old(self).player(),
            final(self).length() == old(self).length(),
            final(self)@ == retained_after(old(self)@, old(self).length(), points),
            r == change_after(old(self)@, old(self).length(), points),
            r matches Change::Replaced(x) ==> x < points && old(self)@.contains(x),
    {
        proof {
            to_multiset_len(self.points@);
        }
        if self.points.len() < self.record_length {
            proof {
                to_multiset_build(self.points@, points);
            }
            self.points.push(points);
            return Change::Added;
        }
        if self.points.len() == 0 {
            return Change::Unchanged;
        }
        let mut lowest: usize = 0;
        let mut i: usize = 1;
        while i < self.points.len()
            invariant
                1 <= i <= self.points.len(),
                lowest < i,
                forall|k: int| 0 <= k < i ==> self.points@[lowest as int] <= #[trigger] self.points@[k],
            decreases self.points.len() - i,
        {
            if self.points[i] < self.points[lowest] {
                lowest = i;
            }
            i += 1;
        }
        let removed: u64 = self.points[lowest];
        proof {
            let s = self.points@;
            assert(is_least(s.to_multiset(), removed)) by {
                assert(s.contains(removed));
                to_multiset_contains(s, removed);
                assert forall|y: u64| s.to_multiset().contains(y) implies removed <= y by {
                    to_multiset_contains(s, y);
                    let k = choose|k: int| 0 <= k < s.len() && s[k] == y;
                    assert(s[lowest as int] <= s[k]);
                }
            }
            lemma_least_unique(s.to_multiset(), removed);
        }
        if points <= removed {
            return Change::Unchanged;
        }
        proof {
            to_multiset_update(self.points@, lowest as int, points);
        }
        self.points.set(lowest, points);
        Change::Replaced(removed)
    }
}

/// A multiset of no elements contains nothing.
proof fn lemma_empty_has_nothing(m: Multiset<u64>)
    requires
        m.len() == 0,
    ensures
        m =~= Multiset::<u64>::empty(),
{
    broadcast use group_multiset_axioms;

    assert forall|x: u64| m.count(x) == 0 by {
        if m.count(x) > 0 {
            assert(m.contains(x));
            assert(m.remove(x).len() == m.len() - 1);
        }
    }
}

/// There is only one smallest score.
pub proof fn lemma_least_unique(m: Multiset<u64>, x: u64)
    requires
        is_least(m, x),
    ensures
        least(m) == x,
{
    let l = least(m);
    assert(is_least(m, l));
}

/// As long as no more results are added than the record is long, the record
/// holds all of them, in whatever order they came.
pub proof fn lemma_fed_within_length(length: nat, s: Seq<u64>)
    requires
        s.len() <= length,
    ensures
        fed(length, s) == s.to_multiset(),
    decreases s.len(),
{
    broadcast use group_multiset_axioms;

    if s.len() == 0 {
        to_multiset_len(s);
        lemma_empty_has_nothing(s.to_multiset());
    } else {
        let front = s.drop_last();
        lemma_fed_within_length(length, front);
        to_multiset_len(front);
        to_multiset_build(front, s.last());
        assert(front.push(s.last()) =~= s);
    }
}

/// Two lists of the same results in different order, neither longer than
/// the record, leave the same record.
pub proof fn lemma_fed_order_free(length: nat, s: Seq<u64>, t: Seq<u64>)
    requires
        s.len() <= length,
        s.to_multiset() == t.to_multiset(),
    ensures
        fed(length, s) == fed(length, t),
{
    to_multiset_len(s);
    to_multiset_len(t);
    lemma_fed_within_length(length, s);
    lemma_fed_within_length(length, t);
}

/// A result added to a full record drives out exactly the smallest of the
/// scores held and the new one.
pub proof fn lemma_full_evicts_least(m: Multiset<u64>, length: nat, p: u64)
    requires
        m.len() == length,
    ensures
        is_least(m.insert(p), least(m.insert(p))),
        retained_after(m, length, p) == m.insert(p).remove(least(m.insert(p))),
{
    broadcast use group_multiset_axioms;

    let grown = m.insert(p);
    if m.len() == 0 {
        lemma_empty_has_nothing(m);
        assert(is_least(grown, p));
        lemma_least_unique(grown, p);
        assert(grown.remove(p) =~= m);
    } else {
        lemma_has_least(m);
        let l = least(m);
        assert(m.contains(l));
        assert forall|y: u64| grown.contains(y) implies y == p || m.contains(y) by {
            if y != p {
                assert(grown.count(y) == m.count(y));
            }
        }
        assert(grown.contains(p));
        assert(grown.contains(l)) by {
            assert(grown.count(l) >= m.count(l));
        }
        if p <= l {
            assert(is_least(grown, p));
            lemma_least_unique(grown, p);
            assert(grown.remove(p) =~= m);
        } else {
            assert(is_least(grown, l));
            lemma_least_unique(grown, l);
            assert(grown.remove(l) =~= m.remove(l).insert(p));
        }
    }
}

/// A multiset that is not empty has a smallest score.
pub proof fn lemma_has_least(m: Multiset<u64>)
    requires
        m.len() > 0,
    ensures
        is_least(m, least(m)),
    decreases m.len(),
{
    broadcast use group_multiset_axioms;

    let x = m.choose();
    let rest = m.remove(x);
    if rest.len() == 0 {
        lemma_empty_has_nothing(rest);
        assert forall|y: u64| m.contains(y) implies x <= y by {
            if y != x {
                assert(rest.count(y) == m.count(y));
            }
        }
        assert(is_least(m, x));
    } else {
        lemma_has_least(rest);
        let l = least(rest);
        let best = if x <= l { x } else { l };
        assert forall|y: u64| m.contains(y) implies best <= y by {
            if y != x {
                assert(rest.count(y) == m.count(y));
                assert(rest.contains(y));
            }
        }
        assert(m.contains(l)) by {
            assert(rest.contains(l));
        }
        assert(is_least(m, best));
    }
}

/// `m` without its smallest score.
pub open spec fn without_least(m: Multiset<u64>) -> Multiset<u64> {
    m.remove(least(m))
}

/// Dropping the smallest score, adding a result and dropping the smallest
/// again leaves what adding the result first and dropping the smallest
/// twice leaves.
proof fn lemma_drop_add_drop(m: Multiset<u64>, b: u64)
    requires
        m.len() > 0,
    ensures
        without_least(without_least(m).insert(b)) == without_least(without_least(m.insert(b))),
{
    broadcast use group_multiset_axioms;

    lemma_has_least(m);
    let l = least(m);
    let grown = m.insert(b);
    assert forall|y: u64| grown.contains(y) implies y == b || m.contains(y) by {
        if y != b {
            assert(grown.count(y) == m.count(y));
        }
    }
    assert(grown.contains(l)) by {
        assert(grown.count(l) >= m.count(l));
    }
    if b < l {
        assert(is_least(grown, b));
        lemma_least_unique(grown, b);
        assert(grown.remove(b) =~= m);
        let z = m.remove(l).insert(b);
        assert forall|y: u64| z.contains(y) implies b <= y by {
            if y != b {
                assert(z.count(y) == m.remove(l).count(y));
                assert(m.remove(l).count(y) <= m.count(y));
                assert(m.contains(y));
            }
        }
        assert(is_least(z, b));
        lemma_least_unique(z, b);
        assert(z.remove(b) =~= m.remove(l));
    } else {
        assert(is_least(grown, l));
        lemma_least_unique(grown, l);
        assert(grown.remove(l) =~= m.remove(l).insert(b));
    }
}

/// When one result more is added than the record is long, the record holds
/// all of them but the smallest.
pub proof fn lemma_fed_one_more(length: nat, s: Seq<u64>)
    requires
        s.len() == length + 1,
    ensures
        fed(length, s) == without_least(s.to_multiset()),
{
    let front = s.drop_last();
    lemma_fed_within_length(length, front);
    to_multiset_len(front);
    to_multiset_build(front, s.last());
    assert(front.push(s.last()) =~= s);
    lemma_full_evicts_least(front.to_multiset(), length, s.last());
}

/// Two results added one after the other leave the same record in either
/// order: what a record holds does not depend on the order in which its
/// results came.
pub proof fn lemma_add_commutes(m: Multiset<u64>, length: nat, a: u64, b: u64)
    requires
        m.len() <= length,
    ensures
        retained_after(retained_after(m, length, a), length, b) == retained_after(
            retained_after(m, length, b),
            length,
            a,
        ),
{
    broadcast use group_multiset_axioms;

    let both = m.insert(a).insert(b);
    assert(both =~= m.insert(b).insert(a));
    if m.len() + 2 <= length {
    } else if m.len() + 1 == length {
        lemma_full_evicts_least(m.insert(a), length, b);
        lemma_full_evicts_least(m.insert(b), length, a);
    } else if length == 0 {
        lemma_empty_has_nothing(m);
    } else {
        lemma_full_evicts_least(m, length, a);
        lemma_full_evicts_least(m, length, b);
        let first_a = without_least(m.insert(a));
        let first_b = without_least(m.insert(b));
        assert(retained_after(m, length, a) == first_a);
        assert(retained_after(m, length, b) == first_b);
        assert(first_a.len() == length);
        assert(first_b.len() == length);
        lemma_full_evicts_least(first_a, length, b);
        lemma_full_evicts_least(first_b, length, a);
        lemma_drop_add_drop(m.insert(a), b);
        lemma_drop_add_drop(m.insert(b), a);
    }
}

} // verus!
