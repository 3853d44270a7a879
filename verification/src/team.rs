//! Teams: unordered pairs of two distinct players.

use vstd::prelude::*;

verus! {

/// Identifier of a player.
pub type PlayerId = u64;

/// A player occurred where each player may occur only once.
#[derive(Debug, Clone, Copy, PartialEq, Eq, Structural)]
pub struct RepeatedPlayer(pub PlayerId);

/// Two players in canonical order.
#[derive(Debug, Clone, Copy, Hash, PartialEq, Eq, Structural)]
pub struct Team {
    early: PlayerId,
    late: PlayerId,
}

impl Team {
    /// The first player in canonical order.
    pub closed spec fn early(&self) -> PlayerId {
        self.early
    }

    /// The second player in canonical order.
    pub closed spec fn late(&self) -> PlayerId {
        self.late
    }

    /// The canonical invariant: the first player's identifier is the smaller one.
    pub open spec fn wf(&self) -> bool {
        self.early() < self.late()
    }

    /// The team of two players, in either order.
    pub closed spec fn of(player1: PlayerId, player2: PlayerId) -> Team {
        if player1 < player2 {
            Team { early: player1, late: player2 }
        } else {
            Team { early: player2, late: player1 }
        }
    }

    /// Builds the team of two players, in either order.
    pub fn new(player1: PlayerId, player2: PlayerId) -> (r: Result<Self, RepeatedPlayer>)
        ensures
            player1 == player2 <==> r is Err,
            r matches Err(e) ==> e == RepeatedPlayer(player1),
            r matches Ok(t) ==> t.wf() && t == Team::of(player1, player2)
                && t.early() == (if player1 < player2 { player1 } else { player2 })
                && t.late() == (if player1 < player2 { player2 } else { player1 }),
    {
        if player1 < player2 {
            Ok(Self::new_unchecked(player1, player2))
        } else if player1 == player2 {
            Err(RepeatedPlayer(player1))
        } else {
            Ok(Self::new_unchecked(player2, player1))
        }
    }

    /// Builds a team from players the caller has already put in order.
    pub fn new_unchecked(early: PlayerId, late: PlayerId) -> (r: Self)
        ensures
            r.early() == early,
            r.late() == late,
    {
        Self { early, late }
    }

    /// Both players, in canonical order.
    pub fn players(&self) -> (r: [&PlayerId; 2])
        ensures
            *r[0] == self.early(),
            *r[1] == self.late(),
    {
        [&self.early, &self.late]
    }
}

/// Building a team from the same two players in either order gives the same team.
pub proof fn lemma_team_unordered(a: Team, b: Team, p: PlayerId, q: PlayerId)
    requires
        a.wf(),
        b.wf(),
        a.early() == p || a.late() == p,
        a.early() == q || a.late() == q,
        b.early() == p || b.late() == p,
        b.early() == q || b.late() == q,
        p != q,
    ensures
        a == b,
{
}

} // verus!
