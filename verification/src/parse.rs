//! Results as they are written down: rows of text fields, of which the
//! first three give a place and the two players of a team.

use vstd::prelude::*;
use crate::team::{PlayerId, RepeatedPlayer, Team};
use crate::tournament::InvalidTournament;

verus! {

/// `std::io::Error`, carried through as it came.
#[verifier::external_type_specification]
#[verifier::external_body]
pub struct ExIoError(std::io::Error);

/// Why results could not be read.
#[derive(Debug)]
pub enum ResultReadError {
    /// The results are no tournament.
    InvalidTournament(InvalidTournament),
    /// The results could not be got at.
    Io(std::io::Error),
}

impl From<InvalidTournament> for ResultReadError {
    fn from(e: InvalidTournament) -> (r: ResultReadError) {
        ResultReadError::InvalidTournament(e)
    }
}

impl vstd::std_specs::convert::FromSpecImpl<InvalidTournament> for ResultReadError {
    open spec fn obeys_from_spec() -> bool {
        true
    }

    open spec fn from_spec(e: InvalidTournament) -> ResultReadError {
        ResultReadError::InvalidTournament(e)
    }
}

impl From<std::io::Error> for ResultReadError {
    fn from(e: std::io::Error) -> (r: ResultReadError) {
        ResultReadError::Io(e)
    }
}

impl vstd::std_specs::convert::FromSpecImpl<std::io::Error> for ResultReadError {
    open spec fn obeys_from_spec() -> bool {
        true
    }

    open spec fn from_spec(e: std::io::Error) -> ResultReadError {
        ResultReadError::Io(e)
    }
}

/// The value of a decimal digit.
pub open spec fn digit_value(c: char) -> Option<nat> {
    if '0' <= c && c <= '9' {
        Some((c as nat - '0' as nat) as nat)
    } else {
        None
    }
}

/// The value of a run of decimal digits; `None` where one is no digit.
pub open spec fn digits_value(s: Seq<char>) -> Option<nat>
    decreases s.len(),
{
    if s.len() == 0 {
        Some(0)
    } else {
        match (digits_value(s.drop_last()), digit_value(s.last())) {
            (Some(high), Some(low)) => Some(10 * high + low),
            _ => None,
        }
    }
}

/// The digits of a number: the text without a plus sign at its head.
pub open spec fn unsigned_part(s: Seq<char>) -> Seq<char> {
    if s.len() > 0 && s[0] == '+' {
        s.skip(1)
    } else {
        s
    }
}

/// The number that a text gives: decimal digits, at least one, with or
/// without a plus sign ahead of them, whose value fits into 64 bits.
pub open spec fn decimal_u64(s: Seq<char>) -> Option<u64> {
    let digits = unsigned_part(s);
    if digits.len() == 0 {
        None
    } else {
        match digits_value(digits) {
            Some(v) => if v <= u64::MAX {
                Some(v as u64)
            } else {
                None
            },
            None => None,
        }
    }
}

/// A run of digits is worth no less than the digits at its head.
proof fn lemma_digits_grow(s: Seq<char>, k: int)
    requires
        0 <= k <= s.len(),
    ensures
        digits_value(s) matches Some(v) ==> (digits_value(s.take(k)) matches Some(h) && h <= v),
        digits_value(s.take(k)) is None ==> digits_value(s) is None,
    decreases s.len() - k,
{
    if k == s.len() {
        assert(s.take(k) =~= s);
    } else {
        lemma_digits_grow(s, k + 1);
        assert(s.take(k + 1).drop_last() =~= s.take(k));
    }
}

/// Reads a number as `decimal_u64` gives it.
pub fn parse_u64(text: &str) -> (r: Option<u64>)
    ensures
        r == decimal_u64(text@),
{
    let n: usize = text.unicode_len();
    if n == 0 {
        return None;
    }
    let start: usize = if text.get_char(0) == '+' {
        1
    } else {
        0
    };
    if start == n {
        return None;
    }
    let ghost digits = unsigned_part(text@);
    let mut value: u64 = 0;
    let mut i: usize = start;
    proof {
        assert(digits.take(0) =~= Seq::<char>::empty());
    }
    while i < n
        invariant
            start <= i <= n,
            n == text@.len(),
            digits == unsigned_part(text@),
            digits.len() == n - start,
            forall|k: int| 0 <= k < digits.len() ==> digits[k] == text@[k + start],
            digits_value(digits.take(i - start)) == Some(value as nat),
        decreases n - i,
    {
        let c: char = text.get_char(i);
        proof {
            lemma_digits_grow(digits, i - start + 1);
            assert(digits.take(i - start + 1).drop_last() =~= digits.take(i - start));
            assert(digits.take(i - start + 1).last() == c);
        }
        if c < '0' || c > '9' {
            return None;
        }
        let low: u64 = (c as u32 - '0' as u32) as u64;
        if value > (u64::MAX - low) / 10 {
            return None;
        }
        value = value * 10 + low;
        i += 1;
    }
    proof {
        assert(digits.take(n - start) =~= digits);
    }
    Some(value)
}

/// The place and the two players that a row gives: its first three fields,
/// where it has them and each is a number.
pub open spec fn row_numbers(row: Seq<String>) -> Option<(u64, PlayerId, PlayerId)> {
    if row.len() < 3 {
        None
    } else {
        match (decimal_u64(row[0]@), decimal_u64(row[1]@), decimal_u64(row[2]@)) {
            (Some(place), Some(first), Some(second)) => Some((place, first, second)),
            _ => None,
        }
    }
}

/// Reads the place and the two players of a row.
pub fn parse_row(row: &Vec<String>) -> (r: Option<(u64, PlayerId, PlayerId)>)
    ensures
        r == row_numbers(row@),
{
    if row.len() < 3 {
        return None;
    }
    let place: u64 = match parse_u64(row[0].as_str()) {
        Some(v) => v,
        None => {
            return None;
        },
    };
    let first: PlayerId = match parse_u64(row[1].as_str()) {
        Some(v) => v,
        None => {
            return None;
        },
    };
    let second: PlayerId = match parse_u64(row[2].as_str()) {
        Some(v) => v,
        None => {
            return None;
        },
    };
    Some((place, first, second))
}

/// The results that the rows give, in their order: a row that lacks a
/// field or a number is passed over, and the first row whose two players
/// are the same ends the reading.
pub open spec fn ranks_of(rows: Seq<Vec<String>>) -> Result<Seq<(u64, Team)>, RepeatedPlayer>
    decreases rows.len(),
{
    if rows.len() == 0 {
        Ok(Seq::empty())
    } else {
        match ranks_of(rows.drop_last()) {
            Err(e) => Err(e),
            Ok(front) => match row_numbers(rows.last()@) {
                None => Ok(front),
                Some((place, first, second)) => if first == second {
                    Err(RepeatedPlayer(first))
                } else {
                    Ok(front.push((place, Team::of(first, second))))
                },
            },
        }
    }
}

/// Reads the results that the rows give.
pub fn parse_ranks(rows: &Vec<Vec<String>>) -> (r: Result<Vec<(u64, Team)>, ResultReadError>)
    ensures
        match r {
            Ok(ranks) => ranks_of(rows@) == Ok::<Seq<(u64, Team)>, RepeatedPlayer>(ranks@),
            Err(e) => ranks_of(rows@) is Err && e == ResultReadError::InvalidTournament(
                InvalidTournament::RepeatedPlayer(ranks_of(rows@)->Err_0),
            ),
        },
{
    let mut ranks: Vec<(u64, Team)> = Vec::new();
    let mut i: usize = 0;
    proof {
        assert(rows@.take(0) =~= Seq::<Vec<String>>::empty());
    }
    while i < rows.len()
        invariant
            i <= rows.len(),
            ranks_of(rows@.take(i as int)) == Ok::<Seq<(u64, Team)>, RepeatedPlayer>(ranks@),
        decreases rows.len() - i,
    {
        proof {
            assert(rows@.take(i as int + 1).drop_last() =~= rows@.take(i as int));
            assert(rows@.take(i as int + 1).last() == rows@[i as int]);
        }
        match parse_row(&rows[i]) {
            None => {},
            Some((place, first, second)) => {
                match Team::new(first, second) {
                    Ok(team) => {
                        ranks.push((place, team));
                    },
                    Err(e) => {
                        proof {
                            lemma_ranks_fail_for_good(rows@, i as int + 1);
                        }
                        return Err(
                            ResultReadError::InvalidTournament(InvalidTournament::RepeatedPlayer(e)),
                        );
                    },
                }
            },
        }
        i += 1;
    }
    proof {
        assert(rows@.take(i as int) =~= rows@);
    }
    Ok(ranks)
}

/// Once the reading has ended on a row, more rows do not change that.
proof fn lemma_ranks_fail_for_good(rows: Seq<Vec<String>>, k: int)
    requires
        0 <= k <= rows.len(),
        ranks_of(rows.take(k)) is Err,
    ensures
        ranks_of(rows) == ranks_of(rows.take(k)),
    decreases rows.len() - k,
{
    if k == rows.len() {
        assert(rows.take(k) =~= rows);
    } else {
        assert(rows.take(k + 1).drop_last() =~= rows.take(k));
        lemma_ranks_fail_for_good(rows, k + 1);
    }
}

} // verus!
