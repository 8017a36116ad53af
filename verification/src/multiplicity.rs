//! Multiplicity of association ends and attributes.
//!
//! Notation: `lower..upper`, with the abbreviations `1` (`1..1`) and `*`
//! (`0..*`). `upper < lower` is invalid and rejected on construction and on
//! parse.

use vstd::prelude::*;

use crate::numeral::{
    all_digits, decimal, decimal_text, is_digit, lemma_decimal_reads_back, lemma_u32_round_trip, parse_u32_chars,
    push_decimal, u32_text,
};
use crate::text::{chars_of, is_white_space, lead_ws, trail_ws, trim_range, trimmed};

verus! {

/// Inclusive lower bound and optional inclusive upper bound of a
/// multiplicity; an upper bound of `None` means unbounded (`*`). Two
/// multiplicities are equal only when both bounds match.
#[derive(Debug, Clone, Copy, PartialEq, Eq, Structural, Hash)]
pub struct Multiplicity {
    /// Inclusive lower bound.
    pub lower: u32,
    /// Inclusive upper bound, or `None` for unbounded (`*`).
    pub upper: Option<u32>,
}

/// Why a multiplicity was rejected.
#[derive(Debug, PartialEq, Eq)]
pub enum MultiplicityError {
    /// The upper bound is below the lower bound.
    UpperBelowLower {
        /// The (too large) lower bound.
        lower: u32,
        /// The (too small) upper bound that was rejected.
        upper: u32,
    },
    /// The text is none of `n`, `*`, `lower..upper` or `lower..*`.
    InvalidFormat {
        /// The text that failed to parse.
        input: String,
    },
}

impl Clone for MultiplicityError {
    fn clone(&self) -> (r: Self)
        ensures
            r == *self,
    {
        match self {
            MultiplicityError::UpperBelowLower { lower, upper } => MultiplicityError::UpperBelowLower {
                lower: *lower,
                upper: *upper,
            },
            MultiplicityError::InvalidFormat { input } => MultiplicityError::InvalidFormat { input: input.clone() },
        }
    }
}

/// The bounds are consistent: no upper bound below the lower one.
pub open spec fn valid(m: Multiplicity) -> bool {
    m.upper matches Some(u) ==> m.lower <= u
}

/// The canonical notation: `n` when both bounds are `n`, `*` for `0..*`,
/// `lower..*` for another unbounded one, `lower..upper` otherwise.
pub open spec fn format_text(m: Multiplicity) -> Seq<char> {
    match m.upper {
        Some(u) => if u == m.lower {
            decimal(m.lower as nat)
        } else {
            decimal(m.lower as nat) + seq!['.', '.'] + decimal(u as nat)
        },
        None => if m.lower == 0 {
            seq!['*']
        } else {
            decimal(m.lower as nat) + seq!['.', '.', '*']
        },
    }
}

/// A `..` starts at position `i`.
pub open spec fn dotdot_at(s: Seq<char>, i: int) -> bool {
    0 <= i && i + 1 < s.len() && s[i] == '.' && s[i + 1] == '.'
}

/// The first `..` starts at position `i`.
pub open spec fn first_dotdot(s: Seq<char>, i: int) -> bool {
    dotdot_at(s, i) && forall|j: int| 0 <= j < i ==> !#[trigger] dotdot_at(s, j)
}

/// The multiplicity the bounds' texts (each already trimmed) name, if they
/// name a valid one: the lower a `u32`, the upper a `u32` or `*`.
pub open spec fn bounds_text(lt: Seq<char>, ut: Seq<char>) -> Option<Multiplicity> {
    match u32_text(lt) {
        None => None,
        Some(l) => if ut == seq!['*'] {
            Some(Multiplicity { lower: l, upper: None })
        } else {
            match u32_text(ut) {
                None => None,
                Some(u) => if u < l {
                    None
                } else {
                    Some(Multiplicity { lower: l, upper: Some(u) })
                },
            }
        },
    }
}

/// The multiplicity a text names, after trimming: `*`, a single bound `n`
/// (for `n..n`), or `lower..upper` split at the first `..` with each side
/// trimmed, the upper side a number or `*`. `None` for anything else and for
/// an upper bound below the lower one.
pub open spec fn parse_text(text: Seq<char>) -> Option<Multiplicity> {
    let t = trimmed(text);
    if t.len() == 0 {
        None
    } else if t == seq!['*'] {
        Some(Multiplicity { lower: 0, upper: None })
    } else if exists|i: int| first_dotdot(t, i) {
        let i = choose|i: int| first_dotdot(t, i);
        bounds_text(trimmed(t.take(i)), trimmed(t.skip(i + 2)))
    } else {
        match u32_text(t) {
            Some(l) => Some(Multiplicity { lower: l, upper: Some(l) }),
            None => None,
        }
    }
}

/// Only one position holds the first `..`.
proof fn lemma_first_dotdot_unique(s: Seq<char>, i: int, j: int)
    requires
        first_dotdot(s, i),
        first_dotdot(s, j),
    ensures
        i == j,
{
    if i < j {
        assert(!dotdot_at(s, i));
    } else if j < i {
        assert(!dotdot_at(s, j));
    }
}

impl Multiplicity {
    /// Build a multiplicity, rejecting `upper < lower`.
    pub fn new(lower: u32, upper: Option<u32>) -> (r: Result<Multiplicity, MultiplicityError>)
        ensures
            (upper is Some && upper->0 < lower) ==> r == Err::<Multiplicity, MultiplicityError>(
                MultiplicityError::UpperBelowLower { lower, upper: upper->0 },
            ),
            !(upper is Some && upper->0 < lower) ==> r == Ok::<Multiplicity, MultiplicityError>(
                Multiplicity { lower, upper },
            ),
    {
        if let Some(upper_value) = upper {
            if upper_value < lower {
                return Err(MultiplicityError::UpperBelowLower { lower, upper: upper_value });
            }
        }
        Ok(Multiplicity { lower, upper })
    }

    /// Whether this multiplicity is unbounded (`*` as its upper bound).
    pub fn is_unbounded(self) -> (b: bool)
        ensures
            b == self.upper is None,
    {
        self.upper.is_none()
    }

    /// The canonical notation of this multiplicity.
    pub fn to_string(&self) -> (s: String)
        ensures
            s@ == format_text(*self),
    {
        match self.upper {
            Some(u) => {
                if u == self.lower {
                    decimal_text(self.lower)
                } else {
                    let mut s = decimal_text(self.lower);
                    s.append("..");
                    push_decimal(&mut s, u);
                    proof {
                        reveal_strlit("..");
                        assert(s@ =~= format_text(*self));
                    }
                    s
                }
            },
            None => {
                if self.lower == 0 {
                    proof {
                        reveal_strlit("*");
                    }
                    let s = String::from_str("*");
                    assert(s@ =~= format_text(*self));
                    s
                } else {
                    let mut s = decimal_text(self.lower);
                    s.append("..*");
                    proof {
                        reveal_strlit("..*");
                        assert(s@ =~= format_text(*self));
                    }
                    s
                }
            },
        }
    }

    /// Parse a multiplicity: `*`, `n` (for `n..n`), `lower..upper` or
    /// `lower..*`, with white space allowed around the text and around each
    /// bound. Anything else, and an upper bound below the lower one, is an
    /// `InvalidFormat` error carrying the text.
    pub fn parse(text: &str) -> (r: Result<Multiplicity, MultiplicityError>)
        ensures
            parse_text(text@) matches Some(m) ==> r == Ok::<Multiplicity, MultiplicityError>(m),
            parse_text(text@) is None ==> (r matches Err(MultiplicityError::InvalidFormat { input }) && input@ == text@),
    {
        let cs = chars_of(text);
        let n = cs.len();
        let (a, b) = trim_range(&cs, 0, n);
        let ghost t = cs@.subrange(a as int, b as int);
        proof {
            assert(cs@.subrange(0, n as int) =~= text@);
        }
        if a == b {
            return Err(invalid(text));
        }
        if b == a + 1 && cs[a] == '*' {
            assert(t =~= seq!['*']);
            return Ok(Multiplicity { lower: 0, upper: None });
        }
        proof {
            if t == seq!['*'] {
                assert(t[0] == cs@[a as int]);
            }
        }
        // the first `..`, if any
        let mut k = a;
        let mut found = false;
        while b - k > 1 && !found
            invariant
                a <= k <= b <= cs@.len(),
                t == cs@.subrange(a as int, b as int),
                found ==> k + 1 < b && dotdot_at(t, k - a),
                forall|j: int| 0 <= j < k - a ==> !#[trigger] dotdot_at(t, j),
            decreases (b - k) * 2 + if found { 0int } else { 1int },
        {
            if cs[k] == '.' && cs[k + 1] == '.' {
                assert(t[k - a] == cs@[k as int] && t[k - a + 1] == cs@[k + 1]);
                found = true;
            } else {
                assert(t[k - a] == cs@[k as int] && t[k - a + 1] == cs@[k + 1]);
                k = k + 1;
            }
        }
        if !found {
            proof {
                if exists|i: int| first_dotdot(t, i) {
                    let i = choose|i: int| first_dotdot(t, i);
                    assert(!dotdot_at(t, i));
                }
            }
            return match parse_u32_chars(&cs, a, b) {
                Some(l) => Ok(Multiplicity { lower: l, upper: Some(l) }),
                None => Err(invalid(text)),
            };
        }
        let ghost i = k - a;
        proof {
            assert(first_dotdot(t, i));
            assert forall|j: int| first_dotdot(t, j) implies j == i by {
                lemma_first_dotdot_unique(t, i, j);
            }
        }
        let (la, lb) = trim_range(&cs, a, k);
        let (ua, ub) = trim_range(&cs, k + 2, b);
        proof {
            assert(cs@.subrange(a as int, k as int) =~= t.take(i));
            assert(cs@.subrange(k + 2, b as int) =~= t.skip(i + 2));
        }
        let lower = match parse_u32_chars(&cs, la, lb) {
            Some(l) => l,
            None => {
                return Err(invalid(text));
            },
        };
        if ub > ua && ub - ua == 1 && cs[ua] == '*' {
            assert(cs@.subrange(ua as int, ub as int) =~= seq!['*']);
            return Ok(Multiplicity { lower, upper: None });
        }
        proof {
            if cs@.subrange(ua as int, ub as int) == seq!['*'] {
                assert(cs@.subrange(ua as int, ub as int)[0] == cs@[ua as int]);
            }
        }
        let upper = match parse_u32_chars(&cs, ua, ub) {
            Some(u) => u,
            None => {
                return Err(invalid(text));
            },
        };
        if upper < lower {
            return Err(invalid(text));
        }
        Ok(Multiplicity { lower, upper: Some(upper) })
    }
}

/// The `InvalidFormat` error for a text.
pub fn invalid(text: &str) -> (e: MultiplicityError)
    ensures
        e matches MultiplicityError::InvalidFormat { input } && input@ == text@,
{
    MultiplicityError::InvalidFormat { input: String::from_str(text) }
}

impl std::str::FromStr for Multiplicity {
    type Err = MultiplicityError;

    /// Parse a multiplicity, as [`Multiplicity::parse`] does.
    fn from_str(text: &str) -> (r: Result<Multiplicity, MultiplicityError>)
        ensures
            parse_text(text@) matches Some(m) ==> r == Ok::<Multiplicity, MultiplicityError>(m),
            parse_text(text@) is None ==> (r matches Err(MultiplicityError::InvalidFormat { input }) && input@ == text@),
    {
        Multiplicity::parse(text)
    }
}

/// A numeral has no white space at either end, so trimming keeps it.
proof fn lemma_trim_numeral_text(s: Seq<char>)
    requires
        s.len() > 0,
        !is_white_space(s[0]),
        !is_white_space(s.last()),
    ensures
        trimmed(s) == s,
{
    assert(lead_ws(s) == 0);
    assert(s.skip(0) =~= s);
    assert(trail_ws(s) == 0);
    assert(s.take(s.len() as int) =~= s);
}

/// A digit is not white space, and neither `.` nor `*` is a digit.
proof fn lemma_digit_chars(c: char)
    requires
        is_digit(c),
    ensures
        !is_white_space(c),
        c != '.',
        c != '*',
{
}

/// The facts about a numeral the round trip needs: it is digits, reads
/// back, keeps under trimming, and holds neither `.` nor `*`.
proof fn lemma_numeral_facts(n: u32)
    ensures
        decimal(n as nat).len() > 0,
        u32_text(decimal(n as nat)) == Some(n),
        trimmed(decimal(n as nat)) == decimal(n as nat),
        !is_white_space(decimal(n as nat)[0]),
        !is_white_space(decimal(n as nat).last()),
        forall|j: int| 0 <= j < decimal(n as nat).len() ==> #[trigger] decimal(n as nat)[j] != '.' && decimal(n as nat)[j] != '*',
{
    let d = decimal(n as nat);
    lemma_decimal_reads_back(n as nat);
    lemma_u32_round_trip(n);
    lemma_digit_chars(d[0]);
    lemma_digit_chars(d.last());
    lemma_trim_numeral_text(d);
    assert forall|j: int| 0 <= j < d.len() implies #[trigger] d[j] != '.' && d[j] != '*' by {
        lemma_digit_chars(d[j]);
    }
}

/// `lower..rest`: the first `..` follows the lower bound's numeral.
proof fn lemma_split_after_numeral(l: u32, rest: Seq<char>)
    ensures
        ({
            let t = decimal(l as nat) + seq!['.', '.'] + rest;
            &&& first_dotdot(t, decimal(l as nat).len() as int)
            &&& forall|j: int| first_dotdot(t, j) ==> j == decimal(l as nat).len()
            &&& t.take(decimal(l as nat).len() as int) == decimal(l as nat)
            &&& t.skip(decimal(l as nat).len() as int + 2) == rest
        }),
{
    lemma_numeral_facts(l);
    let dl = decimal(l as nat);
    let t = dl + seq!['.', '.'] + rest;
    let i = dl.len() as int;
    assert(t[i] == '.' && t[i + 1] == '.');
    assert forall|j: int| 0 <= j < i implies !#[trigger] dotdot_at(t, j) by {
        assert(t[j] == dl[j]);
    }
    assert(first_dotdot(t, i));
    assert forall|j: int| first_dotdot(t, j) implies j == i by {
        lemma_first_dotdot_unique(t, i, j);
    }
    assert(t.take(i) =~= dl);
    assert(t.skip(i + 2) =~= rest);
}

proof fn lemma_round_trip_single(l: u32)
    ensures
        parse_text(decimal(l as nat)) == Some(Multiplicity { lower: l, upper: Some(l) }),
{
    lemma_numeral_facts(l);
    let t = decimal(l as nat);
    assert(t != seq!['*']) by {
        assert(t[0] != '*');
    }
    assert(!exists|i: int| first_dotdot(t, i)) by {
        if exists|i: int| first_dotdot(t, i) {
            let i = choose|i: int| first_dotdot(t, i);
            assert(t[i] == '.');
        }
    }
}

proof fn lemma_round_trip_range(l: u32, u: u32)
    requires
        l <= u,
    ensures
        parse_text(decimal(l as nat) + seq!['.', '.'] + decimal(u as nat)) == Some(Multiplicity { lower: l, upper: Some(u) }),
{
    lemma_numeral_facts(l);
    lemma_numeral_facts(u);
    let dl = decimal(l as nat);
    let du = decimal(u as nat);
    let t = dl + seq!['.', '.'] + du;
    assert(t[0] == dl[0]);
    assert(t.last() == du.last());
    lemma_trim_numeral_text(t);
    assert(t != seq!['*']) by {
        assert(t[0] != '*');
    }
    lemma_split_after_numeral(l, du);
    assert(du != seq!['*']) by {
        assert(du[0] != '*');
    }
}

proof fn lemma_round_trip_open(l: u32)
    ensures
        parse_text(decimal(l as nat) + seq!['.', '.', '*']) == Some(Multiplicity { lower: l, upper: None }),
{
    lemma_numeral_facts(l);
    let dl = decimal(l as nat);
    let star = seq!['*'];
    let t = dl + seq!['.', '.', '*'];
    assert(t =~= dl + seq!['.', '.'] + star);
    assert(t[0] == dl[0]);
    assert(t.last() == '*');
    lemma_trim_numeral_text(t);
    lemma_trim_numeral_text(star);
    assert(t != seq!['*']) by {
        assert(t[0] != '*');
    }
    lemma_split_after_numeral(l, star);
}

/// Writing a valid multiplicity and parsing the text back gives it back.
pub proof fn lemma_parse_format_round_trip(m: Multiplicity)
    requires
        valid(m),
    ensures
        parse_text(format_text(m)) == Some(m),
{
    match m.upper {
        Some(u) => {
            if u == m.lower {
                lemma_round_trip_single(m.lower);
            } else {
                lemma_round_trip_range(m.lower, u);
            }
        },
        None => {
            if m.lower == 0 {
                lemma_trim_numeral_text(seq!['*']);
            } else {
                lemma_round_trip_open(m.lower);
            }
        },
    }
}

/// Whatever text parses, parses to a valid multiplicity.
pub proof fn lemma_parsed_is_valid(text: Seq<char>)
    ensures
        parse_text(text) matches Some(m) ==> valid(m),
{
}

} // verus!
