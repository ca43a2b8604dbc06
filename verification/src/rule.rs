//! The declarative rule vocabulary that token definitions are written in,
//! together with its structural queries: validity, nullability, and the
//! number of automaton states a rule compiles to.

use vstd::prelude::*;

verus! {

/// A token rule. `Range` bounds are inclusive; `Repeat` holds the minimum
/// occurrence count and either a finite maximum or `None` for an unbounded
/// (Kleene-style) repetition.
#[derive(Debug)]
pub enum LexerRule {
    /// Matches any single character.
    Wildcard,
    /// Matches exactly this character sequence, in order.
    Literal(Vec<char>),
    /// Matches any single character whose code point lies in `[lo, hi]`.
    Range(char, char),
    /// The inner rule repeated consecutively, between `min` and `max` times
    /// (`None` meaning no upper bound).
    Repeat(Box<LexerRule>, u32, Option<u32>),
    /// The first rule immediately followed by the second.
    Concat(Box<LexerRule>, Box<LexerRule>),
    /// Either branch matches; on overlap the left branch wins.
    Alternate(Box<LexerRule>, Box<LexerRule>),
}

/// Whether the rule can match the empty character sequence.
pub open spec fn rule_nullable(r: LexerRule) -> bool
    decreases r,
{
    match r {
        LexerRule::Wildcard => false,
        LexerRule::Literal(s) => s@.len() == 0,
        LexerRule::Range(_, _) => false,
        LexerRule::Repeat(inner, min, _) => min == 0 || rule_nullable(*inner),
        LexerRule::Concat(a, b) => rule_nullable(*a) && rule_nullable(*b),
        LexerRule::Alternate(a, b) => rule_nullable(*a) || rule_nullable(*b),
    }
}

/// Structural validity: ranges are not inverted, repetition counts are not
/// inverted and produce at least one copy, literals are not empty, and no
/// repetition wraps a rule that can match the empty sequence (which would
/// make a zero-width repetition step possible).
pub open spec fn rule_valid(r: LexerRule) -> bool
    decreases r,
{
    match r {
        LexerRule::Wildcard => true,
        LexerRule::Literal(s) => s@.len() > 0,
        LexerRule::Range(lo, hi) => lo as u32 <= hi as u32,
        LexerRule::Repeat(inner, min, max_opt) => {
            &&& rule_valid(*inner)
            &&& !rule_nullable(*inner)
            &&& match max_opt {
                Some(max) => min <= max && max >= 1,
                None => true,
            }
        },
        LexerRule::Concat(a, b) => rule_valid(*a) && rule_valid(*b),
        LexerRule::Alternate(a, b) => rule_valid(*a) && rule_valid(*b),
    }
}

/// The number of states the rule compiles to, at any base offset.
pub open spec fn rule_state_count(r: LexerRule) -> nat
    decreases r,
{
    match r {
        LexerRule::Wildcard => 1,
        LexerRule::Literal(s) => s@.len(),
        LexerRule::Range(_, _) => 1,
        LexerRule::Repeat(inner, min, max_opt) => {
            match max_opt {
                Some(max) => max as nat * rule_state_count(*inner),
                None => (min as nat + 1) * rule_state_count(*inner),
            }
        },
        LexerRule::Concat(a, b) => rule_state_count(*a) + rule_state_count(*b),
        LexerRule::Alternate(a, b) => rule_state_count(*a) + rule_state_count(*b),
    }
}

/// A valid rule compiles to at least one state.
pub proof fn lemma_count_pos(r: LexerRule)
    requires
        rule_valid(r),
    ensures
        rule_state_count(r) >= 1,
    decreases r,
{
    match r {
        LexerRule::Wildcard => {},
        LexerRule::Literal(_) => {},
        LexerRule::Range(_, _) => {},
        LexerRule::Repeat(inner, min, max_opt) => {
            lemma_count_pos(*inner);
            let c = rule_state_count(*inner);
            match max_opt {
                Some(max) => {
                    assert(max as nat * c >= 1) by (nonlinear_arith)
                        requires
                            max >= 1,
                            c >= 1,
                    ;
                },
                None => {
                    assert((min as nat + 1) * c >= 1) by (nonlinear_arith)
                        requires
                            c >= 1,
                    ;
                },
            }
        },
        LexerRule::Concat(a, _) => {
            lemma_count_pos(*a);
        },
        LexerRule::Alternate(a, _) => {
            lemma_count_pos(*a);
        },
    }
}

/// Decides `rule_nullable`.
pub fn rule_is_nullable(r: &LexerRule) -> (b: bool)
    ensures
        b == rule_nullable(*r),
    decreases *r,
{
    match r {
        LexerRule::Wildcard => false,
        LexerRule::Literal(s) => s.len() == 0,
        LexerRule::Range(_, _) => false,
        LexerRule::Repeat(inner, min, _) => *min == 0 || rule_is_nullable(inner),
        LexerRule::Concat(a, b) => rule_is_nullable(a) && rule_is_nullable(b),
        LexerRule::Alternate(a, b) => rule_is_nullable(a) || rule_is_nullable(b),
    }
}

/// Decides `rule_valid`.
pub fn rule_is_valid(r: &LexerRule) -> (b: bool)
    ensures
        b == rule_valid(*r),
    decreases *r,
{
    match r {
        LexerRule::Wildcard => true,
        LexerRule::Literal(s) => s.len() > 0,
        LexerRule::Range(lo, hi) => *lo as u32 <= *hi as u32,
        LexerRule::Repeat(inner, min, max_opt) => {
            let bounds_ok = match max_opt {
                Some(max) => *min <= *max && *max >= 1,
                None => true,
            };
            bounds_ok && rule_is_valid(inner) && !rule_is_nullable(inner)
        },
        LexerRule::Concat(a, b) => rule_is_valid(a) && rule_is_valid(b),
        LexerRule::Alternate(a, b) => rule_is_valid(a) && rule_is_valid(b),
    }
}

/// Computes the state count of a rule, or `None` where it does not fit in
/// `usize`.
pub fn try_state_count(r: &LexerRule) -> (res: Option<usize>)
    ensures
        match res {
            Some(n) => n == rule_state_count(*r),
            None => rule_state_count(*r) > usize::MAX,
        },
    decreases *r,
{
    match r {
        LexerRule::Wildcard => Some(1),
        LexerRule::Literal(s) => Some(s.len()),
        LexerRule::Range(_, _) => Some(1),
        LexerRule::Repeat(inner, min, max_opt) => {
            let reps: u64 = match max_opt {
                Some(max) => *max as u64,
                None => *min as u64 + 1,
            };
            if reps == 0 {
                proof {
                    let c = rule_state_count(**inner);
                    assert(reps as nat * c == 0) by (nonlinear_arith)
                        requires
                            reps == 0,
                    ;
                }
                Some(0)
            } else {
                match try_state_count(inner) {
                    Some(c) => {
                        proof {
                            let ci = rule_state_count(**inner);
                            assert(c as nat * reps as nat == reps as nat * ci) by (nonlinear_arith)
                                requires
                                    c == ci,
                            ;
                        }
                        match (c as u64).checked_mul(reps) {
                            Some(p) => {
                                if p <= usize::MAX as u64 {
                                    Some(p as usize)
                                } else {
                                    None
                                }
                            },
                            None => None,
                        }
                    },
                    None => {
                        proof {
                            let c = rule_state_count(**inner);
                            assert(reps as nat * c >= c) by (nonlinear_arith)
                                requires
                                    reps >= 1,
                                    c >= 0,
                            ;
                        }
                        None
                    },
                }
            }
        },
        LexerRule::Concat(a, b) => {
            match (try_state_count(a), try_state_count(b)) {
                (Some(ca), Some(cb)) => ca.checked_add(cb),
                _ => None,
            }
        },
        LexerRule::Alternate(a, b) => {
            match (try_state_count(a), try_state_count(b)) {
                (Some(ca), Some(cb)) => ca.checked_add(cb),
                _ => None,
            }
        },
    }
}

/// The number of states the rule compiles to; the compiler produces exactly
/// this many states at every base offset.
pub fn state_count(r: &LexerRule) -> (n: usize)
    requires
        rule_state_count(*r) <= usize::MAX,
    ensures
        n == rule_state_count(*r),
{
    match try_state_count(r) {
        Some(n) => n,
        None => 0,
    }
}

} // verus!
