//! The transition-table vocabulary: what a state matches on, what action a
//! matched branch takes, how a state is looked up, and what a well-formed
//! table is.

use vstd::prelude::*;

verus! {

/// The current character's match relative to the current state.
#[derive(Debug, Clone, Copy, PartialEq, Eq, Structural)]
pub enum Match {
    /// The current character equals this specific character.
    Char(char),
    /// Fallback branch, taken when no `Char` branch of the state matches.
    Other,
}

/// The next action the scanner takes, decided by the current state and the
/// branch the current character matched.
#[derive(Debug, Clone, Copy, PartialEq, Eq, Structural)]
pub enum Action {
    /// Consume the current character into the pending buffer and move to
    /// this state.
    Shift(usize),
    /// Emit the pending buffer as a token of the named definition (an index
    /// into the table's token-name list) without consuming the current
    /// character, and reset to state 0.
    Accept(usize),
    /// No valid transition exists for the current character here.
    Fail,
}

/// One state of the table: its branches, looked up `Char` first, then
/// `Other`; a missing `Other` branch means `Fail`.
pub type State = Vec<(Match, Action)>;

/// The first action bound to `Match::Char(c)`, if any.
pub open spec fn find_char_action(brs: Seq<(Match, Action)>, c: char) -> Option<Action>
    decreases brs.len(),
{
    if brs.len() == 0 {
        None
    } else if brs[0].0 == Match::Char(c) {
        Some(brs[0].1)
    } else {
        find_char_action(brs.drop_first(), c)
    }
}

/// The first action bound to `Match::Other`, if any.
pub open spec fn find_other_action(brs: Seq<(Match, Action)>) -> Option<Action>
    decreases brs.len(),
{
    if brs.len() == 0 {
        None
    } else if brs[0].0 == Match::Other {
        Some(brs[0].1)
    } else {
        find_other_action(brs.drop_first())
    }
}

/// Total lookup of a character in a state: the `Char(c)` branch if present,
/// else the `Other` fallback, else `Fail`.
pub open spec fn spec_lookup(brs: Seq<(Match, Action)>, c: char) -> Action {
    match find_char_action(brs, c) {
        Some(a) => a,
        None => match find_other_action(brs) {
            Some(a) => a,
            None => Action::Fail,
        },
    }
}

/// Total lookup at end of input, where only the `Other` fallback applies.
pub open spec fn spec_lookup_other(brs: Seq<(Match, Action)>) -> Action {
    match find_other_action(brs) {
        Some(a) => a,
        None => Action::Fail,
    }
}

/// Whether a branch with this key is present.
pub open spec fn has_key(brs: Seq<(Match, Action)>, m: Match) -> bool {
    exists|i: int| 0 <= i < brs.len() && brs[i].0 == m
}

/// Well-formedness of one action in a table of `n` states with `names_len`
/// token names: shift targets stay inside the table and never re-enter the
/// shared initial state, and accepts name a real token and are banned where
/// `allow_accept` is false (state 0, where the pending buffer is empty).
pub open spec fn action_wf(a: Action, n: int, names_len: int, allow_accept: bool) -> bool {
    match a {
        Action::Shift(t) => 1 <= t < n,
        Action::Accept(k) => allow_accept && k < names_len,
        Action::Fail => true,
    }
}

/// Well-formedness of every action of one state.
pub open spec fn branches_wf(brs: Seq<(Match, Action)>, n: int, names_len: int, allow_accept: bool) -> bool {
    forall|j: int| 0 <= j < brs.len() ==> action_wf(#[trigger] brs[j].1, n, names_len, allow_accept)
}

/// Well-formedness of a whole table: non-empty, every action in range, and
/// no accept reachable in state 0 (which would emit a zero-width token).
pub open spec fn table_wf(tbl: Seq<Seq<(Match, Action)>>, names_len: int) -> bool {
    &&& tbl.len() >= 1
    &&& forall|i: int| 0 <= i < tbl.len() ==> branches_wf(#[trigger] tbl[i], tbl.len() as int, names_len, i != 0)
}

/// A lookup result in a well-formed state is itself a well-formed action.
pub proof fn lemma_find_char_wf(brs: Seq<(Match, Action)>, c: char, n: int, names_len: int, allow_accept: bool)
    requires
        branches_wf(brs, n, names_len, allow_accept),
    ensures
        match find_char_action(brs, c) {
            Some(a) => action_wf(a, n, names_len, allow_accept),
            None => true,
        },
    decreases brs.len(),
{
    if brs.len() != 0 && !(brs[0].0 == Match::Char(c)) {
        assert(branches_wf(brs.drop_first(), n, names_len, allow_accept)) by {
            assert(forall|j: int| 0 <= j < brs.drop_first().len()
                ==> brs.drop_first()[j] == brs[j + 1]);
        }
        lemma_find_char_wf(brs.drop_first(), c, n, names_len, allow_accept);
    }
}

/// As `lemma_find_char_wf`, for the `Other` fallback.
pub proof fn lemma_find_other_wf(brs: Seq<(Match, Action)>, n: int, names_len: int, allow_accept: bool)
    requires
        branches_wf(brs, n, names_len, allow_accept),
    ensures
        match find_other_action(brs) {
            Some(a) => action_wf(a, n, names_len, allow_accept),
            None => true,
        },
    decreases brs.len(),
{
    if brs.len() != 0 && !(brs[0].0 == Match::Other) {
        assert(branches_wf(brs.drop_first(), n, names_len, allow_accept)) by {
            assert(forall|j: int| 0 <= j < brs.drop_first().len()
                ==> brs.drop_first()[j] == brs[j + 1]);
        }
        lemma_find_other_wf(brs.drop_first(), n, names_len, allow_accept);
    }
}

/// As `lemma_find_char_wf`, for the total lookups.
pub proof fn lemma_lookup_wf(brs: Seq<(Match, Action)>, c: char, n: int, names_len: int, allow_accept: bool)
    requires
        branches_wf(brs, n, names_len, allow_accept),
    ensures
        action_wf(spec_lookup(brs, c), n, names_len, allow_accept),
        action_wf(spec_lookup_other(brs), n, names_len, allow_accept),
{
    lemma_find_char_wf(brs, c, n, names_len, allow_accept);
    lemma_find_other_wf(brs, n, names_len, allow_accept);
}

/// Decides `spec_lookup` on a state.
pub fn lookup_action(brs: &Vec<(Match, Action)>, c: char) -> (a: Action)
    ensures
        a == spec_lookup(brs@, c),
{
    let mut i: usize = 0;
    proof {
        assert(brs@.skip(0) =~= brs@);
    }
    while i < brs.len()
        invariant
            0 <= i <= brs@.len(),
            find_char_action(brs@, c) == find_char_action(brs@.skip(i as int), c),
        decreases brs@.len() - i,
    {
        let (m, a) = brs[i];
        match m {
            Match::Char(mc) => {
                if mc == c {
                    proof {
                        assert(brs@.skip(i as int)[0] == brs@[i as int]);
                    }
                    return a;
                }
            },
            Match::Other => {},
        }
        proof {
            assert(brs@.skip(i as int)[0] == brs@[i as int]);
            assert(brs@.skip(i as int).drop_first() =~= brs@.skip(i as int + 1));
        }
        i = i + 1;
    }
    proof {
        assert(brs@.skip(i as int) =~= Seq::<(Match, Action)>::empty());
    }
    lookup_other_action(brs)
}

/// Decides `spec_lookup_other` on a state.
pub fn lookup_other_action(brs: &Vec<(Match, Action)>) -> (a: Action)
    ensures
        a == spec_lookup_other(brs@),
{
    let mut i: usize = 0;
    proof {
        assert(brs@.skip(0) =~= brs@);
    }
    while i < brs.len()
        invariant
            0 <= i <= brs@.len(),
            find_other_action(brs@) == find_other_action(brs@.skip(i as int)),
        decreases brs@.len() - i,
    {
        let (m, a) = brs[i];
        proof {
            assert(brs@.skip(i as int)[0] == brs@[i as int]);
            assert(brs@.skip(i as int).drop_first() =~= brs@.skip(i as int + 1));
        }
        match m {
            Match::Other => {
                return a;
            },
            Match::Char(_) => {},
        }
        i = i + 1;
    }
    proof {
        assert(brs@.skip(i as int) =~= Seq::<(Match, Action)>::empty());
    }
    Action::Fail
}

} // verus!
