//! The token table builder: compiles one automaton fragment per named
//! token rule and merges them into a single table behind a shared state 0.
//! Each distinct leading branch of a token's entry state is spliced into
//! state 0; where two tokens claim the same leading character, the
//! earlier-declared token keeps it (declaration order is the single
//! disambiguation rule). A malformed rule, a rule that could match the
//! empty sequence, or a table too large for the address space is rejected
//! before any state is built.

use vstd::prelude::*;
use crate::compile::branches_no_accept;
use crate::compile::frag_view_of;
use crate::compile::generate_fsa_for_token;
use crate::compile::lemma_compile_entry_no_accept;
use crate::compile::lemma_compile_len;
use crate::compile::lemma_compile_wf;
use crate::compile::lemma_merge_no_accept;
use crate::compile::lemma_merge_wf;
use crate::compile::merge_branches;
use crate::compile::spec_accept_state;
use crate::compile::spec_fsa_for_token;
use crate::compile::spec_merge;
use crate::fsa::Action;
use crate::fsa::Match;
use crate::fsa::branches_wf;
use crate::fsa::table_wf;
use crate::lexer::Lexer;
use crate::rule::LexerRule;
use crate::rule::lemma_count_pos;
use crate::rule::rule_is_nullable;
use crate::rule::rule_is_valid;
use crate::rule::rule_nullable;
use crate::rule::rule_state_count;
use crate::rule::rule_valid;
use crate::rule::try_state_count;

verus! {

/// Why a token list was rejected at build time.
#[derive(Debug, Clone, Copy, PartialEq, Eq, Structural)]
pub enum BuildError {
    /// The rule of this token is structurally invalid, or could match the
    /// empty character sequence (a zero-width token would stall the
    /// scanner).
    MalformedRule { token: usize },
    /// Adding this token's states would overflow the address space.
    TooLarge { token: usize },
}

/// The malformed-rule error for token `j`.
pub open spec fn err_malformed(j: int) -> BuildError {
    BuildError::MalformedRule { token: j as usize }
}

/// The too-large error for token `j`.
pub open spec fn err_too_large(j: int) -> BuildError {
    BuildError::TooLarge { token: j as usize }
}

/// The rules of an ordered token list.
pub open spec fn spec_rules_of(tokens: Seq<(String, LexerRule)>) -> Seq<LexerRule> {
    tokens.map_values(|p: (String, LexerRule)| p.1)
}

/// The names of an ordered token list, as character sequences.
pub open spec fn spec_names_of(tokens: Seq<(String, LexerRule)>) -> Seq<Seq<char>> {
    tokens.map_values(|p: (String, LexerRule)| p.0@)
}

/// A rule fit to be a token: structurally valid and never matching the
/// empty sequence.
pub open spec fn spec_token_ok(r: LexerRule) -> bool {
    rule_valid(r) && !rule_nullable(r)
}

/// The first error that building the tokens from `j` on reports, with
/// `total` states already allocated, or `None` when all of them fit.
pub open spec fn spec_build_err_from(rules: Seq<LexerRule>, j: int, total: int) -> Option<BuildError>
    decreases rules.len(),
{
    if rules.len() == 0 {
        None
    } else if !spec_token_ok(rules[0]) {
        Some(err_malformed(j))
    } else if total + rule_state_count(rules[0]) + 1 > usize::MAX {
        Some(err_too_large(j))
    } else {
        spec_build_err_from(rules.drop_first(), j + 1, total + rule_state_count(rules[0]) + 1)
    }
}

/// The error the whole build reports, or `None` when it succeeds; state 0
/// is always allocated first.
pub open spec fn spec_build_err(rules: Seq<LexerRule>) -> Option<BuildError> {
    spec_build_err_from(rules, 0, 1)
}

/// The per-token fragments, concatenated in declaration order starting at
/// state `base`, token `ti` first.
pub open spec fn spec_frags(rules: Seq<LexerRule>, ti: int, base: int) -> Seq<Seq<(Match, Action)>>
    decreases rules.len(),
{
    if rules.len() == 0 {
        Seq::empty()
    } else {
        spec_fsa_for_token(ti, rules[0], base) + spec_frags(
            rules.drop_first(),
            ti + 1,
            base + rule_state_count(rules[0]) + 1,
        )
    }
}

/// The shared dispatch state: `acc` joined with each token's entry
/// branches, in declaration order, so the earliest token owns each
/// contested branch.
pub open spec fn spec_state0(rules: Seq<LexerRule>, ti: int, base: int, acc: Seq<(Match, Action)>) -> Seq<
    (Match, Action),
>
    decreases rules.len(),
{
    if rules.len() == 0 {
        acc
    } else {
        spec_state0(
            rules.drop_first(),
            ti + 1,
            base + rule_state_count(rules[0]) + 1,
            spec_merge(acc, spec_fsa_for_token(ti, rules[0], base)[0]),
        )
    }
}

/// The whole table a token list builds: the dispatch state, then every
/// token's fragment.
pub open spec fn spec_build_table(rules: Seq<LexerRule>) -> Seq<Seq<(Match, Action)>> {
    seq![spec_state0(rules, 0, 1, Seq::empty())] + spec_frags(rules, 0, 1)
}

/// A successful build pass implies every remaining token is fit and the
/// states fit the address space.
pub proof fn lemma_err_none_ok(rules: Seq<LexerRule>, j: int, total: int)
    requires
        spec_build_err_from(rules, j, total) is None,
        0 <= total <= usize::MAX,
    ensures
        forall|i: int| 0 <= i < rules.len() ==> spec_token_ok(#[trigger] rules[i]),
        total + spec_frags(rules, j, total).len() <= usize::MAX,
    decreases rules.len(),
{
    if rules.len() != 0 {
        let t2 = total + rule_state_count(rules[0]) + 1;
        lemma_err_none_ok(rules.drop_first(), j + 1, t2);
        assert(forall|i: int| 0 <= i < rules.drop_first().len() ==> rules.drop_first()[i] == rules[
            i + 1
        ]);
        assert forall|i: int| 0 <= i < rules.len() implies spec_token_ok(#[trigger] rules[i]) by {
            if i >= 1 {
                assert(rules.drop_first()[i - 1] == rules[i]);
                assert(spec_token_ok(rules.drop_first()[i - 1]));
            }
        }
        lemma_frags_len(rules, j, total);
        lemma_frags_len(rules.drop_first(), j + 1, t2);
    }
}

/// The length of a fragment list does not depend on where it starts.
pub proof fn lemma_frags_len(rules: Seq<LexerRule>, ti: int, base: int)
    requires
        forall|i: int| 0 <= i < rules.len() ==> spec_token_ok(#[trigger] rules[i]),
    ensures
        spec_frags(rules, ti, base).len() == spec_frags(rules, 0, 0).len(),
        rules.len() != 0 ==> spec_frags(rules, ti, base).len() == rule_state_count(rules[0]) + 1
            + spec_frags(rules.drop_first(), ti + 1, base + rule_state_count(rules[0]) + 1).len(),
    decreases rules.len(),
{
    if rules.len() != 0 {
        let r0 = rules[0];
        lemma_compile_len(r0, base, base + rule_state_count(r0), spec_accept_state(ti));
        lemma_compile_len(r0, 0, rule_state_count(r0) as int, spec_accept_state(0));
        assert(forall|i: int| 0 <= i < rules.drop_first().len() ==> rules.drop_first()[i] == rules[
            i + 1
        ]);
        lemma_frags_len(rules.drop_first(), ti + 1, base + rule_state_count(r0) + 1);
        lemma_frags_len(rules.drop_first(), 1, rule_state_count(r0) as int + 1);
        lemma_frags_len(rules.drop_first(), 0, 0);
    }
}

/// Every state of every fragment is well-formed for the final table.
pub proof fn lemma_frags_wf(rules: Seq<LexerRule>, ti: int, base: int, n: int, nl: int)
    requires
        forall|i: int| 0 <= i < rules.len() ==> spec_token_ok(#[trigger] rules[i]),
        1 <= base,
        base + spec_frags(rules, ti, base).len() <= n,
        n <= usize::MAX as int + 1,
        0 <= ti,
        ti + rules.len() <= nl,
        nl <= usize::MAX as int,
    ensures
        forall|s: int| 0 <= s < spec_frags(rules, ti, base).len() ==> branches_wf(
            #[trigger] spec_frags(rules, ti, base)[s],
            n,
            nl,
            true,
        ),
    decreases rules.len(),
{
    if rules.len() != 0 {
        let r0 = rules[0];
        let c = rule_state_count(r0) as int;
        let exit = base + c;
        lemma_count_pos(r0);
        lemma_frags_len(rules, ti, base);
        lemma_frags_len(rules.drop_first(), ti + 1, base + c + 1);
        assert(forall|i: int| 0 <= i < rules.drop_first().len() ==> rules.drop_first()[i] == rules[
            i + 1
        ]);
        let acc = spec_accept_state(ti);
        assert(branches_wf(acc, n, nl, true)) by {
            crate::compile::lemma_branch_other_accept(ti);
            assert(acc =~= seq![crate::compile::branch_other_accept(ti)]);
        }
        lemma_compile_len(r0, base, exit, acc);
        lemma_compile_wf(r0, base, exit, acc, n, nl);
        let f = spec_fsa_for_token(ti, r0, base);
        let fc = crate::compile::spec_compile(r0, base, exit, acc);
        assert(forall|s: int| 0 <= s < fc.len() ==> f[s] == fc[s]);
        assert(f[f.len() - 1] == acc);
        lemma_frags_wf(rules.drop_first(), ti + 1, base + c + 1, n, nl);
        let rest = spec_frags(rules.drop_first(), ti + 1, base + c + 1);
        let whole = spec_frags(rules, ti, base);
        assert(forall|s: int| 0 <= s < f.len() ==> whole[s] == f[s]);
        assert(forall|s: int| f.len() <= s < whole.len() ==> whole[s] == rest[s - f.len()]);
    }
}

/// The dispatch state is well-formed for the final table and carries no
/// accept, provided the accumulator does not either.
pub proof fn lemma_state0_wf(
    rules: Seq<LexerRule>,
    ti: int,
    base: int,
    acc: Seq<(Match, Action)>,
    n: int,
    nl: int,
)
    requires
        forall|i: int| 0 <= i < rules.len() ==> spec_token_ok(#[trigger] rules[i]),
        1 <= base,
        base + spec_frags(rules, ti, base).len() <= n,
        n <= usize::MAX as int + 1,
        0 <= ti,
        ti + rules.len() <= nl,
        nl <= usize::MAX as int,
        branches_wf(acc, n, nl, true),
        branches_no_accept(acc),
    ensures
        branches_wf(spec_state0(rules, ti, base, acc), n, nl, true),
        branches_no_accept(spec_state0(rules, ti, base, acc)),
    decreases rules.len(),
{
    if rules.len() != 0 {
        let r0 = rules[0];
        let c = rule_state_count(r0) as int;
        let exit = base + c;
        lemma_count_pos(r0);
        lemma_frags_len(rules, ti, base);
        lemma_frags_len(rules.drop_first(), ti + 1, base + c + 1);
        assert(forall|i: int| 0 <= i < rules.drop_first().len() ==> rules.drop_first()[i] == rules[
            i + 1
        ]);
        let accept = spec_accept_state(ti);
        assert(branches_wf(accept, n, nl, true)) by {
            crate::compile::lemma_branch_other_accept(ti);
            assert(accept =~= seq![crate::compile::branch_other_accept(ti)]);
        }
        lemma_compile_len(r0, base, exit, accept);
        lemma_compile_wf(r0, base, exit, accept, n, nl);
        lemma_compile_entry_no_accept(r0, base, exit, accept);
        let f = spec_fsa_for_token(ti, r0, base);
        let fc = crate::compile::spec_compile(r0, base, exit, accept);
        assert(f[0] == fc[0]);
        lemma_merge_wf(acc, f[0], n, nl, true);
        lemma_merge_no_accept(acc, f[0]);
        lemma_state0_wf(rules.drop_first(), ti + 1, base + c + 1, spec_merge(acc, f[0]), n, nl);
    }
}

/// The built table is well-formed for its token list.
pub proof fn lemma_build_wf(rules: Seq<LexerRule>, nl: int)
    requires
        forall|i: int| 0 <= i < rules.len() ==> spec_token_ok(#[trigger] rules[i]),
        1 + spec_frags(rules, 0, 1).len() <= usize::MAX,
        rules.len() <= nl <= usize::MAX as int,
    ensures
        table_wf(spec_build_table(rules), nl),
{
    let tbl = spec_build_table(rules);
    let n = tbl.len() as int;
    let frags = spec_frags(rules, 0, 1);
    let s0 = spec_state0(rules, 0, 1, Seq::empty());
    assert(n == 1 + frags.len());
    lemma_frags_wf(rules, 0, 1, n, nl);
    assert(branches_wf(Seq::<(Match, Action)>::empty(), n, nl, true));
    assert(branches_no_accept(Seq::<(Match, Action)>::empty()));
    lemma_state0_wf(rules, 0, 1, Seq::empty(), n, nl);
    assert(tbl[0] == s0);
    assert(forall|s: int| 1 <= s < n ==> tbl[s] == frags[s - 1]);
    assert forall|i: int| 0 <= i < n implies branches_wf(#[trigger] tbl[i], n, nl, i != 0) by {
        if i == 0 {
            assert(branches_wf(s0, n, nl, true));
            assert(branches_no_accept(s0));
            assert forall|j: int| 0 <= j < s0.len() implies crate::fsa::action_wf(
                #[trigger] s0[j].1,
                n,
                nl,
                false,
            ) by {
                assert(crate::fsa::action_wf(s0[j].1, n, nl, true));
                assert(!(s0[j].1 is Accept));
            }
        }
    }
}

/// Compiles an ordered token list into a `Lexer`, or reports the first
/// offending token. Success is owed exactly when every rule is valid,
/// never matches the empty sequence, and the combined table fits in the
/// address space; the table built is `spec_build_table` of the rules, so
/// equal token lists always build tables that scan identically.
pub fn build_lexer(tokens: &Vec<(String, LexerRule)>) -> (r: Result<Lexer, BuildError>)
    ensures
        match r {
            Ok(l) => {
                &&& spec_build_err(spec_rules_of(tokens@)) is None
                &&& l.table() == spec_build_table(spec_rules_of(tokens@))
                &&& l.names_view() == spec_names_of(tokens@)
                &&& l.wf()
            },
            Err(e) => spec_build_err(spec_rules_of(tokens@)) == Some(e),
        },
{
    let ghost rules = spec_rules_of(tokens@);
    let mut state0: Vec<(Match, Action)> = Vec::new();
    let mut frags: Vec<Vec<(Match, Action)>> = Vec::new();
    let mut total: usize = 1;
    let mut j: usize = 0;
    proof {
        assert(rules.skip(0) =~= rules);
        assert(frag_view_of(frags@) =~= Seq::<Seq<(Match, Action)>>::empty());
    }
    while j < tokens.len()
        invariant
            rules == spec_rules_of(tokens@),
            tokens@.len() == rules.len(),
            0 <= j <= rules.len(),
            total as int == 1 + frags@.len(),
            spec_build_err(rules) == spec_build_err_from(rules.skip(j as int), j as int, total as int),
            spec_frags(rules, 0, 1) == frag_view_of(frags@) + spec_frags(
                rules.skip(j as int),
                j as int,
                total as int,
            ),
            spec_state0(rules, 0, 1, Seq::empty()) == spec_state0(
                rules.skip(j as int),
                j as int,
                total as int,
                state0@,
            ),
            forall|i: int| 0 <= i < j ==> spec_token_ok(#[trigger] rules[i]),
        decreases rules.len() - j,
    {
        let rule = &tokens[j].1;
        proof {
            assert(rules.skip(j as int)[0] == rules[j as int]);
            assert(rules[j as int] == tokens@[j as int].1);
            assert(rules.skip(j as int).drop_first() =~= rules.skip(j as int + 1));
        }
        if !rule_is_valid(rule) || rule_is_nullable(rule) {
            return Err(BuildError::MalformedRule { token: j });
        }
        let count = match try_state_count(rule) {
            Some(c) => c,
            None => {
                return Err(BuildError::TooLarge { token: j });
            },
        };
        let new_total = match total.checked_add(count) {
            Some(t) => match t.checked_add(1) {
                Some(t2) => t2,
                None => {
                    return Err(BuildError::TooLarge { token: j });
                },
            },
            None => {
                return Err(BuildError::TooLarge { token: j });
            },
        };
        let base = total;
        let fsa = generate_fsa_for_token(j, rule, base);
        proof {
            lemma_count_pos(*rule);
        }
        let merged = merge_branches(&state0, &fsa[0]);
        state0 = merged;
        let ghost frags_pre = frags@;
        let mut fsa2 = fsa;
        frags.append(&mut fsa2);
        proof {
            assert(frag_view_of(frags@) =~~= frag_view_of(frags_pre) + spec_fsa_for_token(
                j as int,
                rules[j as int],
                base as int,
            ));
            assert((frag_view_of(frags_pre) + spec_fsa_for_token(j as int, rules[j as int], base as int))
                + spec_frags(rules.skip(j as int + 1), j as int + 1, new_total as int)
                =~= frag_view_of(frags_pre) + (spec_fsa_for_token(j as int, rules[j as int], base as int)
                + spec_frags(rules.skip(j as int + 1), j as int + 1, new_total as int)));
        }
        total = new_total;
        j = j + 1;
    }
    proof {
        assert(rules.skip(rules.len() as int) =~= Seq::<LexerRule>::empty());
        assert(spec_build_err(rules) is None);
        assert(spec_frags(rules, 0, 1) == frag_view_of(frags@));
        assert(spec_state0(rules, 0, 1, Seq::empty()) == state0@);
    }
    let mut states: Vec<Vec<(Match, Action)>> = Vec::new();
    states.push(state0);
    let ghost frags_final = frags@;
    states.append(&mut frags);
    let mut names: Vec<String> = Vec::new();
    let mut i2: usize = 0;
    while i2 < tokens.len()
        invariant
            0 <= i2 <= tokens@.len(),
            names@.len() == i2,
            forall|q: int| 0 <= q < i2 ==> (#[trigger] names@[q])@ == tokens@[q].0@,
        decreases tokens@.len() - i2,
    {
        let s = tokens[i2].0.clone();
        names.push(s);
        i2 = i2 + 1;
    }
    proof {
        assert(frag_view_of(states@) =~~= spec_build_table(rules));
        assert(names@.map_values(|s: String| s@) =~~= spec_names_of(tokens@));
        lemma_err_none_ok(rules, 0, 1);
        lemma_frags_len(rules, 0, 1);
        lemma_build_wf(rules, names@.len() as int);
    }
    Ok(Lexer::create(states, names))
}

} // verus!
