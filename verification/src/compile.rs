//! The rule compiler: recursively lowers a rule into a relocatable fragment
//! of states. A fragment built at `base` occupies absolute indices
//! `base .. base + state_count`; its entry state sits at `base`. Consuming
//! transitions that complete the rule shift to the absolute index `exit`,
//! and `xe` is the branch list of the state at `exit` (the continuation's
//! dispatch), which is spliced into every boundary state where the rule may
//! complete without consuming the lookahead character: alternation entries,
//! optional repetition boundaries, and the tail state of an unbounded
//! repetition.

use vstd::prelude::*;
use crate::fsa::Action;
use crate::fsa::Match;
use crate::fsa::has_key;
use crate::rule::LexerRule;
use crate::rule::rule_state_count;
use crate::rule::rule_nullable;
use crate::rule::rule_valid;
use crate::rule::lemma_count_pos;
use crate::rule::state_count;

verus! {

/// The characters from `lo` to `hi` inclusive, in ascending code-point
/// order, as `char_iter::new(lo, hi)` yields them.
pub uninterp spec fn char_range_seq(lo: char, hi: char) -> Seq<char>;

/// Relies on `char_iter::new`: it iterates the Unicode scalar values from
/// `lo` to `hi` inclusive, in ascending order (the surrogate code points,
/// which are not scalar values, are skipped, so every scalar value in the
/// bounds appears). It panics when `lo > hi`. The sequence cannot be
/// constructed in specification code, character by character, so it is
/// named; ascending order and membership pin it down.
#[verifier::external_body]
fn chars_in_range(lo: char, hi: char) -> (r: Vec<char>)
    requires
        lo as u32 <= hi as u32,
    ensures
        r@ == char_range_seq(lo, hi),
        forall|i: int, j: int| 0 <= i < j < r@.len() ==> (r@[i] as u32) < (r@[j] as u32),
        forall|c: char| r@.contains(c) <==> lo as u32 <= c as u32 <= hi as u32,
{
    char_iter::new(lo, hi).collect()
}

/// The view of an executable fragment: each state as its branch sequence.
pub open spec fn frag_view(v: Vec<Vec<(Match, Action)>>) -> Seq<Seq<(Match, Action)>> {
    frag_view_of(v@)
}

/// As `frag_view`, over the outer sequence.
pub open spec fn frag_view_of(v: Seq<Vec<(Match, Action)>>) -> Seq<Seq<(Match, Action)>> {
    v.map_values(|s: Vec<(Match, Action)>| s@)
}

/// Branch lists joined left to right; a key already present on the left
/// keeps its action (earliest-declared wins).
pub open spec fn spec_merge(a: Seq<(Match, Action)>, b: Seq<(Match, Action)>) -> Seq<(Match, Action)>
    decreases b.len(),
{
    if b.len() == 0 {
        a
    } else {
        let a2 = if has_key(a, b[0].0) {
            a
        } else {
            a.push(b[0])
        };
        spec_merge(a2, b.drop_first())
    }
}

/// State `i` of a compiled literal: it consumes character `i` and shifts to
/// the next state, the last one to `exit`.
pub open spec fn spec_literal_state(s: Seq<char>, base: int, exit: int, i: int) -> Seq<(Match, Action)> {
    seq![branch_char_shift(s[i], if i == s.len() - 1 { exit } else { base + i + 1 })]
}

/// The states of a compiled literal, one per character.
pub open spec fn spec_literal_states(s: Seq<char>, base: int, exit: int) -> Seq<Seq<(Match, Action)>> {
    Seq::new(s.len(), |i: int| spec_literal_state(s, base, exit, i))
}

/// The branch that shifts to `t` when the scanner sees character `c`.
pub open spec fn branch_char_shift(c: char, t: int) -> (Match, Action) {
    (Match::Char(c), Action::Shift(t as usize))
}

/// The fallback branch that shifts to `t` on any character.
pub open spec fn branch_other_shift(t: int) -> (Match, Action) {
    (Match::Other, Action::Shift(t as usize))
}

/// The fallback branch that accepts token `k`.
pub open spec fn branch_other_accept(k: int) -> (Match, Action) {
    (Match::Other, Action::Accept(k as usize))
}

/// The fields of `branch_char_shift`.
pub proof fn lemma_branch_char_shift(c: char, t: int)
    ensures
        branch_char_shift(c, t).0 == Match::Char(c),
        branch_char_shift(c, t).1 == Action::Shift(t as usize),
        !(branch_char_shift(c, t).1 is Accept),
{
}

/// The fields of `branch_other_shift`.
pub proof fn lemma_branch_other_shift(t: int)
    ensures
        branch_other_shift(t).0 == Match::Other,
        branch_other_shift(t).1 == Action::Shift(t as usize),
        !(branch_other_shift(t).1 is Accept),
{
}

/// The fields of `branch_other_accept`.
pub proof fn lemma_branch_other_accept(k: int)
    ensures
        branch_other_accept(k).0 == Match::Other,
        branch_other_accept(k).1 == Action::Accept(k as usize),
        branch_other_accept(k).1 is Accept,
{
}

/// The branch a range state carries for one of its characters.
pub open spec fn spec_range_branch(c: char, exit: int) -> (Match, Action) {
    branch_char_shift(c, exit)
}

/// The single state of a compiled range: every character of the range
/// shifts to `exit`; anything else falls through to `Fail`.
pub open spec fn spec_range_states(lo: char, hi: char, exit: int) -> Seq<Seq<(Match, Action)>> {
    seq![char_range_seq(lo, hi).map_values(|c: char| spec_range_branch(c, exit))]
}

/// The fragment a rule compiles to. See the module comment for the meaning
/// of `base`, `exit` and `xe`.
pub open spec fn spec_compile(r: LexerRule, base: int, exit: int, xe: Seq<(Match, Action)>) -> Seq<
    Seq<(Match, Action)>,
>
    decreases r, 0int,
{
    match r {
        LexerRule::Wildcard => seq![seq![branch_other_shift(exit)]],
        LexerRule::Literal(s) => spec_literal_states(s@, base, exit),
        LexerRule::Range(lo, hi) => spec_range_states(lo, hi, exit),
        LexerRule::Concat(a, b) => {
            let ca = rule_state_count(*a) as int;
            let fb = spec_compile(*b, base + ca, exit, xe);
            let fa = spec_compile(*a, base, base + ca, fb[0]);
            fa + fb
        },
        LexerRule::Alternate(a, b) => {
            let ca = rule_state_count(*a) as int;
            let fa = spec_compile(*a, base, exit, xe);
            let fb = spec_compile(*b, base + ca, exit, xe);
            fa.update(0, spec_merge(fa[0], fb[0])) + fb
        },
        LexerRule::Repeat(inner, min, max_opt) => match max_opt {
            Some(max) => {
                let c = rule_state_count(*inner) as int;
                if max == min {
                    spec_chain(*inner, min as int, base, exit, xe)
                } else {
                    let ob = base + min * c;
                    let opt = spec_opt_chain(*inner, max - min, ob, exit, xe);
                    if min == 0 {
                        opt
                    } else {
                        spec_chain(*inner, min as int, base, ob, opt[0]) + opt
                    }
                }
            },
            None => {
                let c = rule_state_count(*inner) as int;
                let lb = base + min * c;
                let e0 = spec_compile(*inner, lb, lb, Seq::<(Match, Action)>::empty());
                let lf = spec_compile(*inner, lb, lb, spec_merge(e0[0], xe));
                let lf2 = lf.update(0, spec_merge(lf[0], xe));
                if min == 0 {
                    lf2
                } else {
                    spec_chain(*inner, min as int, base, lb, lf2[0]) + lf2
                }
            },
        },
    }
}

/// `k` mandatory copies of `inner`, laid out consecutively from `base`,
/// each shifting into the next, the last one into `exit`.
pub open spec fn spec_chain(inner: LexerRule, k: int, base: int, exit: int, xe: Seq<(Match, Action)>) -> Seq<
    Seq<(Match, Action)>,
>
    decreases inner, k + 1,
{
    if k <= 0 {
        Seq::empty()
    } else if k == 1 {
        spec_compile(inner, base, exit, xe)
    } else {
        let c = rule_state_count(inner) as int;
        let rest = spec_chain(inner, k - 1, base + c, exit, xe);
        spec_compile(inner, base, base + c, rest[0]) + rest
    }
}

/// `m` optional copies of `inner`: as `spec_chain`, but each copy's entry
/// state also carries the continuation's branches `xe`, so the repetition
/// may end at every optional boundary; the copy's own branches win ties
/// (the repetition is greedy).
pub open spec fn spec_opt_chain(inner: LexerRule, m: int, base: int, exit: int, xe: Seq<(Match, Action)>) -> Seq<
    Seq<(Match, Action)>,
>
    decreases inner, m + 1,
{
    if m <= 0 {
        Seq::empty()
    } else if m == 1 {
        let f = spec_compile(inner, base, exit, xe);
        f.update(0, spec_merge(f[0], xe))
    } else {
        let c = rule_state_count(inner) as int;
        let rest = spec_opt_chain(inner, m - 1, base + c, exit, xe);
        let f1 = spec_compile(inner, base, base + c, rest[0]);
        f1.update(0, spec_merge(f1[0], xe)) + rest
    }
}

/// State-count fidelity: compiling produces exactly `rule_state_count(r)`
/// states, at every base offset and under every continuation.
pub proof fn lemma_compile_len(r: LexerRule, base: int, exit: int, xe: Seq<(Match, Action)>)
    requires
        rule_valid(r),
    ensures
        spec_compile(r, base, exit, xe).len() == rule_state_count(r),
    decreases r, 0int,
{
    match r {
        LexerRule::Wildcard => {},
        LexerRule::Literal(_) => {},
        LexerRule::Range(_, _) => {},
        LexerRule::Concat(a, b) => {
            let ca = rule_state_count(*a) as int;
            let fb = spec_compile(*b, base + ca, exit, xe);
            lemma_compile_len(*b, base + ca, exit, xe);
            lemma_compile_len(*a, base, base + ca, fb[0]);
        },
        LexerRule::Alternate(a, b) => {
            let ca = rule_state_count(*a) as int;
            lemma_count_pos(*a);
            lemma_compile_len(*a, base, exit, xe);
            lemma_compile_len(*b, base + ca, exit, xe);
        },
        LexerRule::Repeat(inner, min, max_opt) => {
            let c = rule_state_count(*inner) as int;
            match max_opt {
                Some(max) => {
                    if max == min {
                        lemma_chain_len(*inner, min as int, base, exit, xe);
                        assert(min as int * c == max as nat * rule_state_count(*inner))
                            by (nonlinear_arith)
                            requires
                                min == max,
                                c == rule_state_count(*inner),
                        ;
                    } else {
                        let ob = base + min * c;
                        let opt = spec_opt_chain(*inner, max - min, ob, exit, xe);
                        lemma_opt_chain_len(*inner, max - min, ob, exit, xe);
                        if min == 0 {
                            assert((max - min) * c == max as nat * rule_state_count(*inner))
                                by (nonlinear_arith)
                                requires
                                    min == 0,
                                    c == rule_state_count(*inner),
                            ;
                        } else {
                            lemma_chain_len(*inner, min as int, base, ob, opt[0]);
                            assert(min as int * c + (max - min) * c == max as nat
                                * rule_state_count(*inner)) by (nonlinear_arith)
                                requires
                                    min <= max,
                                    c == rule_state_count(*inner),
                            ;
                        }
                    }
                },
                None => {
                    let lb = base + min * c;
                    let e0 = spec_compile(*inner, lb, lb, Seq::<(Match, Action)>::empty());
                    let lf = spec_compile(*inner, lb, lb, spec_merge(e0[0], xe));
                    lemma_count_pos(*inner);
                    lemma_compile_len(*inner, lb, lb, spec_merge(e0[0], xe));
                    let lf2 = lf.update(0, spec_merge(lf[0], xe));
                    if min == 0 {
                        assert(c == (min as nat + 1) * rule_state_count(*inner))
                            by (nonlinear_arith)
                            requires
                                min == 0,
                                c == rule_state_count(*inner),
                        ;
                    } else {
                        lemma_chain_len(*inner, min as int, base, lb, lf2[0]);
                        assert(min as int * c + c == (min as nat + 1) * rule_state_count(*inner))
                            by (nonlinear_arith)
                            requires
                                c == rule_state_count(*inner),
                        ;
                    }
                },
            }
        },
    }
}

/// Length of a mandatory chain: `k` copies of the inner rule's count.
pub proof fn lemma_chain_len(inner: LexerRule, k: int, base: int, exit: int, xe: Seq<(Match, Action)>)
    requires
        rule_valid(inner),
        k >= 0,
    ensures
        spec_chain(inner, k, base, exit, xe).len() == k * rule_state_count(inner),
    decreases inner, k + 1,
{
    let c = rule_state_count(inner) as int;
    if k <= 0 {
        assert(0 * c == 0) by (nonlinear_arith);
    } else if k == 1 {
        lemma_compile_len(inner, base, exit, xe);
        assert(1 * c == c) by (nonlinear_arith);
    } else {
        let rest = spec_chain(inner, k - 1, base + c, exit, xe);
        lemma_chain_len(inner, k - 1, base + c, exit, xe);
        lemma_compile_len(inner, base, base + c, rest[0]);
        assert(c + (k - 1) * c == k * c) by (nonlinear_arith);
    }
}

/// Length of an optional chain: `m` copies of the inner rule's count.
pub proof fn lemma_opt_chain_len(inner: LexerRule, m: int, base: int, exit: int, xe: Seq<(Match, Action)>)
    requires
        rule_valid(inner),
        m >= 0,
    ensures
        spec_opt_chain(inner, m, base, exit, xe).len() == m * rule_state_count(inner),
    decreases inner, m + 1,
{
    let c = rule_state_count(inner) as int;
    if m <= 0 {
        assert(0 * c == 0) by (nonlinear_arith);
    } else if m == 1 {
        lemma_count_pos(inner);
        lemma_compile_len(inner, base, exit, xe);
        assert(1 * c == c) by (nonlinear_arith);
    } else {
        let rest = spec_opt_chain(inner, m - 1, base + c, exit, xe);
        lemma_count_pos(inner);
        lemma_opt_chain_len(inner, m - 1, base + c, exit, xe);
        lemma_compile_len(inner, base, base + c, rest[0]);
        assert(c + (m - 1) * c == m * c) by (nonlinear_arith);
    }
}


/// Whether some branch of `brs` carries this key.
fn branch_key_present(brs: &Vec<(Match, Action)>, m: Match) -> (b: bool)
    ensures
        b == has_key(brs@, m),
{
    let mut i: usize = 0;
    while i < brs.len()
        invariant
            0 <= i <= brs@.len(),
            forall|j: int| 0 <= j < i ==> brs@[j].0 != m,
        decreases brs@.len() - i,
    {
        let (bm, _) = brs[i];
        if bm == m {
            return true;
        }
        i = i + 1;
    }
    false
}

/// Joins two branch lists as `spec_merge` does: branches of `b` whose key
/// `a` (or an earlier branch of `b`) already carries are dropped.
pub(crate) fn merge_branches(a: &Vec<(Match, Action)>, b: &Vec<(Match, Action)>) -> (out: Vec<(Match, Action)>)
    ensures
        out@ == spec_merge(a@, b@),
{
    let mut out: Vec<(Match, Action)> = Vec::new();
    let mut i: usize = 0;
    while i < a.len()
        invariant
            0 <= i <= a@.len(),
            out@ == a@.take(i as int),
        decreases a@.len() - i,
    {
        let br = a[i];
        out.push(br);
        proof {
            assert(a@.take(i as int).push(a@[i as int]) =~= a@.take(i as int + 1));
        }
        i = i + 1;
    }
    proof {
        assert(a@.take(a@.len() as int) =~= a@);
        assert(b@.skip(0) =~= b@);
    }
    let mut j: usize = 0;
    while j < b.len()
        invariant
            0 <= j <= b@.len(),
            spec_merge(a@, b@) == spec_merge(out@, b@.skip(j as int)),
        decreases b@.len() - j,
    {
        let (m, act) = b[j];
        proof {
            assert(b@.skip(j as int)[0] == b@[j as int]);
            assert(b@.skip(j as int).drop_first() =~= b@.skip(j as int + 1));
        }
        if !branch_key_present(&out, m) {
            out.push((m, act));
        }
        j = j + 1;
    }
    proof {
        assert(b@.skip(b@.len() as int) =~= Seq::<(Match, Action)>::empty());
    }
    out
}


/// Builds the branch that shifts to `t` on character `c`.
fn char_shift_branch(c: char, t: usize) -> (br: (Match, Action))
    ensures
        br == (Match::Char(c), Action::Shift(t)),
{
    (Match::Char(c), Action::Shift(t))
}

/// Compiles a rule into the fragment `spec_compile` describes, occupying
/// indices `base .. base + rule_state_count(r)`.
pub fn compile_rule(r: &LexerRule, base: usize, exit: usize, xe: &Vec<(Match, Action)>) -> (out: Vec<
    Vec<(Match, Action)>,
>)
    requires
        rule_valid(*r),
        base as int + rule_state_count(*r) <= usize::MAX,
    ensures
        frag_view(out) == spec_compile(*r, base as int, exit as int, xe@),
        out@.len() == rule_state_count(*r),
    decreases *r, 0int,
{
    match r {
        LexerRule::Wildcard => {
            let mut st: Vec<(Match, Action)> = Vec::new();
            st.push((Match::Other, Action::Shift(exit)));
            let mut out: Vec<Vec<(Match, Action)>> = Vec::new();
            out.push(st);
            proof {
                lemma_branch_other_shift(exit as int);
                assert(frag_view(out) =~~= spec_compile(*r, base as int, exit as int, xe@));
            }
            out
        },
        LexerRule::Literal(s) => {
            let n = s.len();
            let mut out: Vec<Vec<(Match, Action)>> = Vec::new();
            let mut i: usize = 0;
            while i < n
                invariant
                    rule_valid(*r),
                    *r == LexerRule::Literal(*s),
                    n == s@.len(),
                    base as int + n <= usize::MAX,
                    0 <= i <= n,
                    out@.len() == i,
                    forall|j: int| 0 <= j < i ==> (#[trigger] out@[j])@ == spec_literal_state(
                        s@,
                        base as int,
                        exit as int,
                        j,
                    ),
                decreases n - i,
            {
                let target = if i == n - 1 {
                    exit
                } else {
                    base + i + 1
                };
                let mut st: Vec<(Match, Action)> = Vec::new();
                st.push((Match::Char(s[i]), Action::Shift(target)));
                out.push(st);
                proof {
                    lemma_branch_char_shift(
                        s@[i as int],
                        if i == s@.len() - 1 { exit as int } else { base + i + 1 },
                    );
                    assert(out@[i as int]@ =~= spec_literal_state(s@, base as int, exit as int, i as int));
                }
                i = i + 1;
            }
            proof {
                assert(frag_view(out) =~~= spec_literal_states(s@, base as int, exit as int));
            }
            out
        },
        LexerRule::Range(lo, hi) => {
            let cs = chars_in_range(*lo, *hi);
            let mut st: Vec<(Match, Action)> = Vec::new();
            let mut i: usize = 0;
            while i < cs.len()
                invariant
                    0 <= i <= cs@.len(),
                    st@.len() == i,
                    forall|j: int| 0 <= j < i ==> #[trigger] st@[j] == spec_range_branch(
                        cs@[j],
                        exit as int,
                    ),
                decreases cs@.len() - i,
            {
                let br = char_shift_branch(cs[i], exit);
                st.push(br);
                proof {
                    lemma_branch_char_shift(cs@[i as int], exit as int);
                }
                i = i + 1;
            }
            let mut out: Vec<Vec<(Match, Action)>> = Vec::new();
            out.push(st);
            proof {
                assert(st@ =~= char_range_seq(*lo, *hi).map_values(
                    |c: char| spec_range_branch(c, exit as int),
                ));
                assert(frag_view(out) =~~= spec_range_states(*lo, *hi, exit as int));
            }
            out
        },
        LexerRule::Concat(a, b) => {
            proof {
                lemma_count_pos(**b);
            }
            let ca = state_count(a);
            let eb = base + ca;
            let mut fb = compile_rule(b, eb, exit, xe);
            let fa = compile_rule(a, base, eb, &fb[0]);
            let ghost fa0 = fa@;
            let ghost fb0 = fb@;
            let mut out = fa;
            out.append(&mut fb);
            proof {
                assert(out@ == fa0 + fb0);
                let sa = spec_compile(**a, base as int, eb as int, frag_view_of(fb0)[0]);
                let sb = spec_compile(**b, eb as int, exit as int, xe@);
                assert(frag_view_of(fb0)[0] == fb0[0]@);
                assert(frag_view_of(out@) =~~= sa + sb);
            }
            out
        },
        LexerRule::Alternate(a, b) => {
            proof {
                lemma_count_pos(**a);
                lemma_count_pos(**b);
            }
            let ca = state_count(a);
            let mut fa = compile_rule(a, base, exit, xe);
            let mut fb = compile_rule(b, base + ca, exit, xe);
            let merged = merge_branches(&fa[0], &fb[0]);
            let ghost fa_pre = fa@;
            fa[0] = merged;
            let ghost fa0 = fa@;
            let ghost fb0 = fb@;
            let mut out = fa;
            out.append(&mut fb);
            proof {
                assert(out@ == fa0 + fb0);
                let sa = spec_compile(**a, base as int, exit as int, xe@);
                let sb = spec_compile(**b, base as int + ca, exit as int, xe@);
                assert(fa_pre[0]@ == sa[0]);
                assert(fb0[0]@ == sb[0]);
                assert(frag_view_of(out@) =~~= sa.update(0, spec_merge(sa[0], sb[0])) + sb);
            }
            out
        },
        LexerRule::Repeat(inner, min, max_opt) => {
            proof {
                lemma_count_pos(**inner);
            }
            let ghost cg = rule_state_count(**inner) as int;
            match max_opt {
                Some(max) => {
                    proof {
                        assert(rule_state_count(*r) == *max as nat * rule_state_count(**inner));
                        assert(*min as int * cg <= *max as int * cg && cg <= *max as int * cg
                            && 1 * cg == cg) by (nonlinear_arith)
                            requires
                                *min <= *max,
                                1 <= *max,
                                cg >= 1,
                        ;
                    }
                    if *max == *min {
                        let out = chain_copies(inner, *min, base, exit, xe);
                        proof {
                            assert(frag_view(out) == spec_compile(*r, base as int, exit as int, xe@));
                        }
                        out
                    } else {
                        let c = state_count(inner);
                        let m = *max - *min;
                        proof {
                            assert(*min as int * cg + m as int * cg == *max as int * cg)
                                by (nonlinear_arith)
                                requires
                                    m == *max - *min,
                                    *min <= *max,
                            ;
                        }
                        let off = (*min as usize) * c;
                        let ob = base + off;
                        let mut opt = opt_copies(inner, m, ob, exit, xe);
                        if *min == 0 {
                            proof {
                                assert(frag_view(opt) == spec_compile(*r, base as int, exit as int, xe@));
                            }
                            opt
                        } else {
                            proof {
                                assert(m as int * cg >= 1 * cg) by (nonlinear_arith)
                                    requires
                                        m >= 1,
                                        cg >= 1,
                                ;
                            }
                            let mut mand = chain_copies(inner, *min, base, ob, &opt[0]);
                            let ghost mand0 = mand@;
                            let ghost opt0 = opt@;
                            mand.append(&mut opt);
                            proof {
                                let sm = spec_chain(**inner, *min as int, base as int, ob as int, frag_view_of(opt0)[0]);
                                let so = spec_opt_chain(**inner, m as int, ob as int, exit as int, xe@);
                                assert(frag_view_of(opt0)[0] == opt0[0]@);
                                assert(frag_view_of(mand@) =~~= sm + so);
                                assert(frag_view(mand) == spec_compile(*r, base as int, exit as int, xe@));
                            }
                            mand
                        }
                    }
                },
                None => {
                    proof {
                        assert(rule_state_count(*r) == (*min as nat + 1) * rule_state_count(**inner));
                        assert(*min as int * cg + cg == (*min as int + 1) * cg && cg <= (*min as int
                            + 1) * cg && *min as int * cg >= 0) by (nonlinear_arith)
                            requires
                                cg >= 1,
                                *min >= 0,
                        ;
                    }
                    let c = state_count(inner);
                    let off = (*min as usize) * c;
                    let lb = base + off;
                    let empty_xe: Vec<(Match, Action)> = Vec::new();
                    let e0 = compile_rule(inner, lb, lb, &empty_xe);
                    let merged0 = merge_branches(&e0[0], xe);
                    let mut lf = compile_rule(inner, lb, lb, &merged0);
                    let ghost lf_pre = lf@;
                    let merged1 = merge_branches(&lf[0], xe);
                    lf[0] = merged1;
                    proof {
                        let se = spec_compile(**inner, lb as int, lb as int, Seq::<(Match, Action)>::empty());
                        let sl = spec_compile(**inner, lb as int, lb as int, spec_merge(se[0], xe@));
                        assert(empty_xe@ =~= Seq::<(Match, Action)>::empty());
                        assert(e0@[0]@ == se[0]);
                        assert(lf_pre[0]@ == sl[0]);
                        assert(frag_view_of(lf@) =~~= sl.update(0, spec_merge(sl[0], xe@)));
                    }
                    if *min == 0 {
                        proof {
                            assert(frag_view(lf) == spec_compile(*r, base as int, exit as int, xe@));
                        }
                        lf
                    } else {
                        let mut mand = chain_copies(inner, *min, base, lb, &lf[0]);
                        let ghost mand0 = mand@;
                        let ghost lf0 = lf@;
                        mand.append(&mut lf);
                        proof {
                            let se = spec_compile(**inner, lb as int, lb as int, Seq::<(Match, Action)>::empty());
                            let sl = spec_compile(**inner, lb as int, lb as int, spec_merge(se[0], xe@));
                            let sl2 = sl.update(0, spec_merge(sl[0], xe@));
                            let sm = spec_chain(**inner, *min as int, base as int, lb as int, frag_view_of(lf0)[0]);
                            assert(frag_view_of(lf0)[0] == lf0[0]@);
                            assert(frag_view_of(mand@) =~~= sm + sl2);
                            assert(frag_view(mand) == spec_compile(*r, base as int, exit as int, xe@));
                        }
                        mand
                    }
                },
            }
        },
    }
}

/// `k` consecutive mandatory copies of `inner`, as `spec_chain` lays them
/// out.
fn chain_copies(inner: &LexerRule, k: u32, base: usize, exit: usize, xe: &Vec<(Match, Action)>) -> (out: Vec<
    Vec<(Match, Action)>,
>)
    requires
        rule_valid(*inner),
        k >= 1,
        base as int + k as int * rule_state_count(*inner) <= usize::MAX,
    ensures
        frag_view(out) == spec_chain(*inner, k as int, base as int, exit as int, xe@),
        out@.len() == k as int * rule_state_count(*inner),
    decreases *inner, k as int + 1,
{
    proof {
        lemma_count_pos(*inner);
    }
    let ghost cg = rule_state_count(*inner) as int;
    if k == 1 {
        proof {
            assert(1 * cg == cg) by (nonlinear_arith);
        }
        let out = compile_rule(inner, base, exit, xe);
        out
    } else {
        proof {
            assert(cg + (k - 1) * cg == k as int * cg && cg <= k as int * cg && (k - 1) * cg >= 1
                * cg) by (nonlinear_arith)
                requires
                    k >= 2,
                    cg >= 1,
            ;
        }
        let c = state_count(inner);
        let mut rest = chain_copies(inner, k - 1, base + c, exit, xe);
        let mut f1 = compile_rule(inner, base, base + c, &rest[0]);
        let ghost f10 = f1@;
        let ghost rest0 = rest@;
        f1.append(&mut rest);
        proof {
            let sr = spec_chain(*inner, k as int - 1, base as int + cg, exit as int, xe@);
            let s1 = spec_compile(*inner, base as int, base as int + cg, frag_view_of(rest0)[0]);
            assert(frag_view_of(rest0)[0] == rest0[0]@);
            assert(frag_view_of(f1@) =~~= s1 + sr);
        }
        f1
    }
}

/// `m` consecutive optional copies of `inner`, as `spec_opt_chain` lays
/// them out: each copy's entry also carries the continuation `xe`.
fn opt_copies(inner: &LexerRule, m: u32, base: usize, exit: usize, xe: &Vec<(Match, Action)>) -> (out: Vec<
    Vec<(Match, Action)>,
>)
    requires
        rule_valid(*inner),
        m >= 1,
        base as int + m as int * rule_state_count(*inner) <= usize::MAX,
    ensures
        frag_view(out) == spec_opt_chain(*inner, m as int, base as int, exit as int, xe@),
        out@.len() == m as int * rule_state_count(*inner),
    decreases *inner, m as int + 1,
{
    proof {
        lemma_count_pos(*inner);
    }
    let ghost cg = rule_state_count(*inner) as int;
    if m == 1 {
        proof {
            assert(1 * cg == cg) by (nonlinear_arith);
        }
        let mut f = compile_rule(inner, base, exit, xe);
        let ghost f_pre = f@;
        let merged = merge_branches(&f[0], xe);
        f[0] = merged;
        proof {
            let sf = spec_compile(*inner, base as int, exit as int, xe@);
            assert(f_pre[0]@ == sf[0]);
            assert(frag_view_of(f@) =~~= sf.update(0, spec_merge(sf[0], xe@)));
        }
        f
    } else {
        proof {
            assert(cg + (m - 1) * cg == m as int * cg && cg <= m as int * cg && (m - 1) * cg >= 1
                * cg) by (nonlinear_arith)
                requires
                    m >= 2,
                    cg >= 1,
            ;
        }
        let c = state_count(inner);
        let mut rest = opt_copies(inner, m - 1, base + c, exit, xe);
        let mut f1 = compile_rule(inner, base, base + c, &rest[0]);
        let ghost f1_pre = f1@;
        let merged = merge_branches(&f1[0], xe);
        f1[0] = merged;
        let ghost f10 = f1@;
        let ghost rest0 = rest@;
        f1.append(&mut rest);
        proof {
            let sr = spec_opt_chain(*inner, m as int - 1, base as int + cg, exit as int, xe@);
            let s1 = spec_compile(*inner, base as int, base as int + cg, frag_view_of(rest0)[0]);
            let s12 = s1.update(0, spec_merge(s1[0], xe@));
            assert(frag_view_of(rest0)[0] == rest0[0]@);
            assert(f1_pre[0]@ == s1[0]);
            assert(frag_view_of(f1@) =~~= s12 + sr);
        }
        f1
    }
}




/// No branch of `brs` carries an `Accept` action.
pub open spec fn branches_no_accept(brs: Seq<(Match, Action)>) -> bool {
    forall|j: int| 0 <= j < brs.len() ==> !((#[trigger] brs[j]).1 is Accept)
}

/// Merging preserves per-branch well-formedness.
pub proof fn lemma_merge_wf(a: Seq<(Match, Action)>, b: Seq<(Match, Action)>, n: int, nl: int, aa: bool)
    requires
        crate::fsa::branches_wf(a, n, nl, aa),
        crate::fsa::branches_wf(b, n, nl, aa),
    ensures
        crate::fsa::branches_wf(spec_merge(a, b), n, nl, aa),
    decreases b.len(),
{
    if b.len() != 0 {
        let a2 = if has_key(a, b[0].0) {
            a
        } else {
            a.push(b[0])
        };
        assert(crate::fsa::branches_wf(a2, n, nl, aa)) by {
            assert(forall|j: int| 0 <= j < a.len() ==> a.push(b[0])[j] == a[j]);
        }
        assert(crate::fsa::branches_wf(b.drop_first(), n, nl, aa)) by {
            assert(forall|j: int| 0 <= j < b.drop_first().len() ==> b.drop_first()[j] == b[j + 1]);
        }
        lemma_merge_wf(a2, b.drop_first(), n, nl, aa);
    }
}

/// Merging two branch lists without accepts yields one without accepts.
pub proof fn lemma_merge_no_accept(a: Seq<(Match, Action)>, b: Seq<(Match, Action)>)
    requires
        branches_no_accept(a),
        branches_no_accept(b),
    ensures
        branches_no_accept(spec_merge(a, b)),
    decreases b.len(),
{
    if b.len() != 0 {
        let a2 = if has_key(a, b[0].0) {
            a
        } else {
            a.push(b[0])
        };
        assert(branches_no_accept(a2)) by {
            assert(forall|j: int| 0 <= j < a.len() ==> a.push(b[0])[j] == a[j]);
        }
        assert(branches_no_accept(b.drop_first())) by {
            assert(forall|j: int| 0 <= j < b.drop_first().len() ==> b.drop_first()[j] == b[j + 1]);
        }
        lemma_merge_no_accept(a2, b.drop_first());
    }
}


/// Well-formedness of the single wildcard branch for a target inside the
/// table.
proof fn proof_branch_other_shift_wf(t: int, n: int, nl: int)
    requires
        1 <= t < n,
        n <= usize::MAX as int + 1,
    ensures
        crate::fsa::action_wf(branch_other_shift(t).1, n, nl, true),
        !(branch_other_shift(t).1 is Accept),
{
    lemma_branch_other_shift(t);
}

/// Every state of a compiled fragment is well-formed for a table of `n`
/// states and `nl` token names, provided the fragment fits below `n`, the
/// exit lies inside the table away from state 0, and the continuation
/// branches are themselves well-formed.
pub proof fn lemma_compile_wf(r: LexerRule, base: int, exit: int, xe: Seq<(Match, Action)>, n: int, nl: int)
    requires
        rule_valid(r),
        1 <= base,
        base + rule_state_count(r) <= n,
        1 <= exit < n,
        n <= usize::MAX as int + 1,
        crate::fsa::branches_wf(xe, n, nl, true),
    ensures
        forall|i: int| 0 <= i < spec_compile(r, base, exit, xe).len() ==> crate::fsa::branches_wf(
            #[trigger] spec_compile(r, base, exit, xe)[i],
            n,
            nl,
            true,
        ),
    decreases r, 0int,
{
    lemma_count_pos(r);
    lemma_compile_len(r, base, exit, xe);
    let f = spec_compile(r, base, exit, xe);
    match r {
        LexerRule::Wildcard => {
            proof_branch_other_shift_wf(exit, n, nl);
            assert(f[0] =~= seq![branch_other_shift(exit)]);
            assert(crate::fsa::branches_wf(f[0], n, nl, true));
        },
        LexerRule::Literal(s) => {
            assert forall|i: int| 0 <= i < f.len() implies crate::fsa::branches_wf(f[i], n, nl, true) by {
                assert(f[i] == spec_literal_state(s@, base, exit, i));
                let tgt = if i == s@.len() - 1 { exit } else { base + i + 1 };
                lemma_branch_char_shift(s@[i], tgt);
                let st = spec_literal_state(s@, base, exit, i);
                assert(st =~= seq![branch_char_shift(s@[i], tgt)]);
                assert(st.len() == 1);
                assert(crate::fsa::action_wf(st[0].1, n, nl, true));
                assert forall|j: int| 0 <= j < st.len() implies crate::fsa::action_wf(
                    #[trigger] st[j].1, n, nl, true,
                ) by {
                    assert(j == 0);
                }
            }
        },
        LexerRule::Range(lo, hi) => {
            let cs = char_range_seq(lo, hi);
            assert forall|j: int| 0 <= j < f[0].len() implies crate::fsa::action_wf(
                #[trigger] f[0][j].1,
                n,
                nl,
                true,
            ) by {
                assert(f[0][j] == spec_range_branch(cs[j], exit));
                lemma_branch_char_shift(cs[j], exit);
            }
        },
        LexerRule::Concat(a, b) => {
            let ca = rule_state_count(*a) as int;
            let fb = spec_compile(*b, base + ca, exit, xe);
            let fa = spec_compile(*a, base, base + ca, fb[0]);
            lemma_count_pos(*a);
            lemma_count_pos(*b);
            lemma_compile_len(*b, base + ca, exit, xe);
            lemma_compile_wf(*b, base + ca, exit, xe, n, nl);
            lemma_compile_wf(*a, base, base + ca, fb[0], n, nl);
            lemma_compile_len(*a, base, base + ca, fb[0]);
            assert(forall|i: int| 0 <= i < fa.len() ==> f[i] == fa[i]);
            assert(forall|i: int| fa.len() <= i < f.len() ==> f[i] == fb[i - fa.len()]);
        },
        LexerRule::Alternate(a, b) => {
            let ca = rule_state_count(*a) as int;
            let fa = spec_compile(*a, base, exit, xe);
            let fb = spec_compile(*b, base + ca, exit, xe);
            lemma_count_pos(*a);
            lemma_count_pos(*b);
            lemma_compile_wf(*a, base, exit, xe, n, nl);
            lemma_compile_wf(*b, base + ca, exit, xe, n, nl);
            lemma_compile_len(*a, base, exit, xe);
            lemma_compile_len(*b, base + ca, exit, xe);
            lemma_merge_wf(fa[0], fb[0], n, nl, true);
            let fu = fa.update(0, spec_merge(fa[0], fb[0]));
            assert(forall|i: int| 0 <= i < fu.len() ==> f[i] == fu[i]);
            assert(forall|i: int| fu.len() <= i < f.len() ==> f[i] == fb[i - fu.len()]);
            assert(forall|i: int| 1 <= i < fu.len() ==> fu[i] == fa[i]);
        },
        LexerRule::Repeat(inner, min, max_opt) => {
            let c = rule_state_count(*inner) as int;
            lemma_count_pos(*inner);
            match max_opt {
                Some(max) => {
                    if max == min {
                        assert(min as int * c == max as nat * rule_state_count(*inner))
                            by (nonlinear_arith)
                            requires
                                min == max,
                                c == rule_state_count(*inner),
                        ;
                        lemma_chain_wf(*inner, min as int, base, exit, xe, n, nl);
                        assert(f == spec_chain(*inner, min as int, base, exit, xe));
                        assert(forall|i2: int| 0 <= i2 < f.len() ==> crate::fsa::branches_wf(#[trigger] f[i2], n, nl, true));
                    } else {
                        let ob = base + min * c;
                        let m = max - min;
                        assert(min as int * c >= 0 && min as int * c + m * c == max as int * c && m
                            * c >= 1 * c && 1 * c == c) by (nonlinear_arith)
                            requires
                                min < max,
                                m == max - min,
                                c >= 1,
                        ;
                        let opt = spec_opt_chain(*inner, m, ob, exit, xe);
                        lemma_opt_chain_len(*inner, m, ob, exit, xe);
                        lemma_opt_chain_wf(*inner, m, ob, exit, xe, n, nl);
                        if min == 0 {
                            assert(forall|i2: int| 0 <= i2 < f.len() ==> crate::fsa::branches_wf(#[trigger] f[i2], n, nl, true));
                        } else {
                            let mand = spec_chain(*inner, min as int, base, ob, opt[0]);
                            lemma_chain_len(*inner, min as int, base, ob, opt[0]);
                            lemma_chain_wf(*inner, min as int, base, ob, opt[0], n, nl);
                            assert(forall|i: int| 0 <= i < mand.len() ==> f[i] == mand[i]);
                            assert(forall|i: int| mand.len() <= i < f.len() ==> f[i] == opt[i - mand.len()]);
                            assert(forall|i2: int| 0 <= i2 < f.len() ==> crate::fsa::branches_wf(#[trigger] f[i2], n, nl, true));
                        }
                    }
                },
                None => {
                    let lb = base + min * c;
                    assert(min as int * c >= 0 && min as int * c + c == (min as int + 1) * c && c
                        <= (min as int + 1) * c) by (nonlinear_arith)
                        requires
                            c >= 1,
                            min >= 0,
                    ;
                    let e0 = spec_compile(*inner, lb, lb, Seq::<(Match, Action)>::empty());
                    let mx = spec_merge(e0[0], xe);
                    let lf = spec_compile(*inner, lb, lb, mx);
                    lemma_compile_len(*inner, lb, lb, Seq::<(Match, Action)>::empty());
                    lemma_compile_wf(*inner, lb, lb, Seq::<(Match, Action)>::empty(), n, nl);
                    lemma_merge_wf(e0[0], xe, n, nl, true);
                    lemma_compile_wf(*inner, lb, lb, mx, n, nl);
                    lemma_compile_len(*inner, lb, lb, mx);
                    lemma_merge_wf(lf[0], xe, n, nl, true);
                    let lf2 = lf.update(0, spec_merge(lf[0], xe));
                    assert(forall|i: int| 1 <= i < lf2.len() ==> lf2[i] == lf[i]);
                    if min == 0 {
                        assert(forall|i2: int| 0 <= i2 < f.len() ==> crate::fsa::branches_wf(#[trigger] f[i2], n, nl, true));
                    } else {
                        let mand = spec_chain(*inner, min as int, base, lb, lf2[0]);
                        lemma_chain_len(*inner, min as int, base, lb, lf2[0]);
                        lemma_chain_wf(*inner, min as int, base, lb, lf2[0], n, nl);
                        assert(forall|i: int| 0 <= i < mand.len() ==> f[i] == mand[i]);
                        assert(forall|i: int| mand.len() <= i < f.len() ==> f[i] == lf2[i - mand.len()]);
                        assert(forall|i2: int| 0 <= i2 < f.len() ==> crate::fsa::branches_wf(#[trigger] f[i2], n, nl, true));
                    }
                },
            }
        },
    }
}

/// As `lemma_compile_wf`, for a mandatory chain.
pub proof fn lemma_chain_wf(inner: LexerRule, k: int, base: int, exit: int, xe: Seq<(Match, Action)>, n: int, nl: int)
    requires
        rule_valid(inner),
        k >= 1,
        1 <= base,
        base + k * rule_state_count(inner) <= n,
        1 <= exit < n,
        n <= usize::MAX as int + 1,
        crate::fsa::branches_wf(xe, n, nl, true),
    ensures
        forall|i: int| 0 <= i < spec_chain(inner, k, base, exit, xe).len() ==> crate::fsa::branches_wf(
            #[trigger] spec_chain(inner, k, base, exit, xe)[i],
            n,
            nl,
            true,
        ),
    decreases inner, k + 1,
{
    lemma_count_pos(inner);
    let c = rule_state_count(inner) as int;
    if k == 1 {
        assert(1 * c == c) by (nonlinear_arith);
        lemma_compile_wf(inner, base, exit, xe, n, nl);
        assert(spec_chain(inner, k, base, exit, xe) == spec_compile(inner, base, exit, xe));
    } else {
        assert(c + (k - 1) * c == k * c && (k - 1) * c >= 1 * c && 1 * c == c) by (nonlinear_arith)
            requires
                k >= 2,
                c >= 1,
        ;
        let rest = spec_chain(inner, k - 1, base + c, exit, xe);
        lemma_chain_len(inner, k - 1, base + c, exit, xe);
        lemma_chain_wf(inner, k - 1, base + c, exit, xe, n, nl);
        let f1 = spec_compile(inner, base, base + c, rest[0]);
        lemma_compile_wf(inner, base, base + c, rest[0], n, nl);
        lemma_compile_len(inner, base, base + c, rest[0]);
        let f = spec_chain(inner, k, base, exit, xe);
        assert(forall|i: int| 0 <= i < f1.len() ==> f[i] == f1[i]);
        assert(forall|i: int| f1.len() <= i < f.len() ==> f[i] == rest[i - f1.len()]);
    }
}

/// As `lemma_compile_wf`, for an optional chain.
pub proof fn lemma_opt_chain_wf(inner: LexerRule, m: int, base: int, exit: int, xe: Seq<(Match, Action)>, n: int, nl: int)
    requires
        rule_valid(inner),
        m >= 1,
        1 <= base,
        base + m * rule_state_count(inner) <= n,
        1 <= exit < n,
        n <= usize::MAX as int + 1,
        crate::fsa::branches_wf(xe, n, nl, true),
    ensures
        forall|i: int| 0 <= i < spec_opt_chain(inner, m, base, exit, xe).len() ==> crate::fsa::branches_wf(
            #[trigger] spec_opt_chain(inner, m, base, exit, xe)[i],
            n,
            nl,
            true,
        ),
    decreases inner, m + 1,
{
    lemma_count_pos(inner);
    let c = rule_state_count(inner) as int;
    if m == 1 {
        assert(1 * c == c) by (nonlinear_arith);
        let fc = spec_compile(inner, base, exit, xe);
        lemma_compile_wf(inner, base, exit, xe, n, nl);
        lemma_compile_len(inner, base, exit, xe);
        lemma_merge_wf(fc[0], xe, n, nl, true);
        let f = spec_opt_chain(inner, m, base, exit, xe);
        assert(forall|i: int| 1 <= i < f.len() ==> f[i] == fc[i]);
    } else {
        assert(c + (m - 1) * c == m * c && (m - 1) * c >= 1 * c && 1 * c == c) by (nonlinear_arith)
            requires
                m >= 2,
                c >= 1,
        ;
        let rest = spec_opt_chain(inner, m - 1, base + c, exit, xe);
        lemma_opt_chain_len(inner, m - 1, base + c, exit, xe);
        lemma_opt_chain_wf(inner, m - 1, base + c, exit, xe, n, nl);
        let f1 = spec_compile(inner, base, base + c, rest[0]);
        lemma_compile_wf(inner, base, base + c, rest[0], n, nl);
        lemma_compile_len(inner, base, base + c, rest[0]);
        lemma_merge_wf(f1[0], xe, n, nl, true);
        let f1u = f1.update(0, spec_merge(f1[0], xe));
        let f = spec_opt_chain(inner, m, base, exit, xe);
        assert(forall|i: int| 1 <= i < f1u.len() ==> f1u[i] == f1[i]);
        assert(forall|i: int| 0 <= i < f1u.len() ==> f[i] == f1u[i]);
        assert(forall|i: int| f1u.len() <= i < f.len() ==> f[i] == rest[i - f1u.len()]);
    }
}

/// The entry state of a compiled fragment carries no accept, provided the
/// rule cannot match the empty sequence or the continuation itself carries
/// none.
pub proof fn lemma_compile_entry_no_accept(r: LexerRule, base: int, exit: int, xe: Seq<(Match, Action)>)
    requires
        rule_valid(r),
        branches_no_accept(xe) || !rule_nullable(r),
    ensures
        branches_no_accept(spec_compile(r, base, exit, xe)[0]),
    decreases r, 0int,
{
    lemma_count_pos(r);
    lemma_compile_len(r, base, exit, xe);
    let f = spec_compile(r, base, exit, xe);
    match r {
        LexerRule::Wildcard => {
            lemma_branch_other_shift(exit);
            assert(f[0] =~= seq![branch_other_shift(exit)]);
            assert(f[0].len() == 1);
            assert(!(f[0][0].1 is Accept));
            assert(branches_no_accept(f[0]));
        },
        LexerRule::Literal(s) => {
            assert(f[0] == spec_literal_state(s@, base, exit, 0));
            let tgt = if 0 == s@.len() - 1 { exit } else { base + 1 };
            lemma_branch_char_shift(s@[0], tgt);
            assert(f[0] =~= seq![branch_char_shift(s@[0], tgt)]);
            assert(f[0].len() == 1);
            assert(!(f[0][0].1 is Accept));
            assert(branches_no_accept(f[0]));
        },
        LexerRule::Range(lo, hi) => {
            let cs = char_range_seq(lo, hi);
            assert forall|j: int| 0 <= j < f[0].len() implies !((#[trigger] f[0][j]).1 is Accept) by {
                assert(f[0][j] == spec_range_branch(cs[j], exit));
                lemma_branch_char_shift(cs[j], exit);
            }
        },
        LexerRule::Concat(a, b) => {
            let ca = rule_state_count(*a) as int;
            let fb = spec_compile(*b, base + ca, exit, xe);
            let fa = spec_compile(*a, base, base + ca, fb[0]);
            lemma_count_pos(*a);
            lemma_compile_len(*a, base, base + ca, fb[0]);
            if !rule_nullable(*a) {
                lemma_compile_entry_no_accept(*a, base, base + ca, fb[0]);
            } else {
                lemma_compile_entry_no_accept(*b, base + ca, exit, xe);
                lemma_compile_entry_no_accept(*a, base, base + ca, fb[0]);
            }
            assert(f[0] == fa[0]);
        },
        LexerRule::Alternate(a, b) => {
            let ca = rule_state_count(*a) as int;
            let fa = spec_compile(*a, base, exit, xe);
            let fb = spec_compile(*b, base + ca, exit, xe);
            lemma_count_pos(*a);
            lemma_compile_len(*a, base, exit, xe);
            lemma_compile_entry_no_accept(*a, base, exit, xe);
            lemma_compile_entry_no_accept(*b, base + ca, exit, xe);
            lemma_merge_no_accept(fa[0], fb[0]);
            assert(f[0] == fa.update(0, spec_merge(fa[0], fb[0]))[0]);
        },
        LexerRule::Repeat(inner, min, max_opt) => {
            let c = rule_state_count(*inner) as int;
            lemma_count_pos(*inner);
            match max_opt {
                Some(max) => {
                    if max == min {
                        lemma_chain_entry_no_accept(*inner, min as int, base, exit, xe);
                        lemma_chain_len(*inner, min as int, base, exit, xe);
                        assert(min as int * c >= 1 * c && 1 * c == c) by (nonlinear_arith)
                            requires
                                min >= 1,
                                c >= 1,
                        ;
                    } else {
                        let ob = base + min * c;
                        let m = max - min;
                        let opt = spec_opt_chain(*inner, m, ob, exit, xe);
                        lemma_opt_chain_len(*inner, m, ob, exit, xe);
                        assert(m * c >= 1 * c && 1 * c == c) by (nonlinear_arith)
                            requires
                                m >= 1,
                                c >= 1,
                        ;
                        if min == 0 {
                            lemma_opt_chain_entry_no_accept(*inner, m, ob, exit, xe);
                        } else {
                            lemma_chain_entry_no_accept(*inner, min as int, base, ob, opt[0]);
                            lemma_chain_len(*inner, min as int, base, ob, opt[0]);
                            assert(min as int * c >= 1 * c) by (nonlinear_arith)
                                requires
                                    min >= 1,
                                    c >= 1,
                            ;
                            let mand = spec_chain(*inner, min as int, base, ob, opt[0]);
                            assert(f[0] == mand[0]);
                        }
                    }
                },
                None => {
                    let lb = base + min * c;
                    let e0 = spec_compile(*inner, lb, lb, Seq::<(Match, Action)>::empty());
                    let mx = spec_merge(e0[0], xe);
                    let lf = spec_compile(*inner, lb, lb, mx);
                    lemma_compile_len(*inner, lb, lb, mx);
                    let lf2 = lf.update(0, spec_merge(lf[0], xe));
                    if min == 0 {
                        lemma_compile_entry_no_accept(*inner, lb, lb, mx);
                        lemma_merge_no_accept(lf[0], xe);
                        assert(f[0] == lf2[0]);
                    } else {
                        lemma_chain_entry_no_accept(*inner, min as int, base, lb, lf2[0]);
                        lemma_chain_len(*inner, min as int, base, lb, lf2[0]);
                        assert(min as int * c >= 1 * c && 1 * c == c) by (nonlinear_arith)
                            requires
                                min >= 1,
                                c >= 1,
                        ;
                        let mand = spec_chain(*inner, min as int, base, lb, lf2[0]);
                        assert(f[0] == mand[0]);
                    }
                },
            }
        },
    }
}

/// The entry of a mandatory chain carries no accept: it is the entry of the
/// first copy of the inner rule, which cannot match the empty sequence.
pub proof fn lemma_chain_entry_no_accept(inner: LexerRule, k: int, base: int, exit: int, xe: Seq<(Match, Action)>)
    requires
        rule_valid(inner),
        !rule_nullable(inner),
        k >= 1,
    ensures
        branches_no_accept(spec_chain(inner, k, base, exit, xe)[0]),
    decreases inner, k + 1,
{
    lemma_count_pos(inner);
    let c = rule_state_count(inner) as int;
    if k == 1 {
        lemma_compile_entry_no_accept(inner, base, exit, xe);
    } else {
        let rest = spec_chain(inner, k - 1, base + c, exit, xe);
        let f1 = spec_compile(inner, base, base + c, rest[0]);
        lemma_compile_len(inner, base, base + c, rest[0]);
        lemma_compile_entry_no_accept(inner, base, base + c, rest[0]);
        assert(spec_chain(inner, k, base, exit, xe)[0] == f1[0]);
    }
}

/// The entry of an optional chain carries no accept when the continuation
/// carries none.
pub proof fn lemma_opt_chain_entry_no_accept(inner: LexerRule, m: int, base: int, exit: int, xe: Seq<(Match, Action)>)
    requires
        rule_valid(inner),
        !rule_nullable(inner),
        branches_no_accept(xe),
        m >= 1,
    ensures
        branches_no_accept(spec_opt_chain(inner, m, base, exit, xe)[0]),
    decreases inner, m + 1,
{
    lemma_count_pos(inner);
    let c = rule_state_count(inner) as int;
    if m == 1 {
        let fc = spec_compile(inner, base, exit, xe);
        lemma_compile_len(inner, base, exit, xe);
        lemma_compile_entry_no_accept(inner, base, exit, xe);
        lemma_merge_no_accept(fc[0], xe);
    } else {
        let rest = spec_opt_chain(inner, m - 1, base + c, exit, xe);
        let f1 = spec_compile(inner, base, base + c, rest[0]);
        lemma_compile_len(inner, base, base + c, rest[0]);
        lemma_compile_entry_no_accept(inner, base, base + c, rest[0]);
        lemma_merge_no_accept(f1[0], xe);
        let f1u = f1.update(0, spec_merge(f1[0], xe));
        assert(spec_opt_chain(inner, m, base, exit, xe)[0] == f1u[0]);
    }
}

/// The accept state a token's automaton ends in: any further character, or
/// the end of input, emits the token.
pub open spec fn spec_accept_state(tok: int) -> Seq<(Match, Action)> {
    seq![branch_other_accept(tok)]
}

/// The whole automaton of one token: the compiled rule, whose exit is a
/// final state that accepts token `tok` on any lookahead.
pub open spec fn spec_fsa_for_token(tok: int, r: LexerRule, base: int) -> Seq<Seq<(Match, Action)>> {
    spec_compile(r, base, base + rule_state_count(r), spec_accept_state(tok)) + seq![
        spec_accept_state(tok),
    ]
}

/// Compiles one named token rule into its automaton fragment, the accept
/// state included; it occupies `base .. base + rule_state_count(rule) + 1`.
pub fn generate_fsa_for_token(tok: usize, rule: &LexerRule, base: usize) -> (out: Vec<
    Vec<(Match, Action)>,
>)
    requires
        rule_valid(*rule),
        base as int + rule_state_count(*rule) + 1 <= usize::MAX,
    ensures
        frag_view(out) == spec_fsa_for_token(tok as int, *rule, base as int),
        out@.len() == rule_state_count(*rule) + 1,
{
    let exit = base + state_count(rule);
    let mut xe: Vec<(Match, Action)> = Vec::new();
    xe.push((Match::Other, Action::Accept(tok)));
    let ghost xev = xe@;
    let mut out = compile_rule(rule, base, exit, &xe);
    out.push(xe);
    proof {
        lemma_branch_other_accept(tok as int);
        assert(xev =~= spec_accept_state(tok as int));
        assert(frag_view(out) =~~= spec_fsa_for_token(tok as int, *rule, base as int));
    }
    out
}

} // verus!
