//! The library's global guarantees, proved over the scanner's and
//! builder's specification functions: every scan reconstructs its input,
//! equal token lists scan identically, and unmatched input never stalls
//! the scanner.

use vstd::prelude::*;
use crate::builder::spec_build_table;
use crate::builder::spec_names_of;
use crate::builder::spec_rules_of;
use crate::fsa::Action;
use crate::fsa::Match;
use crate::fsa::lemma_lookup_wf;
use crate::fsa::spec_lookup;
use crate::fsa::spec_lookup_other;
use crate::fsa::table_wf;
use crate::lexer::Lexer;
use crate::lexer::TokenV;
use crate::lexer::err_name;
use crate::lexer::spec_scan;
use crate::lexer::spec_scan_from;
use crate::lexer::tok_v;
use crate::rule::LexerRule;

verus! {

/// The texts of a token stream, joined in order.
pub open spec fn concat_texts(toks: Seq<TokenV>) -> Seq<char>
    decreases toks.len(),
{
    if toks.len() == 0 {
        Seq::empty()
    } else {
        toks[0].text + concat_texts(toks.drop_first())
    }
}

/// Reconstruction, generalized over a scan in flight: the texts emitted
/// from position `pos` in state `st` with the buffer starting at `bs`
/// cover the input from `bs` to its end, exactly.
pub proof fn lemma_scan_from_reconstructs(
    tbl: Seq<Seq<(Match, Action)>>,
    names: Seq<Seq<char>>,
    input: Seq<char>,
    pos: int,
    st: int,
    bs: int,
)
    requires
        table_wf(tbl, names.len() as int),
        0 <= bs <= pos <= input.len(),
        0 <= st < tbl.len(),
        st == 0 ==> bs == pos,
    ensures
        concat_texts(spec_scan_from(tbl, names, input, pos, st, bs)) == input.subrange(
            bs,
            input.len() as int,
        ),
    decreases input.len() - pos, (if st == 0 { 0int } else { 1int }),
{
    let len = input.len() as int;
    let nl = names.len() as int;
    let out = spec_scan_from(tbl, names, input, pos, st, bs);
    if pos >= len {
        match spec_lookup_other(tbl[st]) {
            Action::Accept(k) => {
                if st != 0 {
                    let t = tok_v(names[k as int], input.subrange(bs, len), bs, len, false);
                    assert(out =~= seq![t]);
                    assert(out.drop_first() =~= Seq::<TokenV>::empty());
                    assert(t.text == input.subrange(bs, len));
                    assert(concat_texts(out) == t.text + concat_texts(Seq::<TokenV>::empty()));
                    assert(input.subrange(bs, len) + Seq::<char>::empty() =~= input.subrange(bs, len));
                    assert(concat_texts(out) =~= input.subrange(bs, len));
                } else {
                    assert(bs == pos == len);
                    assert(out =~= Seq::<TokenV>::empty());
                    assert(concat_texts(out) =~= input.subrange(bs, len));
                }
            },
            _ => {
                if bs < len {
                    let t = tok_v(err_name(), input.subrange(bs, len), bs, len, true);
                    assert(out =~= seq![t]);
                    assert(out.drop_first() =~= Seq::<TokenV>::empty());
                    assert(t.text == input.subrange(bs, len));
                    assert(concat_texts(out) == t.text + concat_texts(Seq::<TokenV>::empty()));
                    assert(input.subrange(bs, len) + Seq::<char>::empty() =~= input.subrange(bs, len));
                    assert(concat_texts(out) =~= input.subrange(bs, len));
                } else {
                    assert(out =~= Seq::<TokenV>::empty());
                    assert(concat_texts(out) =~= input.subrange(bs, len));
                }
            },
        }
    } else {
        let c = input[pos];
        lemma_lookup_wf(tbl[st], c, tbl.len() as int, nl, st != 0);
        match spec_lookup(tbl[st], c) {
            Action::Shift(t) => {
                lemma_scan_from_reconstructs(tbl, names, input, pos + 1, t as int, bs);
            },
            Action::Accept(k) => {
                assert(st != 0);
                let t = tok_v(names[k as int], input.subrange(bs, pos), bs, pos, false);
                let rest = spec_scan_from(tbl, names, input, pos, 0, pos);
                lemma_scan_from_reconstructs(tbl, names, input, pos, 0, pos);
                assert(out =~= seq![t] + rest);
                assert((seq![t] + rest).drop_first() =~= rest);
                assert(concat_texts(out) == input.subrange(bs, pos) + concat_texts(rest));
                assert(input.subrange(bs, pos) + input.subrange(pos, len) =~= input.subrange(
                    bs,
                    len,
                ));
            },
            Action::Fail => {
                if st == 0 {
                    let t = tok_v(err_name(), input.subrange(pos, pos + 1), pos, pos + 1, true);
                    let rest = spec_scan_from(tbl, names, input, pos + 1, 0, pos + 1);
                    lemma_scan_from_reconstructs(tbl, names, input, pos + 1, 0, pos + 1);
                    assert(out =~= seq![t] + rest);
                    assert((seq![t] + rest).drop_first() =~= rest);
                    assert(concat_texts(out) == input.subrange(pos, pos + 1) + concat_texts(rest));
                    assert(input.subrange(pos, pos + 1) + input.subrange(pos + 1, len)
                        =~= input.subrange(bs, len));
                } else {
                    let t = tok_v(err_name(), input.subrange(bs, pos), bs, pos, true);
                    let rest = spec_scan_from(tbl, names, input, pos, 0, pos);
                    lemma_scan_from_reconstructs(tbl, names, input, pos, 0, pos);
                    assert(out =~= seq![t] + rest);
                    assert((seq![t] + rest).drop_first() =~= rest);
                    assert(concat_texts(out) == input.subrange(bs, pos) + concat_texts(rest));
                    assert(input.subrange(bs, pos) + input.subrange(pos, len) =~= input.subrange(
                        bs,
                        len,
                    ));
                }
            },
        }
    }
}

/// Reconstruction: for every input, concatenating the `text` of every
/// emitted token — ordinary and error alike — in order reproduces the
/// input exactly.
pub proof fn lemma_reconstruction(tbl: Seq<Seq<(Match, Action)>>, names: Seq<Seq<char>>, input: Seq<char>)
    requires
        table_wf(tbl, names.len() as int),
    ensures
        concat_texts(spec_scan(tbl, names, input)) == input,
{
    lemma_scan_from_reconstructs(tbl, names, input, 0, 0, 0);
    assert(input.subrange(0, input.len() as int) =~= input);
}

/// Determinism: two lexers built from the same ordered token list produce
/// identical token streams on identical inputs, because the built table
/// and name list are a function of the token list alone.
pub proof fn lemma_determinism(
    l1: Lexer,
    l2: Lexer,
    tokens: Seq<(String, LexerRule)>,
    input: Seq<char>,
)
    requires
        l1.table() == spec_build_table(spec_rules_of(tokens)),
        l1.names_view() == spec_names_of(tokens),
        l2.table() == spec_build_table(spec_rules_of(tokens)),
        l2.names_view() == spec_names_of(tokens),
    ensures
        spec_scan(l1.table(), l1.names_view(), input) == spec_scan(
            l2.table(),
            l2.names_view(),
            input,
        ),
{
}

/// Forward progress on error: a one-character input that no rule's first
/// state accepts yields exactly one error token, of length one, and the
/// scan terminates with that non-empty output.
pub proof fn lemma_forward_progress(tbl: Seq<Seq<(Match, Action)>>, names: Seq<Seq<char>>, input: Seq<char>)
    requires
        table_wf(tbl, names.len() as int),
        input.len() == 1,
        spec_lookup(tbl[0], input[0]) is Fail,
    ensures
        spec_scan(tbl, names, input) == seq![tok_v(err_name(), input, 0, 1, true)],
{
    let out = spec_scan(tbl, names, input);
    let rest = spec_scan_from(tbl, names, input, 1, 0, 1);
    assert(rest =~= Seq::<TokenV>::empty());
    assert(input.subrange(0, 1) =~= input);
    assert(out =~= seq![tok_v(err_name(), input, 0, 1, true)]);
}

} // verus!
