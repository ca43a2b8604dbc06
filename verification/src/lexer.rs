//! The scanning runtime: a `Lexer` owns a frozen transition table and
//! drives it over input text, producing classified tokens with source
//! positions. Scanning never stops early: unmatched input becomes error
//! tokens and the scan resumes at state 0 with at least one character
//! consumed, so the concatenated token texts always rebuild the input.

use vstd::prelude::*;
use vstd::string::StrSliceExecFns;
use vstd::string::StringExecFns;
use crate::compile::frag_view_of;
use crate::fsa::Action;
use crate::fsa::Match;
use crate::fsa::lemma_lookup_wf;
use crate::fsa::lookup_action;
use crate::fsa::lookup_other_action;
use crate::fsa::spec_lookup;
use crate::fsa::spec_lookup_other;
use crate::fsa::table_wf;

verus! {

/// The mathematical shape of an emitted token.
pub ghost struct TokenV {
    /// The token definition's name, or the error sentinel.
    pub name: Seq<char>,
    /// The exact matched slice of the input.
    pub text: Seq<char>,
    /// Character offset of the first matched character.
    pub start: int,
    /// Character offset one past the last matched character.
    pub end: int,
    /// Whether this token records unmatched input.
    pub error: bool,
}

/// Builds a `TokenV`; named so that proofs can speak of one construction.
pub open spec fn tok_v(name: Seq<char>, text: Seq<char>, start: int, end: int, error: bool) -> TokenV {
    TokenV { name, text, start, end, error }
}

/// The sentinel name of error tokens.
pub open spec fn err_name() -> Seq<char> {
    "ERROR"@
}

/// One emitted token: its definition's name (or the sentinel `"ERROR"`),
/// the exact matched text, the half-open character span `[start, end)` in
/// the input, and the error flag.
#[derive(Debug, Clone, PartialEq)]
pub struct Token {
    pub name: String,
    pub text: String,
    pub start: usize,
    pub end: usize,
    pub error: bool,
}

impl View for Token {
    type V = TokenV;

    open spec fn view(&self) -> TokenV {
        TokenV {
            name: self.name@,
            text: self.text@,
            start: self.start as int,
            end: self.end as int,
            error: self.error,
        }
    }
}

/// The tokens a scan emits from position `pos` in state `st`, where `bs` is
/// the offset of the first character of the pending buffer (the buffer is
/// always `input[bs..pos]`). `Shift` consumes one character; `Accept` emits
/// the buffer without consuming; `Fail` in state 0 emits the offending
/// character as a one-character error token and consumes it, and in any
/// other state emits the buffered partial match and re-examines the same
/// character from state 0. At end of input an `Other -> Accept` fallback
/// applies; otherwise a non-empty buffer becomes a final error token.
pub open spec fn spec_scan_from(
    tbl: Seq<Seq<(Match, Action)>>,
    names: Seq<Seq<char>>,
    input: Seq<char>,
    pos: int,
    st: int,
    bs: int,
) -> Seq<TokenV>
    decreases input.len() - pos, (if st == 0 { 0int } else { 1int }),
{
    if pos < 0 || pos >= input.len() {
        let end = input.len() as int;
        match spec_lookup_other(tbl[st]) {
            Action::Accept(k) => {
                if st != 0 {
                    seq![tok_v(names[k as int], input.subrange(bs, end), bs, end, false)]
                } else if bs < end {
                    seq![tok_v(err_name(), input.subrange(bs, end), bs, end, true)]
                } else {
                    Seq::empty()
                }
            },
            _ => {
                if bs < end {
                    seq![tok_v(err_name(), input.subrange(bs, end), bs, end, true)]
                } else {
                    Seq::empty()
                }
            },
        }
    } else {
        let c = input[pos];
        match spec_lookup(tbl[st], c) {
            Action::Shift(t) => spec_scan_from(tbl, names, input, pos + 1, t as int, bs),
            Action::Accept(k) => {
                if st == 0 {
                    Seq::empty()
                } else {
                    seq![tok_v(names[k as int], input.subrange(bs, pos), bs, pos, false)]
                        + spec_scan_from(tbl, names, input, pos, 0, pos)
                }
            },
            Action::Fail => {
                if st == 0 {
                    seq![tok_v(err_name(), input.subrange(pos, pos + 1), pos, pos + 1, true)]
                        + spec_scan_from(tbl, names, input, pos + 1, 0, pos + 1)
                } else {
                    seq![tok_v(err_name(), input.subrange(bs, pos), bs, pos, true)]
                        + spec_scan_from(tbl, names, input, pos, 0, pos)
                }
            },
        }
    }
}

/// The tokens a table and its names produce on an input, from the shared
/// initial state.
pub open spec fn spec_scan(tbl: Seq<Seq<(Match, Action)>>, names: Seq<Seq<char>>, input: Seq<char>) -> Seq<TokenV> {
    spec_scan_from(tbl, names, input, 0, 0, 0)
}

/// A frozen transition table together with the token names its accepts
/// refer to. Once created it is never mutated; any number of scans may
/// share it.
#[derive(Debug)]
pub struct Lexer {
    /// The transition table; state 0 is the shared initial state.
    pub states: Vec<Vec<(Match, Action)>>,
    /// The token names that `Action::Accept` indices refer to.
    pub names: Vec<String>,
}

impl Lexer {
    /// The table as a sequence of branch lists.
    pub open spec fn table(&self) -> Seq<Seq<(Match, Action)>> {
        frag_view_of(self.states@)
    }

    /// The token names as character sequences.
    pub open spec fn names_view(&self) -> Seq<Seq<char>> {
        self.names@.map_values(|s: String| s@)
    }

    /// The lexer's invariant: its table is well-formed for its name list.
    pub open spec fn wf(&self) -> bool {
        table_wf(self.table(), self.names_view().len() as int)
    }

    /// Wraps a table that is already known well-formed. A table with a
    /// dangling transition would make the scanner's lookup partial, which
    /// is a programming error, so such tables are excluded here.
    pub fn create(states: Vec<Vec<(Match, Action)>>, names: Vec<String>) -> (l: Lexer)
        requires
            table_wf(frag_view_of(states@), names@.len() as int),
        ensures
            l.table() == frag_view_of(states@),
            l.names_view() == names@.map_values(|s: String| s@),
            l.wf(),
    {
        Lexer { states, names }
    }

    /// As `create`, from borrowed state and name lists, copying them.
    pub fn new(states: &Vec<Vec<(Match, Action)>>, names: &Vec<String>) -> (l: Lexer)
        requires
            table_wf(frag_view_of(states@), names@.len() as int),
        ensures
            l.table() == frag_view_of(states@),
            l.names_view() == names@.map_values(|s: String| s@),
            l.wf(),
    {
        let mut states2: Vec<Vec<(Match, Action)>> = Vec::new();
        let mut i: usize = 0;
        while i < states.len()
            invariant
                0 <= i <= states@.len(),
                states2@.len() == i,
                forall|j: int| 0 <= j < i ==> (#[trigger] states2@[j])@ == states@[j]@,
            decreases states@.len() - i,
        {
            let src = &states[i];
            let mut st: Vec<(Match, Action)> = Vec::new();
            let mut k: usize = 0;
            while k < src.len()
                invariant
                    0 <= k <= src@.len(),
                    st@ == src@.take(k as int),
                decreases src@.len() - k,
            {
                let br = src[k];
                st.push(br);
                proof {
                    assert(src@.take(k as int).push(src@[k as int]) =~= src@.take(k as int + 1));
                }
                k = k + 1;
            }
            proof {
                assert(src@.take(src@.len() as int) =~= src@);
            }
            states2.push(st);
            i = i + 1;
        }
        let mut names2: Vec<String> = Vec::new();
        let mut i2: usize = 0;
        while i2 < names.len()
            invariant
                0 <= i2 <= names@.len(),
                names2@.len() == i2,
                forall|j: int| 0 <= j < i2 ==> (#[trigger] names2@[j])@ == names@[j]@,
            decreases names@.len() - i2,
        {
            let s = names[i2].clone();
            names2.push(s);
            i2 = i2 + 1;
        }
        proof {
            assert(frag_view_of(states2@) =~~= frag_view_of(states@));
            assert(names2@.map_values(|s: String| s@) =~~= names@.map_values(|s: String| s@));
        }
        Lexer { states: states2, names: names2 }
    }

    /// Scans the whole input and returns the emitted tokens, in input
    /// order; the scan never stops early, and unmatched input is returned
    /// as error tokens.
    pub fn lex_input(&self, input: &str) -> (out: Vec<Token>)
        requires
            self.wf(),
        ensures
            out@.map_values(|t: Token| t@) == spec_scan(self.table(), self.names_view(), input@),
    {
        let ghost tbl = self.table();
        let ghost nv = self.names_view();
        let len = input.unicode_len();
        let mut out: Vec<Token> = Vec::new();
        let mut pos: usize = 0;
        let mut st: usize = 0;
        let mut bs: usize = 0;
        proof {
            assert(out@.map_values(|t: Token| t@) =~= Seq::<TokenV>::empty());
        }
        while pos < len
            invariant
                self.wf(),
                tbl == self.table(),
                nv == self.names_view(),
                len == input@.len(),
                0 <= bs <= pos <= len,
                0 <= st < tbl.len(),
                st == 0 ==> bs == pos,
                spec_scan(tbl, nv, input@) == out@.map_values(|t: Token| t@) + spec_scan_from(
                    tbl,
                    nv,
                    input@,
                    pos as int,
                    st as int,
                    bs as int,
                ),
            decreases len - pos, (if st == 0 { 0int } else { 1int }),
        {
            let ghost out_pre = out@;
            let c = input.get_char(pos);
            let state = &self.states[st];
            proof {
                assert(tbl[st as int] == state@);
                lemma_lookup_wf(state@, c, tbl.len() as int, nv.len() as int, st != 0);
            }
            let a = lookup_action(state, c);
            match a {
                Action::Shift(t) => {
                    st = t;
                    pos = pos + 1;
                },
                Action::Accept(k) => {
                    let tok = Token {
                        name: self.names[k].clone(),
                        text: String::from_str(input.substring_char(bs, pos)),
                        start: bs,
                        end: pos,
                        error: false,
                    };
                    out.push(tok);
                    proof {
                        assert(out@.map_values(|t: Token| t@) =~= out_pre.map_values(
                            |t: Token| t@,
                        ).push(tok_v(nv[k as int], input@.subrange(bs as int, pos as int), bs as int, pos as int, false)));
                        assert(out_pre.map_values(|t: Token| t@).push(
                            tok_v(nv[k as int], input@.subrange(bs as int, pos as int), bs as int, pos as int, false),
                        ) =~= out_pre.map_values(|t: Token| t@) + seq![
                            tok_v(nv[k as int], input@.subrange(bs as int, pos as int), bs as int, pos as int, false),
                        ]);
                    }
                    st = 0;
                    bs = pos;
                },
                Action::Fail => {
                    if st == 0 {
                        let tok = Token {
                            name: String::from_str("ERROR"),
                            text: String::from_str(input.substring_char(pos, pos + 1)),
                            start: pos,
                            end: pos + 1,
                            error: true,
                        };
                        out.push(tok);
                        proof {
                            assert(out@.map_values(|t: Token| t@) =~= out_pre.map_values(
                                |t: Token| t@,
                            ).push(tok_v(err_name(), input@.subrange(pos as int, pos as int + 1), pos as int, pos as int + 1, true)));
                            assert(out_pre.map_values(|t: Token| t@).push(
                                tok_v(err_name(), input@.subrange(pos as int, pos as int + 1), pos as int, pos as int + 1, true),
                            ) =~= out_pre.map_values(|t: Token| t@) + seq![
                                tok_v(err_name(), input@.subrange(pos as int, pos as int + 1), pos as int, pos as int + 1, true),
                            ]);
                        }
                        pos = pos + 1;
                        bs = pos;
                    } else {
                        let tok = Token {
                            name: String::from_str("ERROR"),
                            text: String::from_str(input.substring_char(bs, pos)),
                            start: bs,
                            end: pos,
                            error: true,
                        };
                        out.push(tok);
                        proof {
                            assert(out@.map_values(|t: Token| t@) =~= out_pre.map_values(
                                |t: Token| t@,
                            ).push(tok_v(err_name(), input@.subrange(bs as int, pos as int), bs as int, pos as int, true)));
                            assert(out_pre.map_values(|t: Token| t@).push(
                                tok_v(err_name(), input@.subrange(bs as int, pos as int), bs as int, pos as int, true),
                            ) =~= out_pre.map_values(|t: Token| t@) + seq![
                                tok_v(err_name(), input@.subrange(bs as int, pos as int), bs as int, pos as int, true),
                            ]);
                        }
                        st = 0;
                        bs = pos;
                    }
                },
            }
        }
        let ghost out_pre = out@;
        let ghost tail = spec_scan_from(tbl, nv, input@, pos as int, st as int, bs as int);
        if st != 0 {
            let state = &self.states[st];
            proof {
                assert(tbl[st as int] == state@);
                lemma_lookup_wf(state@, ' ', tbl.len() as int, nv.len() as int, st != 0);
            }
            let a = lookup_other_action(state);
            match a {
                Action::Accept(k) => {
                    let tok = Token {
                        name: self.names[k].clone(),
                        text: String::from_str(input.substring_char(bs, len)),
                        start: bs,
                        end: len,
                        error: false,
                    };
                    out.push(tok);
                    proof {
                        assert(tail =~= seq![
                            tok_v(nv[k as int], input@.subrange(bs as int, len as int), bs as int, len as int, false),
                        ]);
                        assert(out@.map_values(|t: Token| t@) =~= out_pre.map_values(|t: Token| t@)
                            + tail);
                    }
                },
                _ => {
                    if bs < len {
                        let tok = Token {
                            name: String::from_str("ERROR"),
                            text: String::from_str(input.substring_char(bs, len)),
                            start: bs,
                            end: len,
                            error: true,
                        };
                        out.push(tok);
                        proof {
                            assert(tail =~= seq![
                                tok_v(err_name(), input@.subrange(bs as int, len as int), bs as int, len as int, true),
                            ]);
                            assert(out@.map_values(|t: Token| t@) =~= out_pre.map_values(
                                |t: Token| t@,
                            ) + tail);
                        }
                    } else {
                        proof {
                            assert(tail =~= Seq::<TokenV>::empty());
                            assert(out@.map_values(|t: Token| t@) =~= out_pre.map_values(
                                |t: Token| t@,
                            ) + tail);
                        }
                    }
                },
            }
        } else {
            proof {
                lemma_lookup_wf(tbl[st as int], ' ', tbl.len() as int, nv.len() as int, st != 0);
                assert(tail =~= Seq::<TokenV>::empty());
                assert(out@.map_values(|t: Token| t@) =~= out_pre.map_values(|t: Token| t@) + tail);
            }
        }
        out
    }
}

} // verus!
