//! The mathematical model of pass 1: what one walk over the classified lines
//! appends to the output stream and records in the two tables.
//!
//! The single source of truth for every offset is the length of the output
//! stream at the moment the offset is recorded: a label's offset is the
//! stream length when the label is reached, and a choice's placeholder site
//! is the stream length right after its prompt and the `;` before the field.

use vstd::prelude::*;

use crate::ascii::EQUALS;
use crate::ascii::PIPE;
use crate::ascii::SEMICOLON;
use crate::ascii::SPACE;
use crate::ascii::TAG_E;
use crate::ascii::TAG_P;
use crate::ascii::TAG_Q;
use crate::bytestr::digits5;
use crate::bytestr::trim_pad;
use crate::choice::parse_choice;
use crate::line::LineType;
use crate::line::LineV;
use crate::table::br_push_site;
use crate::table::sym_insert;
use crate::table::BranchEntryV;
use crate::table::SymbolEntryV;

verus! {

/// The bytes a prose line appends: `P;` then the line text.
pub open spec fn text_token(t: Seq<u8>) -> Seq<u8> {
    seq![TAG_P, SEMICOLON] + t
}

/// The bytes an end marker appends: `E;`.
pub open spec fn end_token() -> Seq<u8> {
    seq![TAG_E, SEMICOLON]
}

/// The bytes that open a choice run: `Q;`.
pub open spec fn q_tag() -> Seq<u8> {
    seq![TAG_Q, SEMICOLON]
}

/// The not-yet-resolved 5-digit jump field: `00000`.
pub open spec fn placeholder() -> Seq<u8> {
    digits5(0)
}

/// The label name of a label line: the text with leading and trailing `=`
/// and space bytes removed.
pub open spec fn bookmark_name(t: Seq<u8>) -> Seq<u8> {
    trim_pad(t, EQUALS, SPACE)
}

/// The separator appended after a line of kind `kind` when the line that
/// follows has kind `next`: `;` continues a choice run, `|` ends a token.
pub open spec fn separator(kind: LineType, next: LineType) -> Seq<u8> {
    if kind == LineType::Question && next == LineType::Question {
        seq![SEMICOLON]
    } else {
        seq![PIPE]
    }
}

/// `out` with the separator after line `i` appended, unless line `i` is the
/// last of the sequence.
pub open spec fn with_separator(out: Seq<u8>, lines: Seq<LineV>, i: int, kind: LineType) -> Seq<
    u8,
> {
    if i + 1 < lines.len() {
        out + separator(kind, lines[i + 1].kind)
    } else {
        out
    }
}

/// The walking state of pass 1: the output stream so far and the two tables.
#[verifier::ext_equal]
pub struct Pass1State {
    pub output: Seq<u8>,
    pub symbols: Seq<SymbolEntryV>,
    pub branches: Seq<BranchEntryV>,
}

/// One pass over `lines` from position `i` on, starting from state `st`,
/// where `prev` is the kind of the line processed before `i`.
///
/// A prose or end line appends its token; a choice line appends the `Q;` tag
/// (when it opens a run), its prompt, `;`, and a `00000` placeholder whose
/// site is recorded in the branch table; a label line appends nothing and
/// records the current stream length under its name; an unclassified line
/// stops the pass, leaving the rest of the input unprocessed. After every
/// appending line that is not the last of the sequence comes a separator.
/// The result is `None` exactly when a malformed choice line is reached.
pub open spec fn pass1_from(lines: Seq<LineV>, i: int, prev: LineType, st: Pass1State) -> Option<
    Pass1State,
>
    decreases lines.len() - i,
        when 0 <= i <= lines.len()
{
    if i >= lines.len() {
        Some(st)
    } else {
        let line = lines[i];
        match line.kind {
            LineType::Undefined => Some(st),
            LineType::Text => {
                let st1 = Pass1State {
                    output: with_separator(
                        st.output + text_token(line.text),
                        lines,
                        i,
                        LineType::Text,
                    ),
                    symbols: st.symbols,
                    branches: st.branches,
                };
                pass1_from(lines, i + 1, LineType::Text, st1)
            },
            LineType::End => {
                let st1 = Pass1State {
                    output: with_separator(st.output + end_token(), lines, i, LineType::End),
                    symbols: st.symbols,
                    branches: st.branches,
                };
                pass1_from(lines, i + 1, LineType::End, st1)
            },
            LineType::Bookmark => {
                let st1 = Pass1State {
                    output: st.output,
                    symbols: sym_insert(
                        st.symbols,
                        bookmark_name(line.text),
                        st.output.len() as int,
                    ),
                    branches: st.branches,
                };
                pass1_from(lines, i + 1, LineType::Bookmark, st1)
            },
            LineType::Question => {
                match parse_choice(line.text) {
                    None => None,
                    Some(pt) => {
                        let prompt = pt.0;
                        let target = pt.1;
                        let opening = if prev == LineType::Question {
                            Seq::<u8>::empty()
                        } else {
                            q_tag()
                        };
                        let site = st.output.len() + opening.len() + prompt.len() + 1;
                        let st1 = Pass1State {
                            output: with_separator(
                                st.output + opening + prompt + seq![SEMICOLON] + placeholder(),
                                lines,
                                i,
                                LineType::Question,
                            ),
                            symbols: st.symbols,
                            branches: br_push_site(st.branches, target, site as int),
                        };
                        pass1_from(lines, i + 1, LineType::Question, st1)
                    },
                }
            },
        }
    }
}

/// One whole pass over `lines` starting from state `st`.
pub open spec fn pass1(lines: Seq<LineV>, st: Pass1State) -> Option<Pass1State> {
    pass1_from(lines, 0, LineType::Undefined, st)
}

/// The token of a line that is prose or an end marker.
pub open spec fn plain_token(l: LineV) -> Seq<u8> {
    if l.kind == LineType::Text {
        text_token(l.text)
    } else {
        end_token()
    }
}

/// The tokens of `lines[i..]` joined by `|`, with no trailing separator.
pub open spec fn plain_output(lines: Seq<LineV>, i: int) -> Seq<u8>
    decreases lines.len() - i,
        when 0 <= i <= lines.len()
{
    if i >= lines.len() {
        Seq::empty()
    } else if i + 1 < lines.len() {
        plain_token(lines[i]) + seq![PIPE] + plain_output(lines, i + 1)
    } else {
        plain_token(lines[i])
    }
}

/// For a script whose lines are all prose or end markers, pass 1 appends
/// exactly the tokens joined by `|`, with no trailing separator, and records
/// nothing in either table.
pub proof fn lemma_plain_script_output(
    lines: Seq<LineV>,
    i: int,
    prev: LineType,
    st: Pass1State,
)
    requires
        0 <= i <= lines.len(),
        forall|j: int|
            i <= j < lines.len() ==> (#[trigger] lines[j].kind) == LineType::Text
                || lines[j].kind == LineType::End,
    ensures
        pass1_from(lines, i, prev, st) == Some(
            Pass1State {
                output: st.output + plain_output(lines, i),
                symbols: st.symbols,
                branches: st.branches,
            },
        ),
    decreases lines.len() - i,
{
    if i >= lines.len() {
        assert(st.output + plain_output(lines, i) =~= st.output);
    } else {
        let tok = plain_token(lines[i]);
        let kind = lines[i].kind;
        let st1 = Pass1State {
            output: with_separator(st.output + tok, lines, i, kind),
            symbols: st.symbols,
            branches: st.branches,
        };
        lemma_plain_script_output(lines, i + 1, kind, st1);
        assert(separator(kind, lines[i + 1].kind) == seq![PIPE]) by {
            assert(kind != LineType::Question);
        }
        assert(st1.output + plain_output(lines, i + 1) =~= st.output + plain_output(lines, i));
        assert(pass1_from(lines, i, prev, st) == pass1_from(lines, i + 1, kind, st1));
    }
}

/// An empty source splits into no lines and compiles to an empty output with
/// empty tables: pass 1 over no lines returns its starting state unchanged.
pub proof fn lemma_empty_source(st: Pass1State)
    ensures
        crate::reader::classified_lines(Seq::<u8>::empty()) == Seq::<LineV>::empty(),
        pass1(Seq::<LineV>::empty(), st) == Some(st),
{
    assert(crate::reader::split_from(Seq::<u8>::empty(), 0, Seq::<u8>::empty()) =~= Seq::<
        Seq<u8>,
    >::empty());
    assert(crate::reader::classified_lines(Seq::<u8>::empty()) =~= Seq::<LineV>::empty());
}

/// The bytes one parsed choice line contributes inside a run: its prompt,
/// `;`, and the `00000` placeholder.
pub open spec fn choice_chunk(l: LineV) -> Seq<u8> {
    parse_choice(l.text)->Some_0.0 + seq![SEMICOLON] + placeholder()
}

/// The bytes of a run of `n` choice lines starting at `i`, the chunks joined
/// by `;`, without the opening `Q;` tag.
pub open spec fn run_body(lines: Seq<LineV>, i: int, n: int) -> Seq<u8>
    decreases n,
        when 0 <= n
{
    if n <= 0 {
        Seq::empty()
    } else if n == 1 {
        choice_chunk(lines[i])
    } else {
        choice_chunk(lines[i]) + seq![SEMICOLON] + run_body(lines, i + 1, n - 1)
    }
}

/// Continuing a choice run: from inside a run (the previous line was a
/// choice), `n` more choice lines append their chunks joined by `;`, with no
/// further `Q;` tag, and a `|` after the run unless it ends the script.
proof fn lemma_choice_run_from(lines: Seq<LineV>, i: int, n: int, st: Pass1State)
    requires
        0 <= i,
        1 <= n,
        i + n <= lines.len(),
        forall|k: int|
            i <= k < i + n ==> (#[trigger] lines[k].kind) == LineType::Question && parse_choice(
                lines[k].text,
            ) is Some,
        i + n < lines.len() ==> lines[i + n].kind != LineType::Question,
    ensures
        exists|st2: Pass1State|
            {
                &&& pass1_from(lines, i, LineType::Question, st) == pass1_from(
                    lines,
                    i + n,
                    LineType::Question,
                    st2,
                )
                &&& (#[trigger] st2.output) == st.output + run_body(lines, i, n) + (if i + n
                    < lines.len() {
                    seq![PIPE]
                } else {
                    Seq::<u8>::empty()
                })
                &&& st2.symbols == st.symbols
            },
    decreases n,
{
    let pt = parse_choice(lines[i].text)->Some_0;
    let site = st.output.len() + 0 + pt.0.len() + 1;
    let st1 = Pass1State {
        output: with_separator(
            st.output + Seq::<u8>::empty() + pt.0 + seq![SEMICOLON] + placeholder(),
            lines,
            i,
            LineType::Question,
        ),
        symbols: st.symbols,
        branches: br_push_site(st.branches, pt.1, site as int),
    };
    assert(pass1_from(lines, i, LineType::Question, st) == pass1_from(
        lines,
        i + 1,
        LineType::Question,
        st1,
    ));
    if n == 1 {
        assert(st1.output =~= st.output + run_body(lines, i, n) + (if i + n < lines.len() {
            seq![PIPE]
        } else {
            Seq::<u8>::empty()
        }));
        assert(pass1_from(lines, i, LineType::Question, st) == pass1_from(
            lines,
            i + n,
            LineType::Question,
            st1,
        ) && st1.output == st.output + run_body(lines, i, n) + (if i + n < lines.len() {
            seq![PIPE]
        } else {
            Seq::<u8>::empty()
        }) && st1.symbols == st.symbols);
    } else {
        lemma_choice_run_from(lines, i + 1, n - 1, st1);
        let st2 = choose|st2: Pass1State|
            {
                &&& pass1_from(lines, i + 1, LineType::Question, st1) == pass1_from(
                    lines,
                    i + n,
                    LineType::Question,
                    st2,
                )
                &&& (#[trigger] st2.output) == st1.output + run_body(lines, i + 1, n - 1) + (if i
                    + n < lines.len() {
                    seq![PIPE]
                } else {
                    Seq::<u8>::empty()
                })
                &&& st2.symbols == st1.symbols
            };
        assert(st2.output =~= st.output + run_body(lines, i, n) + (if i + n < lines.len() {
            seq![PIPE]
        } else {
            Seq::<u8>::empty()
        }));
    }
}

/// A maximal run of `n` consecutive well-formed choice lines shares one `Q;`
/// tag: pass 1 appends `Q;`, then the `n` prompt-and-placeholder chunks
/// joined by `;`, and a `|` after the run's last element unless the run ends
/// the script.
pub proof fn lemma_choice_run(lines: Seq<LineV>, i: int, n: int, prev: LineType, st: Pass1State)
    requires
        0 <= i,
        1 <= n,
        i + n <= lines.len(),
        prev != LineType::Question,
        forall|k: int|
            i <= k < i + n ==> (#[trigger] lines[k].kind) == LineType::Question && parse_choice(
                lines[k].text,
            ) is Some,
        i + n < lines.len() ==> lines[i + n].kind != LineType::Question,
    ensures
        exists|st2: Pass1State|
            {
                &&& pass1_from(lines, i, prev, st) == pass1_from(
                    lines,
                    i + n,
                    LineType::Question,
                    st2,
                )
                &&& (#[trigger] st2.output) == st.output + q_tag() + run_body(lines, i, n) + (if i
                    + n < lines.len() {
                    seq![PIPE]
                } else {
                    Seq::<u8>::empty()
                })
                &&& st2.symbols == st.symbols
            },
{
    let pt = parse_choice(lines[i].text)->Some_0;
    let site = st.output.len() + q_tag().len() + pt.0.len() + 1;
    let st1 = Pass1State {
        output: with_separator(
            st.output + q_tag() + pt.0 + seq![SEMICOLON] + placeholder(),
            lines,
            i,
            LineType::Question,
        ),
        symbols: st.symbols,
        branches: br_push_site(st.branches, pt.1, site as int),
    };
    assert(pass1_from(lines, i, prev, st) == pass1_from(
        lines,
        i + 1,
        LineType::Question,
        st1,
    ));
    if n == 1 {
        assert(st1.output =~= st.output + q_tag() + run_body(lines, i, n) + (if i + n
            < lines.len() {
            seq![PIPE]
        } else {
            Seq::<u8>::empty()
        }));
        assert(pass1_from(lines, i, prev, st) == pass1_from(
            lines,
            i + n,
            LineType::Question,
            st1,
        ) && st1.output == st.output + q_tag() + run_body(lines, i, n) + (if i + n < lines.len() {
            seq![PIPE]
        } else {
            Seq::<u8>::empty()
        }) && st1.symbols == st.symbols);
    } else {
        lemma_choice_run_from(lines, i + 1, n - 1, st1);
        let st2 = choose|st2: Pass1State|
            {
                &&& pass1_from(lines, i + 1, LineType::Question, st1) == pass1_from(
                    lines,
                    i + n,
                    LineType::Question,
                    st2,
                )
                &&& (#[trigger] st2.output) == st1.output + run_body(lines, i + 1, n - 1) + (if i
                    + n < lines.len() {
                    seq![PIPE]
                } else {
                    Seq::<u8>::empty()
                })
                &&& st2.symbols == st1.symbols
            };
        assert(st2.output =~= st.output + q_tag() + run_body(lines, i, n) + (if i + n
            < lines.len() {
            seq![PIPE]
        } else {
            Seq::<u8>::empty()
        }));
    }
}

/// The position of the first choice line that would stop pass 1 with a parse
/// error: the first malformed choice at or after `i` that is not shadowed by
/// an earlier unclassified line, or `lines.len()` if the pass runs clean.
pub open spec fn first_unparsable(lines: Seq<LineV>, i: int) -> int
    decreases lines.len() - i,
        when 0 <= i <= lines.len()
{
    if i >= lines.len() {
        lines.len() as int
    } else if lines[i].kind == LineType::Undefined {
        lines.len() as int
    } else if lines[i].kind == LineType::Question && parse_choice(lines[i].text) is None {
        i
    } else {
        first_unparsable(lines, i + 1)
    }
}

} // verus!

