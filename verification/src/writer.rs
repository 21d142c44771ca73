//! The two-pass assembler.
//!
//! Pass 1 ([`Writer::process_lines`]) walks the classified lines once,
//! appending each line's bytes to the output stream and recording label
//! offsets and placeholder sites; pass 2 ([`Writer::replace_branch_table`])
//! overwrites every placeholder field with the resolved offset of its target
//! label.

use vstd::prelude::*;

use crate::ascii::DIGIT_0;
use crate::ascii::EQUALS;
use crate::ascii::PIPE;
use crate::ascii::SEMICOLON;
use crate::ascii::SPACE;
use crate::ascii::TAG_E;
use crate::ascii::TAG_P;
use crate::ascii::TAG_Q;
use crate::bytestr::append_bytes;
use crate::bytestr::copy_range;
use crate::bytestr::digits5;
use crate::bytestr::overwrite5;
use crate::bytestr::render5;
use crate::bytestr::trim_range;
use crate::choice::parse_choice;
use crate::choice::parse_choice_line;
use crate::emit::bookmark_name;
use crate::emit::end_token;
use crate::emit::first_unparsable;
use crate::emit::pass1;
use crate::emit::pass1_from;
use crate::emit::placeholder;
use crate::emit::q_tag;
use crate::emit::separator;
use crate::emit::text_token;
use crate::emit::with_separator;
use crate::emit::Pass1State;
use crate::line::LineType;
use crate::line::LineV;
use crate::patch::first_overflow;
use crate::patch::lemma_no_overflow;
use crate::patch::patch_at;
use crate::patch::patch_entries;
use crate::patch::patch_sites;
use crate::patch::unresolved_of;
use crate::reader::Reader;
use crate::table::br_push_site;
use crate::table::BranchEntry;
use crate::table::lemma_br_find;
use crate::table::lemma_sym_find;
use crate::table::sym_insert;
use crate::table::BranchEntryV;
use crate::table::BranchTable;
use crate::table::SymbolEntryV;
use crate::table::SymbolTable;

verus! {

/// A choice line without a well-formed bracketed prompt or `->` target; the
/// offending line is carried along.
#[derive(Debug)]
pub struct ParseError {
    pub line: Vec<u8>,
}

/// What stops the backpatch pass: target names that no label ever resolved
/// (all of them, with their pending sites), or a resolved offset too large
/// for the fixed five-digit field.
#[derive(Debug)]
pub enum PatchError {
    /// Every branch table entry whose target has no symbol table entry.
    Unresolved(Vec<BranchEntry>),
    /// The first entry whose resolved offset needs more than five digits.
    Overflow { name: Vec<u8>, offset: usize },
}

/// A fresh copy of a list of sites.
fn clone_sites(v: &Vec<usize>) -> (r: Vec<usize>)
    ensures
        r@ == v@,
{
    let mut r: Vec<usize> = Vec::new();
    let mut i: usize = 0;
    while i < v.len()
        invariant
            i <= v@.len(),
            r@ == v@.take(i as int),
        decreases v@.len() - i,
    {
        r.push(v[i]);
        assert(r@ =~= v@.take(i + 1));
        i = i + 1;
    }
    assert(r@ =~= v@);
    r
}

/// Every placeholder site lies (with its five digits) inside a stream of
/// length `len`.
pub open spec fn sites_in_bounds(entries: Seq<BranchEntryV>, len: int) -> bool {
    forall|a: int, i: int|
        0 <= a < entries.len() && 0 <= i < entries[a].sites.len() ==> 0 <= #[trigger] entries[a].sites[i]
            && entries[a].sites[i] + 5 <= len
}

/// No two placeholder fields overlap: any two recorded sites are at least
/// five bytes apart.
pub open spec fn sites_disjoint(entries: Seq<BranchEntryV>) -> bool {
    forall|a: int, i: int, b: int, j: int|
        0 <= a < entries.len() && 0 <= i < entries[a].sites.len() && 0 <= b < entries.len() && 0
            <= j < entries[b].sites.len() && (a != b || i != j) ==> (#[trigger] entries[a].sites[i])
            + 5 <= #[trigger] entries[b].sites[j] || entries[b].sites[j] + 5
            <= entries[a].sites[i]
}

/// Every recorded label offset lies within a stream of length `len`.
pub open spec fn symbols_in_bounds(entries: Seq<SymbolEntryV>, len: int) -> bool {
    forall|k: int|
        0 <= k < entries.len() ==> 0 <= (#[trigger] entries[k].offset) && entries[k].offset <= len
}

/// Growing the stream keeps every recorded site in bounds.
pub proof fn lemma_sites_grow(branches: Seq<BranchEntryV>, l1: int, l2: int)
    requires
        l1 <= l2,
        sites_in_bounds(branches, l1),
    ensures
        sites_in_bounds(branches, l2),
{
}

/// Growing the stream keeps every recorded label offset in bounds.
pub proof fn lemma_symbols_grow(symbols: Seq<SymbolEntryV>, l1: int, l2: int)
    requires
        l1 <= l2,
        symbols_in_bounds(symbols, l1),
    ensures
        symbols_in_bounds(symbols, l2),
{
}

/// Recording a label at the current stream length keeps the symbol offsets
/// in bounds.
pub proof fn lemma_symbols_insert_bound(symbols: Seq<SymbolEntryV>, name: Seq<u8>, len: int)
    requires
        symbols_in_bounds(symbols, len),
        0 <= len,
    ensures
        symbols_in_bounds(sym_insert(symbols, name, len), len),
{
    lemma_sym_find(symbols, name, 0);
    let r = sym_insert(symbols, name, len);
    assert forall|k: int| 0 <= k < r.len() implies 0 <= (#[trigger] r[k].offset) && r[k].offset
        <= len by {
        let i = crate::table::sym_find(symbols, name, 0);
        if k < symbols.len() && k != i {
            assert(r[k] == symbols[k]);
        }
    }
}

/// Recording a fresh placeholder site past every byte written so far keeps
/// the sites in bounds and pairwise disjoint.
pub proof fn lemma_branches_push_site(
    branches: Seq<BranchEntryV>,
    target: Seq<u8>,
    site: int,
    len0: int,
    len2: int,
)
    requires
        sites_in_bounds(branches, len0),
        sites_disjoint(branches),
        0 <= len0 <= site,
        site + 5 <= len2,
    ensures
        sites_in_bounds(br_push_site(branches, target, site), len2),
        sites_disjoint(br_push_site(branches, target, site)),
{
    lemma_br_find(branches, target, 0);
    let r = br_push_site(branches, target, site);
    let f = crate::table::br_find(branches, target, 0);
    assert forall|a: int, i: int|
        0 <= a < r.len() && 0 <= i < r[a].sites.len() implies 0 <= (#[trigger] r[a].sites[i])
        && r[a].sites[i] + 5 <= len2 by {
        if a < branches.len() && (a != f || i < branches[a].sites.len()) {
            assert(r[a].sites[i] == branches[a].sites[i]);
        } else {
            assert(r[a].sites[i] == site);
        }
    }
    assert forall|a: int, i: int, b: int, j: int|
        0 <= a < r.len() && 0 <= i < r[a].sites.len() && 0 <= b < r.len() && 0 <= j
            < r[b].sites.len() && (a != b || i != j) implies (#[trigger] r[a].sites[i]) + 5 <= (
    #[trigger] r[b].sites[j]) || r[b].sites[j] + 5 <= r[a].sites[i] by {
        let a_new = !(a < branches.len() && (a != f || i < branches[a].sites.len()));
        let b_new = !(b < branches.len() && (b != f || j < branches[b].sites.len()));
        if a_new {
            assert(r[a].sites[i] == site);
        } else {
            assert(r[a].sites[i] == branches[a].sites[i]);
            assert(branches[a].sites[i] + 5 <= len0);
        }
        if b_new {
            assert(r[b].sites[j] == site);
        } else {
            assert(r[b].sites[j] == branches[b].sites[j]);
            assert(branches[b].sites[j] + 5 <= len0);
        }
        assert(!(a_new && b_new));
    }
}

/// The two-pass assembler: the output stream, the running cursor, and the
/// symbol and branch tables, exclusively owned for one compilation.
pub struct Writer {
    pub index: usize,
    pub output: Vec<u8>,
    pub symbols: SymbolTable,
    pub branch_table: BranchTable,
}

impl View for Writer {
    type V = Pass1State;

    open spec fn view(&self) -> Pass1State {
        Pass1State {
            output: self.output@,
            symbols: self.symbols@,
            branches: self.branch_table@,
        }
    }
}

impl Writer {
    /// The cursor mirrors the stream length, every recorded site lies wholly
    /// inside the stream and overlaps no other, and every recorded label
    /// offset lies within the stream.
    pub open spec fn wf(self) -> bool {
        &&& self.index == self.output@.len()
        &&& sites_in_bounds(self.branch_table@, self.output@.len() as int)
        &&& sites_disjoint(self.branch_table@)
        &&& symbols_in_bounds(self.symbols@, self.output@.len() as int)
    }

    /// A fresh writer: empty stream, empty tables, cursor at zero.
    pub fn new() -> (r: Self)
        ensures
            r.wf(),
            r.index == 0,
            r@.output == Seq::<u8>::empty(),
            r@.symbols == Seq::<SymbolEntryV>::empty(),
            r@.branches == Seq::<BranchEntryV>::empty(),
    {
        let r = Self {
            index: 0,
            output: Vec::new(),
            symbols: SymbolTable::new(),
            branch_table: BranchTable::new(),
        };
        assert(r@.output =~= Seq::<u8>::empty());
        r
    }

    /// Appends a prose token: `P;` then the line text.
    fn emit_text(&mut self, text: &Vec<u8>)
        ensures
            final(self).output@ == old(self).output@ + text_token(text@),
            final(self).symbols == old(self).symbols,
            final(self).branch_table == old(self).branch_table,
            final(self).index == old(self).index,
    {
        let ghost out0 = self.output@;
        self.output.push(TAG_P);
        self.output.push(SEMICOLON);
        append_bytes(&mut self.output, text);
        assert(self.output@ =~= out0 + text_token(text@));
    }

    /// Appends an end token: `E;`.
    fn emit_end(&mut self)
        ensures
            final(self).output@ == old(self).output@ + end_token(),
            final(self).symbols == old(self).symbols,
            final(self).branch_table == old(self).branch_table,
            final(self).index == old(self).index,
    {
        let ghost out0 = self.output@;
        self.output.push(TAG_E);
        self.output.push(SEMICOLON);
        assert(self.output@ =~= out0 + end_token());
    }

    /// Records the label name of `text` at the current stream length.
    fn emit_bookmark(&mut self, text: &Vec<u8>)
        ensures
            final(self).output@ == old(self).output@,
            final(self).symbols@ == sym_insert(
                old(self).symbols@,
                bookmark_name(text@),
                old(self).output@.len() as int,
            ),
            final(self).branch_table == old(self).branch_table,
            final(self).index == old(self).index,
    {
        let name = trim_range(text, 0, text.len(), EQUALS, SPACE);
        assert(text@.subrange(0, text@.len() as int) =~= text@);
        let offset = self.output.len();
        self.symbols.insert(name, offset);
    }

    /// Appends one choice: the `Q;` tag when `opening` a new run, the prompt,
    /// `;`, and the `00000` placeholder, whose site is recorded under the
    /// target name.
    fn emit_choice(&mut self, prompt: &Vec<u8>, target: Vec<u8>, opening: bool)
        ensures
            final(self).output@ == old(self).output@ + (if opening {
                q_tag()
            } else {
                Seq::<u8>::empty()
            }) + prompt@ + seq![SEMICOLON] + placeholder(),
            final(self).branch_table@ == br_push_site(
                old(self).branch_table@,
                target@,
                old(self).output@.len() + (if opening {
                    2int
                } else {
                    0int
                }) + prompt@.len() + 1,
            ),
            final(self).symbols == old(self).symbols,
            final(self).index == old(self).index,
    {
        let ghost out0 = self.output@;
        if opening {
            self.output.push(TAG_Q);
            self.output.push(SEMICOLON);
        }
        append_bytes(&mut self.output, prompt);
        self.output.push(SEMICOLON);
        let site = self.output.len();
        self.branch_table.push_site(target, site);
        self.output.push(DIGIT_0);
        self.output.push(DIGIT_0);
        self.output.push(DIGIT_0);
        self.output.push(DIGIT_0);
        self.output.push(DIGIT_0);
        assert(self.output@ =~= out0 + (if opening {
            q_tag()
        } else {
            Seq::<u8>::empty()
        }) + prompt@ + seq![SEMICOLON] + placeholder());
    }

    /// Reports the first malformed choice line that pass 1 would reach, if
    /// there is one.
    fn check_choices(input: &Reader) -> (r: Result<(), ParseError>)
        ensures
            match r {
                Ok(_) => first_unparsable(input@.lines, 0) == input@.lines.len(),
                Err(e) => {
                    &&& first_unparsable(input@.lines, 0) < input@.lines.len()
                    &&& e.line@ == input@.lines[first_unparsable(input@.lines, 0)].text
                },
            },
    {
        let ghost lines = input@.lines;
        let n = input.lines.len();
        let mut i: usize = 0;
        while i < n
            invariant
                i <= n,
                n == lines.len(),
                input@.lines == lines,
                first_unparsable(lines, 0) == first_unparsable(lines, i as int),
            decreases n - i,
        {
            let line = &input.lines[i];
            assert(line@ == lines[i as int]);
            if line.type_ == LineType::Undefined {
                assert(first_unparsable(lines, i as int) == lines.len());
                return Ok(());
            }
            if line.type_ == LineType::Question {
                match parse_choice_line(&line.text) {
                    None => {
                        assert(first_unparsable(lines, i as int) == i);
                        let bad = copy_range(&line.text, 0, line.text.len());
                        assert(bad@ =~= lines[i as int].text);
                        return Err(ParseError { line: bad });
                    },
                    Some(_) => {
                        assert(first_unparsable(lines, i as int) == first_unparsable(
                            lines,
                            i + 1,
                        ));
                    },
                }
            } else {
                assert(first_unparsable(lines, i as int) == first_unparsable(lines, i + 1));
            }
            i = i + 1;
        }
        assert(first_unparsable(lines, i as int) == lines.len());
        Ok(())
    }

    /// Serializes the classified lines into the output stream (pass 1):
    /// on success the stream, the cursor, and both tables are exactly what
    /// one pass over the lines yields; a malformed choice line is reported
    /// and leaves the writer untouched.
    pub fn process_lines(&mut self, input: &Reader) -> (r: Result<(), ParseError>)
        requires
            old(self).wf(),
        ensures
            final(self).wf(),
            match r {
                Ok(_) => pass1(input@.lines, old(self)@) == Some(final(self)@),
                Err(e) => {
                    &&& pass1(input@.lines, old(self)@) is None
                    &&& *final(self) == *old(self)
                    &&& first_unparsable(input@.lines, 0) < input@.lines.len()
                    &&& e.line@ == input@.lines[first_unparsable(input@.lines, 0)].text
                },
            },
    {
        let ghost lines = input@.lines;
        let ghost st0 = self@;
        match Self::check_choices(input) {
            Err(e) => {
                proof {
                    lemma_unparsable_fails(lines, 0, LineType::Undefined, st0);
                }
                return Err(e);
            },
            Ok(_) => {},
        }
        let n = input.lines.len();
        let mut i: usize = 0;
        let mut last_type = LineType::Undefined;
        let mut truncated = false;
        while i < n && !truncated
            invariant
                i <= n,
                n == lines.len(),
                input@.lines == lines,
                first_unparsable(lines, i as int) == lines.len(),
                !truncated ==> pass1(lines, st0) == pass1_from(lines, i as int, last_type, self@),
                truncated ==> pass1(lines, st0) == Some(self@),
                sites_in_bounds(self.branch_table@, self.output@.len() as int),
                sites_disjoint(self.branch_table@),
                symbols_in_bounds(self.symbols@, self.output@.len() as int),
            decreases n - i + (if truncated { 0int } else { 1int }),
        {
            let ghost st_in = self@;
            let ghost len0 = self.output@.len() as int;
            let line = &input.lines[i];
            assert(line@ == lines[i as int]);
            let kind = line.type_;
            if kind == LineType::Undefined {
                truncated = true;
                assert(pass1_from(lines, i as int, last_type, st_in) == Some(st_in));
            } else {
                if kind == LineType::Text {
                    self.emit_text(&line.text);
                    assert(first_unparsable(lines, i as int) == first_unparsable(lines, i + 1));
                } else if kind == LineType::End {
                    self.emit_end();
                    assert(first_unparsable(lines, i as int) == first_unparsable(lines, i + 1));
                } else if kind == LineType::Bookmark {
                    self.emit_bookmark(&line.text);
                    proof {
                        lemma_symbols_insert_bound(
                            st_in.symbols,
                            bookmark_name(lines[i as int].text),
                            len0,
                        );
                        assert(first_unparsable(lines, i as int) == first_unparsable(
                            lines,
                            i + 1,
                        ));
                    }
                } else {
                    match parse_choice_line(&line.text) {
                        None => {
                            proof {
                                assert(first_unparsable(lines, i as int) == i);
                                assert(false);
                            }
                            return Err(ParseError { line: Vec::new() });
                        },
                        Some((prompt, target)) => {
                            let ghost target_v = target@;
                            let ghost prompt_v = prompt@;
                            let opening = last_type != LineType::Question;
                            self.emit_choice(&prompt, target, opening);
                            proof {
                                lemma_branches_push_site(
                                    st_in.branches,
                                    target_v,
                                    st_in.output.len() + (if opening {
                                        2int
                                    } else {
                                        0int
                                    }) + prompt_v.len() + 1,
                                    len0,
                                    self.output@.len() as int,
                                );
                                assert(first_unparsable(lines, i as int) == first_unparsable(
                                    lines,
                                    i + 1,
                                ));
                            }
                        },
                    }
                }
                let ghost len_mid = self.output@.len() as int;
                let ghost out_mid = self.output@;
                // separator after every appending line that is not the last
                if kind != LineType::Bookmark && i + 1 < n {
                    let next_kind = input.lines[i + 1].type_;
                    assert(next_kind == lines[i as int + 1].kind);
                    if kind == LineType::Question && next_kind == LineType::Question {
                        self.output.push(SEMICOLON);
                    } else {
                        self.output.push(PIPE);
                    }
                    assert(self.output@ =~= out_mid + separator(kind, lines[i as int + 1].kind));
                }
                proof {
                    lemma_sites_grow(self.branch_table@, len_mid, self.output@.len() as int);
                    lemma_symbols_grow(self.symbols@, len_mid, self.output@.len() as int);
                    if kind != LineType::Bookmark {
                        assert(self@.output == with_separator(out_mid, lines, i as int, kind));
                    }
                    assert(pass1_from(lines, i as int, last_type, st_in) == pass1_from(
                        lines,
                        i + 1,
                        kind,
                        self@,
                    ));
                }
                last_type = kind;
                i = i + 1;
            }
        }
        proof {
            if !truncated {
                assert(pass1_from(lines, i as int, last_type, self@) == Some(self@));
            }
        }
        let cursor = self.output.len();
        self.index = cursor;
        Ok(())
    }

    /// Overwrites every placeholder field whose target label is resolved with
    /// that label's offset (pass 2). Unresolved target names are collected
    /// across the whole branch table and reported together; a resolved offset
    /// that does not fit the fixed five-digit field is reported before
    /// anything is patched. On error the writer is left untouched.
    #[verifier::loop_isolation(false)]
    pub fn replace_branch_table(&mut self) -> (r: Result<(), PatchError>)
        requires
            old(self).wf(),
        ensures
            final(self).wf(),
            final(self)@.symbols == old(self)@.symbols,
            final(self)@.branches == old(self)@.branches,
            final(self).index == old(self).index,
            final(self).output@.len() == old(self).output@.len(),
            match r {
                Ok(_) => {
                    &&& unresolved_of(old(self)@.branches, old(self)@.symbols) == Seq::<
                        BranchEntryV,
                    >::empty()
                    &&& first_overflow(old(self)@.branches, old(self)@.symbols) is None
                    &&& final(self).output@ == patch_entries(
                        old(self).output@,
                        old(self)@.branches,
                        old(self)@.symbols,
                    )
                },
                Err(e) => {
                    &&& *final(self) == *old(self)
                    &&& match e {
                        PatchError::Unresolved(u) => {
                            &&& unresolved_of(old(self)@.branches, old(self)@.symbols).len() > 0
                            &&& u@.map_values(|b: BranchEntry| b@) == unresolved_of(
                                old(self)@.branches,
                                old(self)@.symbols,
                            )
                        },
                        PatchError::Overflow { name, offset } => {
                            &&& unresolved_of(old(self)@.branches, old(self)@.symbols) == Seq::<
                                BranchEntryV,
                            >::empty()
                            &&& first_overflow(old(self)@.branches, old(self)@.symbols) == Some(
                                (name@, offset as int),
                            )
                        },
                    }
                },
            },
    {
        let ghost branches = self.branch_table@;
        let ghost symbols = self.symbols@;
        let ghost w0 = *self;
        let m = self.branch_table.entries.len();
        // collect every unresolved target name, with its pending sites
        let mut unresolved: Vec<BranchEntry> = Vec::new();
        let mut a: usize = 0;
        proof {
            assert(branches.skip(0) =~= branches);
            assert(unresolved@.map_values(|b: BranchEntry| b@) =~= Seq::<BranchEntryV>::empty());
        }
        while a < m
            invariant
                a <= m,
                m == branches.len(),
                self.index == w0.index,
                self.output == w0.output,
                self.symbols == w0.symbols,
                self.branch_table == w0.branch_table,
                self.branch_table@ == branches,
                self.symbols@ == symbols,
                unresolved_of(branches, symbols) == unresolved@.map_values(|b: BranchEntry| b@)
                    + unresolved_of(branches.skip(a as int), symbols),
            decreases m - a,
        {
            assert(self.branch_table.entries@[a as int]@ == branches[a as int]);
            assert(branches.skip(a as int)[0] == branches[a as int]);
            assert(branches.skip(a as int).drop_first() =~= branches.skip(a as int + 1));
            let ghost prev_un = unresolved@.map_values(|b: BranchEntry| b@);
            let resolved = self.symbols.contains(&self.branch_table.entries[a].name);
            if !resolved {
                let nlen = self.branch_table.entries[a].name.len();
                let name = copy_range(&self.branch_table.entries[a].name, 0, nlen);
                assert(name@ =~= branches[a as int].name);
                let sites = clone_sites(&self.branch_table.entries[a].sites);
                unresolved.push(BranchEntry { name, sites });
                proof {
                    assert(unresolved@.last()@ =~~= branches[a as int]);
                    assert(unresolved@.map_values(|b: BranchEntry| b@) =~= prev_un + seq![
                        branches[a as int],
                    ]);
                    assert(prev_un + (seq![branches[a as int]] + unresolved_of(
                        branches.skip(a as int + 1),
                        symbols,
                    )) =~= (prev_un + seq![branches[a as int]]) + unresolved_of(
                        branches.skip(a as int + 1),
                        symbols,
                    ));
                }
            }
            a = a + 1;
        }
        proof {
            assert(branches.skip(m as int) =~= Seq::<BranchEntryV>::empty());
        }
        if unresolved.len() > 0 {
            return Err(PatchError::Unresolved(unresolved));
        }
        proof {
            assert(unresolved_of(branches, symbols) =~= Seq::<BranchEntryV>::empty());
        }
        // every target is resolved: refuse any offset too wide for its field
        let mut a2: usize = 0;
        proof {
            assert(branches.skip(0) =~= branches);
        }
        while a2 < m
            invariant
                a2 <= m,
                m == branches.len(),
                self.index == w0.index,
                self.output == w0.output,
                self.symbols == w0.symbols,
                self.branch_table == w0.branch_table,
                self.branch_table@ == branches,
                self.symbols@ == symbols,
                first_overflow(branches, symbols) == first_overflow(
                    branches.skip(a2 as int),
                    symbols,
                ),
            decreases m - a2,
        {
            assert(self.branch_table.entries@[a2 as int]@ == branches[a2 as int]);
            assert(branches.skip(a2 as int)[0] == branches[a2 as int]);
            assert(branches.skip(a2 as int).drop_first() =~= branches.skip(a2 as int + 1));
            let v_opt = self.symbols.get(&self.branch_table.entries[a2].name);
            match v_opt {
                Some(v) => {
                    if v >= 100000 {
                        let nlen = self.branch_table.entries[a2].name.len();
                        let name = copy_range(&self.branch_table.entries[a2].name, 0, nlen);
                        assert(name@ =~= branches[a2 as int].name);
                        assert(first_overflow(branches.skip(a2 as int), symbols) == Some(
                            (branches[a2 as int].name, v as int),
                        ));
                        return Err(PatchError::Overflow { name, offset: v });
                    }
                },
                None => {},
            }
            a2 = a2 + 1;
        }
        proof {
            assert(branches.skip(m as int) =~= Seq::<BranchEntryV>::empty());
            assert(first_overflow(branches, symbols) is None);
        }
        // patch every field in place
        let ghost out0 = self.output@;
        let mut a3: usize = 0;
        proof {
            assert(branches.skip(0) =~= branches);
        }
        while a3 < m
            invariant
                a3 <= m,
                m == branches.len(),
                self.index == w0.index,
                self.symbols == w0.symbols,
                self.branch_table == w0.branch_table,
                self.branch_table@ == branches,
                self.symbols@ == symbols,
                self.output@.len() == out0.len(),
                patch_entries(out0, branches, symbols) == patch_entries(
                    self.output@,
                    branches.skip(a3 as int),
                    symbols,
                ),
                sites_in_bounds(branches, out0.len() as int),
                first_overflow(branches, symbols) is None,
            decreases m - a3,
        {
            assert(self.branch_table.entries@[a3 as int]@ == branches[a3 as int]);
            assert(branches.skip(a3 as int)[0] == branches[a3 as int]);
            assert(branches.skip(a3 as int).drop_first() =~= branches.skip(a3 as int + 1));
            let nlen = self.branch_table.entries[a3].name.len();
            let name = copy_range(&self.branch_table.entries[a3].name, 0, nlen);
            assert(name@ =~= branches[a3 as int].name);
            let sites = clone_sites(&self.branch_table.entries[a3].sites);
            assert(sites@.map_values(|s: usize| s as int) == branches[a3 as int].sites);
            match self.symbols.get(&name) {
                None => {},
                Some(v) => {
                    proof {
                        lemma_no_overflow(branches, symbols, a3 as int);
                    }
                    let ghost vi = v as int;
                    let ghost sv = branches[a3 as int].sites;
                    let digits = render5(v);
                    let ghost out_enter = self.output@;
                    proof {
                        assert(sv.skip(0) =~= sv);
                        assert(forall|j: int|
                            0 <= j < sv.len() ==> 0 <= #[trigger] sv[j] && sv[j] + 5
                                <= out0.len());
                    }
                    let k_n = sites.len();
                    let mut k: usize = 0;
                    while k < k_n
                        invariant
                            k <= k_n,
                            k_n == sites@.len(),
                            sites@.map_values(|s: usize| s as int) == sv,
                            digits@ == digits5(vi),
                            self.index == w0.index,
                            self.symbols == w0.symbols,
                            self.branch_table == w0.branch_table,
                            self.output@.len() == out0.len(),
                            forall|j: int|
                                0 <= j < sv.len() ==> 0 <= #[trigger] sv[j] && sv[j] + 5
                                    <= out0.len(),
                            patch_sites(out_enter, sv, vi) == patch_sites(
                                self.output@,
                                sv.skip(k as int),
                                vi,
                            ),
                        decreases k_n - k,
                    {
                        let site = sites[k];
                        assert(site as int == sv[k as int]);
                        assert(sv.skip(k as int)[0] == sv[k as int]);
                        assert(sv.skip(k as int).drop_first() =~= sv.skip(k as int + 1));
                        let ghost out_before = self.output@;
                        overwrite5(&mut self.output, site, &digits);
                        proof {
                            assert(self.output@ =~= patch_at(out_before, site as int, vi));
                            assert(patch_sites(out_before, sv.skip(k as int), vi) == patch_sites(
                                self.output@,
                                sv.skip(k as int + 1),
                                vi,
                            ));
                        }
                        k = k + 1;
                    }
                    proof {
                        assert(sv.skip(k_n as int) =~= Seq::<int>::empty());
                        assert(self.output@ == patch_sites(out_enter, sv, vi));
                        assert(patch_entries(out_enter, branches.skip(a3 as int), symbols)
                            == patch_entries(self.output@, branches.skip(a3 as int + 1), symbols));
                    }
                },
            }
            a3 = a3 + 1;
        }
        proof {
            assert(branches.skip(m as int) =~= Seq::<BranchEntryV>::empty());
            assert(self.output@ == patch_entries(out0, branches, symbols));
        }
        Ok(())
    }
}

impl Default for Writer {
    /// The same fresh writer that [`Writer::new`] yields.
    fn default() -> (r: Self)
        ensures
            r.wf(),
            r.index == 0,
            r@.output == Seq::<u8>::empty(),
            r@.symbols == Seq::<SymbolEntryV>::empty(),
            r@.branches == Seq::<BranchEntryV>::empty(),
    {
        Writer::new()
    }
}

/// A pass that would reach a malformed choice line fails from any state.
pub proof fn lemma_unparsable_fails(
    lines: Seq<LineV>,
    i: int,
    prev: LineType,
    st: Pass1State,
)
    requires
        0 <= i <= lines.len(),
        first_unparsable(lines, i) < lines.len(),
    ensures
        pass1_from(lines, i, prev, st) is None,
    decreases lines.len() - i,
{
    if lines[i].kind == LineType::Question && parse_choice(lines[i].text) is None {
    } else {
        match lines[i].kind {
            LineType::Text => {
                let st1 = Pass1State {
                    output: with_separator(
                        st.output + text_token(lines[i].text),
                        lines,
                        i,
                        LineType::Text,
                    ),
                    symbols: st.symbols,
                    branches: st.branches,
                };
                lemma_unparsable_fails(lines, i + 1, LineType::Text, st1);
            },
            LineType::End => {
                let st1 = Pass1State {
                    output: with_separator(st.output + end_token(), lines, i, LineType::End),
                    symbols: st.symbols,
                    branches: st.branches,
                };
                lemma_unparsable_fails(lines, i + 1, LineType::End, st1);
            },
            LineType::Bookmark => {
                let st1 = Pass1State {
                    output: st.output,
                    symbols: sym_insert(
                        st.symbols,
                        bookmark_name(lines[i].text),
                        st.output.len() as int,
                    ),
                    branches: st.branches,
                };
                lemma_unparsable_fails(lines, i + 1, LineType::Bookmark, st1);
            },
            LineType::Question => {
                let pt = parse_choice(lines[i].text)->Some_0;
                let prompt = pt.0;
                let target = pt.1;
                let opening = if prev == LineType::Question {
                    Seq::<u8>::empty()
                } else {
                    q_tag()
                };
                let site = st.output.len() + opening.len() + prompt.len() + 1;
                let st1 = Pass1State {
                    output: with_separator(
                        st.output + opening + prompt + seq![SEMICOLON] + placeholder(),
                        lines,
                        i,
                        LineType::Question,
                    ),
                    symbols: st.symbols,
                    branches: br_push_site(st.branches, target, site as int),
                };
                lemma_unparsable_fails(lines, i + 1, LineType::Question, st1);
            },
            LineType::Undefined => {
                assert(false);
            },
        }
    }
}

} // verus!

