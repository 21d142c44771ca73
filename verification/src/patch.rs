//! The mathematical model of pass 2: backpatching placeholder fields.
//!
//! For every branch table entry whose target name has a resolved offset, the
//! five bytes of each recorded placeholder field are overwritten with the
//! offset's zero-padded decimal rendering. Patching never changes the length
//! of the stream.

use vstd::prelude::*;

use crate::bytestr::decode5;
use crate::bytestr::digits5;
use crate::bytestr::lemma_digits5_decode;
use crate::table::sym_lookup;
use crate::table::BranchEntryV;
use crate::table::SymbolEntryV;
use crate::writer::sites_disjoint;
use crate::writer::sites_in_bounds;

verus! {

/// `out` with the five bytes at `[site, site + 5)` overwritten by the
/// rendering of `v`; out-of-range sites leave the stream untouched.
pub open spec fn patch_at(out: Seq<u8>, site: int, v: int) -> Seq<u8> {
    if 0 <= site && site + 5 <= out.len() {
        out.subrange(0, site) + digits5(v) + out.subrange(site + 5, out.len() as int)
    } else {
        out
    }
}

/// `out` with every site of `sites` patched to the rendering of `v`, in
/// order.
pub open spec fn patch_sites(out: Seq<u8>, sites: Seq<int>, v: int) -> Seq<u8>
    decreases sites.len(),
{
    if sites.len() == 0 {
        out
    } else {
        patch_sites(patch_at(out, sites[0], v), sites.drop_first(), v)
    }
}

/// `out` with, for every entry whose name resolves in `symbols`, every one of
/// its placeholder sites patched to the resolved offset, entries in order.
pub open spec fn patch_entries(
    out: Seq<u8>,
    entries: Seq<BranchEntryV>,
    symbols: Seq<SymbolEntryV>,
) -> Seq<u8>
    decreases entries.len(),
{
    if entries.len() == 0 {
        out
    } else {
        match sym_lookup(symbols, entries[0].name) {
            None => patch_entries(out, entries.drop_first(), symbols),
            Some(v) => patch_entries(
                patch_sites(out, entries[0].sites, v),
                entries.drop_first(),
                symbols,
            ),
        }
    }
}

/// The branch table entries whose target name has no resolved offset, in
/// table order.
pub open spec fn unresolved_of(entries: Seq<BranchEntryV>, symbols: Seq<SymbolEntryV>) -> Seq<
    BranchEntryV,
>
    decreases entries.len(),
{
    if entries.len() == 0 {
        Seq::empty()
    } else {
        let rest = unresolved_of(entries.drop_first(), symbols);
        if sym_lookup(symbols, entries[0].name) is None {
            seq![entries[0]] + rest
        } else {
            rest
        }
    }
}

/// The first entry, in table order, whose resolved offset does not fit five
/// decimal digits, with that offset.
pub open spec fn first_overflow(entries: Seq<BranchEntryV>, symbols: Seq<SymbolEntryV>) -> Option<
    (Seq<u8>, int),
>
    decreases entries.len(),
{
    if entries.len() == 0 {
        None
    } else {
        match sym_lookup(symbols, entries[0].name) {
            Some(v) => if v >= 100000 {
                Some((entries[0].name, v))
            } else {
                first_overflow(entries.drop_first(), symbols)
            },
            None => first_overflow(entries.drop_first(), symbols),
        }
    }
}

/// When no resolved offset overflows, every resolved offset fits five
/// digits.
pub proof fn lemma_no_overflow(
    entries: Seq<BranchEntryV>,
    symbols: Seq<SymbolEntryV>,
    a: int,
)
    requires
        first_overflow(entries, symbols) is None,
        0 <= a < entries.len(),
        sym_lookup(symbols, entries[a].name) is Some,
    ensures
        sym_lookup(symbols, entries[a].name)->Some_0 < 100000,
    decreases entries.len(),
{
    if a > 0 {
        assert(entries.drop_first()[a - 1] == entries[a]);
        lemma_no_overflow(entries.drop_first(), symbols, a - 1);
    }
}

/// When no entry is unresolved, every entry's target name resolves.
proof fn lemma_all_resolved(entries: Seq<BranchEntryV>, symbols: Seq<SymbolEntryV>, a: int)
    requires
        unresolved_of(entries, symbols).len() == 0,
        0 <= a < entries.len(),
    ensures
        sym_lookup(symbols, entries[a].name) is Some,
    decreases entries.len(),
{
    if a > 0 {
        assert(entries.drop_first()[a - 1] == entries[a]);
        lemma_all_resolved(entries.drop_first(), symbols, a - 1);
    }
}

/// One placeholder field, after patching, decodes to its resolved offset:
/// the five bytes at site `entries[a].sites[i]` hold the rendering of the
/// offset resolved for `entries[a].name`, and that offset is a position
/// within the stream.
pub open spec fn site_field_decodes(
    out: Seq<u8>,
    entries: Seq<BranchEntryV>,
    symbols: Seq<SymbolEntryV>,
    a: int,
    i: int,
) -> bool {
    let s = entries[a].sites[i];
    let patched = patch_entries(out, entries, symbols);
    &&& sym_lookup(symbols, entries[a].name) is Some
    &&& decode5(patched.subrange(s, s + 5)) == sym_lookup(symbols, entries[a].name)->Some_0
    &&& 0 <= sym_lookup(symbols, entries[a].name)->Some_0 <= out.len()
}

/// Round trip over a whole successful compilation: when every target name is
/// resolved and no resolved offset overflows its field — exactly what a
/// successful backpatch pass guarantees — every recorded placeholder field of
/// the patched stream decodes to its target label's offset, a position
/// within the stream.
pub proof fn lemma_compiled_fields_decode(
    out: Seq<u8>,
    entries: Seq<BranchEntryV>,
    symbols: Seq<SymbolEntryV>,
)
    requires
        sites_in_bounds(entries, out.len() as int),
        sites_disjoint(entries),
        crate::writer::symbols_in_bounds(symbols, out.len() as int),
        unresolved_of(entries, symbols).len() == 0,
        first_overflow(entries, symbols) is None,
    ensures
        forall|a: int, i: int|
            0 <= a < entries.len() && 0 <= i < entries[a].sites.len()
                ==> #[trigger] site_field_decodes(out, entries, symbols, a, i),
{
    assert forall|a: int, i: int|
        0 <= a < entries.len() && 0 <= i
            < entries[a].sites.len() implies #[trigger] site_field_decodes(
        out,
        entries,
        symbols,
        a,
        i,
    ) by {
        lemma_all_resolved(entries, symbols, a);
        lemma_no_overflow(entries, symbols, a);
        lemma_backpatch_round_trip(out, entries, symbols, a, i);
    }
}

/// Patching never changes the length of the stream.
pub proof fn lemma_patch_sites_len(out: Seq<u8>, sites: Seq<int>, v: int)
    ensures
        patch_sites(out, sites, v).len() == out.len(),
    decreases sites.len(),
{
    if sites.len() > 0 {
        lemma_patch_sites_len(patch_at(out, sites[0], v), sites.drop_first(), v);
    }
}

/// The byte `out[p]` after `patch_at`, stated pointwise.
pub proof fn lemma_patch_at_index(out: Seq<u8>, site: int, v: int, p: int)
    requires
        0 <= p < out.len(),
    ensures
        patch_at(out, site, v).len() == out.len(),
        patch_at(out, site, v)[p] == if 0 <= site && site + 5 <= out.len() && site <= p < site
            + 5 {
            digits5(v)[p - site]
        } else {
            out[p]
        },
{
}

/// The last site of `sites` (in patching order) that actually overwrites
/// position `p` of a stream of length `len`, if any: later writes shadow
/// earlier ones, and out-of-range sites write nothing.
pub open spec fn last_write_sites(sites: Seq<int>, p: int, len: int) -> Option<int>
    decreases sites.len(),
{
    if sites.len() == 0 {
        None
    } else {
        let rest = last_write_sites(sites.drop_first(), p, len);
        if rest is Some {
            rest
        } else {
            let s0 = sites[0];
            if 0 <= s0 && s0 + 5 <= len && s0 <= p < s0 + 5 {
                Some(s0)
            } else {
                None
            }
        }
    }
}

/// The byte `out[p]` after `patch_sites`, stated pointwise: the digit of the
/// last write that covers `p`, or the original byte if none does.
pub proof fn lemma_patch_sites_index(out: Seq<u8>, sites: Seq<int>, v: int, p: int)
    requires
        0 <= p < out.len(),
    ensures
        patch_sites(out, sites, v).len() == out.len(),
        patch_sites(out, sites, v)[p] == match last_write_sites(sites, p, out.len() as int) {
            Some(s) => digits5(v)[p - s],
            None => out[p],
        },
    decreases sites.len(),
{
    lemma_patch_sites_len(out, sites, v);
    if sites.len() > 0 {
        lemma_patch_at_index(out, sites[0], v, p);
        lemma_patch_sites_index(patch_at(out, sites[0], v), sites.drop_first(), v, p);
    }
}

/// The last write (site and value) that covers position `p` when every entry
/// is patched in order, if any.
pub open spec fn last_write_entries(
    entries: Seq<BranchEntryV>,
    symbols: Seq<SymbolEntryV>,
    p: int,
    len: int,
) -> Option<(int, int)>
    decreases entries.len(),
{
    if entries.len() == 0 {
        None
    } else {
        let rest = last_write_entries(entries.drop_first(), symbols, p, len);
        if rest is Some {
            rest
        } else {
            match sym_lookup(symbols, entries[0].name) {
                None => None,
                Some(v) => match last_write_sites(entries[0].sites, p, len) {
                    Some(s) => Some((s, v)),
                    None => None,
                },
            }
        }
    }
}

/// The byte `out[p]` after `patch_entries`, stated pointwise.
pub proof fn lemma_patch_entries_index(
    out: Seq<u8>,
    entries: Seq<BranchEntryV>,
    symbols: Seq<SymbolEntryV>,
    p: int,
)
    requires
        0 <= p < out.len(),
    ensures
        patch_entries(out, entries, symbols).len() == out.len(),
        patch_entries(out, entries, symbols)[p] == match last_write_entries(
            entries,
            symbols,
            p,
            out.len() as int,
        ) {
            Some(sv) => digits5(sv.1)[p - sv.0],
            None => out[p],
        },
    decreases entries.len(),
{
    lemma_patch_entries_len(out, entries, symbols);
    if entries.len() > 0 {
        match sym_lookup(symbols, entries[0].name) {
            None => {
                lemma_patch_entries_index(out, entries.drop_first(), symbols, p);
            },
            Some(v) => {
                lemma_patch_sites_index(out, entries[0].sites, v, p);
                lemma_patch_sites_len(out, entries[0].sites, v);
                lemma_patch_entries_index(
                    patch_sites(out, entries[0].sites, v),
                    entries.drop_first(),
                    symbols,
                    p,
                );
            },
        }
    }
}

/// Backpatching is idempotent: running the patch pass a second time, with
/// the same tables, rewrites every field with the bytes it already holds and
/// leaves the stream identical.
pub proof fn lemma_backpatch_idempotent(
    out: Seq<u8>,
    entries: Seq<BranchEntryV>,
    symbols: Seq<SymbolEntryV>,
)
    ensures
        patch_entries(patch_entries(out, entries, symbols), entries, symbols) == patch_entries(
            out,
            entries,
            symbols,
        ),
{
    let out1 = patch_entries(out, entries, symbols);
    let out2 = patch_entries(out1, entries, symbols);
    lemma_patch_entries_len(out, entries, symbols);
    lemma_patch_entries_len(out1, entries, symbols);
    assert forall|p: int| 0 <= p < out1.len() implies out2[p] == out1[p] by {
        lemma_patch_entries_index(out, entries, symbols, p);
        lemma_patch_entries_index(out1, entries, symbols, p);
    }
    assert(out2 =~= out1);
}

/// When no site of `sites` covers `p`, nothing writes to `p`.
proof fn lemma_last_write_sites_none(sites: Seq<int>, p: int, len: int)
    requires
        forall|j: int| 0 <= j < sites.len() ==> !((#[trigger] sites[j]) <= p < sites[j] + 5),
    ensures
        last_write_sites(sites, p, len) is None,
    decreases sites.len(),
{
    if sites.len() > 0 {
        assert(forall|j: int|
            0 <= j < sites.drop_first().len() ==> sites.drop_first()[j] == sites[j + 1]);
        lemma_last_write_sites_none(sites.drop_first(), p, len);
    }
}

/// When exactly the site `sites[i]` covers `p` and lies in range, it is the
/// write that lands on `p`.
proof fn lemma_last_write_sites_at(sites: Seq<int>, p: int, len: int, i: int)
    requires
        0 <= i < sites.len(),
        sites[i] <= p < sites[i] + 5,
        0 <= sites[i],
        sites[i] + 5 <= len,
        forall|j: int|
            0 <= j < sites.len() && j != i ==> !((#[trigger] sites[j]) <= p < sites[j] + 5),
    ensures
        last_write_sites(sites, p, len) == Some(sites[i]),
    decreases sites.len(),
{
    assert(forall|j: int|
        0 <= j < sites.drop_first().len() ==> sites.drop_first()[j] == sites[j + 1]);
    if i == 0 {
        lemma_last_write_sites_none(sites.drop_first(), p, len);
    } else {
        lemma_last_write_sites_at(sites.drop_first(), p, len, i - 1);
    }
}

/// When no recorded site covers `p`, no patch writes to `p`.
proof fn lemma_last_write_entries_none(
    entries: Seq<BranchEntryV>,
    symbols: Seq<SymbolEntryV>,
    p: int,
    len: int,
)
    requires
        forall|b: int, j: int|
            0 <= b < entries.len() && 0 <= j < entries[b].sites.len() ==> !((
            #[trigger] entries[b].sites[j]) <= p < entries[b].sites[j] + 5),
    ensures
        last_write_entries(entries, symbols, p, len) is None,
    decreases entries.len(),
{
    if entries.len() > 0 {
        assert(forall|b: int|
            0 <= b < entries.drop_first().len() ==> entries.drop_first()[b] == entries[b + 1]);
        lemma_last_write_entries_none(entries.drop_first(), symbols, p, len);
        if sym_lookup(symbols, entries[0].name) is Some {
            lemma_last_write_sites_none(entries[0].sites, p, len);
        }
    }
}

/// When exactly the site `entries[a].sites[i]` covers `p`, is in range, and
/// its target resolves to `v`, the write that lands on `p` is `(site, v)`.
proof fn lemma_last_write_entries_at(
    entries: Seq<BranchEntryV>,
    symbols: Seq<SymbolEntryV>,
    p: int,
    len: int,
    a: int,
    i: int,
)
    requires
        0 <= a < entries.len(),
        0 <= i < entries[a].sites.len(),
        entries[a].sites[i] <= p < entries[a].sites[i] + 5,
        0 <= entries[a].sites[i],
        entries[a].sites[i] + 5 <= len,
        sym_lookup(symbols, entries[a].name) is Some,
        forall|b: int, j: int|
            0 <= b < entries.len() && 0 <= j < entries[b].sites.len() && (b != a || j != i) ==> !((
            #[trigger] entries[b].sites[j]) <= p < entries[b].sites[j] + 5),
    ensures
        last_write_entries(entries, symbols, p, len) == Some(
            (entries[a].sites[i], sym_lookup(symbols, entries[a].name)->Some_0),
        ),
    decreases entries.len(),
{
    assert(forall|b: int|
        0 <= b < entries.drop_first().len() ==> entries.drop_first()[b] == entries[b + 1]);
    if a == 0 {
        lemma_last_write_entries_none(entries.drop_first(), symbols, p, len);
        lemma_last_write_sites_at(entries[0].sites, p, len, i);
    } else {
        lemma_last_write_entries_at(entries.drop_first(), symbols, p, len, a - 1, i);
    }
}

/// Round trip of backpatching: after pass 2, the five-digit field at every
/// recorded placeholder site holds exactly the rendering of its target
/// label's resolved offset, and decoding the field returns that offset — a
/// position within the stream, the one recorded when the label was reached
/// in pass 1.
pub proof fn lemma_backpatch_round_trip(
    out: Seq<u8>,
    entries: Seq<BranchEntryV>,
    symbols: Seq<SymbolEntryV>,
    a: int,
    i: int,
)
    requires
        sites_in_bounds(entries, out.len() as int),
        sites_disjoint(entries),
        crate::writer::symbols_in_bounds(symbols, out.len() as int),
        0 <= a < entries.len(),
        0 <= i < entries[a].sites.len(),
        sym_lookup(symbols, entries[a].name) is Some,
        sym_lookup(symbols, entries[a].name)->Some_0 < 100000,
    ensures
        ({
            let s = entries[a].sites[i];
            let v = sym_lookup(symbols, entries[a].name)->Some_0;
            let patched = patch_entries(out, entries, symbols);
            &&& patched.len() == out.len()
            &&& patched.subrange(s, s + 5) == digits5(v)
            &&& decode5(patched.subrange(s, s + 5)) == v
            &&& 0 <= v <= out.len()
        }),
{
    let s = entries[a].sites[i];
    let v = sym_lookup(symbols, entries[a].name)->Some_0;
    let patched = patch_entries(out, entries, symbols);
    lemma_patch_entries_len(out, entries, symbols);
    crate::table::lemma_sym_find(symbols, entries[a].name, 0);
    assert(0 <= v <= out.len());
    assert forall|p: int| s <= p < s + 5 implies patched[p] == digits5(v)[p - s] by {
        lemma_patch_entries_index(out, entries, symbols, p);
        assert forall|b: int, j: int|
            0 <= b < entries.len() && 0 <= j < entries[b].sites.len() && (b != a || j != i)
                implies !((#[trigger] entries[b].sites[j]) <= p < entries[b].sites[j] + 5) by {
            assert(entries[a].sites[i] + 5 <= entries[b].sites[j] || entries[b].sites[j] + 5
                <= entries[a].sites[i]);
        }
        lemma_last_write_entries_at(entries, symbols, p, out.len() as int, a, i);
    }
    assert(patched.subrange(s, s + 5) =~= digits5(v));
    lemma_digits5_decode(v);
}

/// Patching never changes the length of the stream.
pub proof fn lemma_patch_entries_len(
    out: Seq<u8>,
    entries: Seq<BranchEntryV>,
    symbols: Seq<SymbolEntryV>,
)
    ensures
        patch_entries(out, entries, symbols).len() == out.len(),
    decreases entries.len(),
{
    if entries.len() > 0 {
        match sym_lookup(symbols, entries[0].name) {
            None => lemma_patch_entries_len(out, entries.drop_first(), symbols),
            Some(v) => {
                lemma_patch_sites_len(out, entries[0].sites, v);
                lemma_patch_entries_len(
                    patch_sites(out, entries[0].sites, v),
                    entries.drop_first(),
                    symbols,
                );
            },
        }
    }
}

} // verus!
