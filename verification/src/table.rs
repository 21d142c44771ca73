//! The symbol table and the branch table.
//!
//! The symbol table maps each label name to its resolved byte offset in the
//! output stream; inserting a name that is already present overwrites its
//! offset. The branch table maps each target name to the ordered list of byte
//! offsets of the 5-digit placeholder fields awaiting that name's address.
//! Both are association lists looked up by first match.

use vstd::prelude::*;

use crate::bytestr::bytes_eq;

verus! {

/// One symbol table entry: a label name and its resolved offset.
pub struct SymbolEntry {
    pub name: Vec<u8>,
    pub offset: usize,
}

/// Mathematical image of a [`SymbolEntry`].
pub struct SymbolEntryV {
    pub name: Seq<u8>,
    pub offset: int,
}

impl View for SymbolEntry {
    type V = SymbolEntryV;

    open spec fn view(&self) -> SymbolEntryV {
        SymbolEntryV { name: self.name@, offset: self.offset as int }
    }
}

/// The first index `i >= from` whose entry is named `name`, or `entries.len()`.
pub open spec fn sym_find(entries: Seq<SymbolEntryV>, name: Seq<u8>, from: int) -> int
    decreases entries.len() - from,
        when 0 <= from <= entries.len()
{
    if from >= entries.len() {
        entries.len() as int
    } else if entries[from].name == name {
        from
    } else {
        sym_find(entries, name, from + 1)
    }
}

/// What `sym_find` finds: the earliest entry named `name`, if any.
pub proof fn lemma_sym_find(entries: Seq<SymbolEntryV>, name: Seq<u8>, from: int)
    requires
        0 <= from <= entries.len(),
    ensures
        from <= sym_find(entries, name, from) <= entries.len(),
        sym_find(entries, name, from) < entries.len() ==> entries[sym_find(
            entries,
            name,
            from,
        )].name == name,
        forall|j: int|
            from <= j < sym_find(entries, name, from) ==> #[trigger] entries[j].name != name,
    decreases entries.len() - from,
{
    if from < entries.len() && entries[from].name != name {
        lemma_sym_find(entries, name, from + 1);
    }
}

/// The offset recorded for `name`, if any.
pub open spec fn sym_lookup(entries: Seq<SymbolEntryV>, name: Seq<u8>) -> Option<int> {
    let i = sym_find(entries, name, 0);
    if i == entries.len() {
        None
    } else {
        Some(entries[i].offset)
    }
}

/// `entries` with `name` bound to `offset`: an existing binding is
/// overwritten in place, a new name is appended.
pub open spec fn sym_insert(entries: Seq<SymbolEntryV>, name: Seq<u8>, offset: int) -> Seq<
    SymbolEntryV,
> {
    let i = sym_find(entries, name, 0);
    if i == entries.len() {
        entries.push(SymbolEntryV { name, offset })
    } else {
        entries.update(i, SymbolEntryV { name, offset })
    }
}

/// Label name to resolved byte offset; a repeated insert for a name
/// overwrites the earlier offset.
pub struct SymbolTable {
    pub entries: Vec<SymbolEntry>,
}

impl View for SymbolTable {
    type V = Seq<SymbolEntryV>;

    open spec fn view(&self) -> Seq<SymbolEntryV> {
        self.entries@.map_values(|e: SymbolEntry| e@)
    }
}

impl SymbolTable {
    /// An empty symbol table.
    pub fn new() -> (r: Self)
        ensures
            r@ == Seq::<SymbolEntryV>::empty(),
    {
        let r = Self { entries: Vec::new() };
        assert(r@ =~= Seq::<SymbolEntryV>::empty());
        r
    }

    /// The index of the entry named `name`, or the number of entries.
    fn find(&self, name: &Vec<u8>) -> (r: usize)
        ensures
            r == sym_find(self@, name@, 0),
            r <= self.entries@.len(),
            self@.len() == self.entries@.len(),
    {
        let n = self.entries.len();
        let mut i: usize = 0;
        while i < n
            invariant
                i <= n,
                n == self@.len(),
                self@.len() == self.entries@.len(),
                sym_find(self@, name@, 0) == sym_find(self@, name@, i as int),
            decreases n - i,
        {
            if bytes_eq(&self.entries[i].name, name) {
                assert(sym_find(self@, name@, i as int) == i);
                return i;
            }
            assert(self@[i as int].name != name@);
            assert(sym_find(self@, name@, i as int) == sym_find(self@, name@, i + 1));
            i = i + 1;
        }
        assert(sym_find(self@, name@, i as int) == self@.len());
        n
    }

    /// Binds `name` to `offset`, overwriting any earlier binding.
    pub fn insert(&mut self, name: Vec<u8>, offset: usize)
        ensures
            final(self)@ == sym_insert(old(self)@, name@, offset as int),
    {
        let i = self.find(&name);
        if i == self.entries.len() {
            self.entries.push(SymbolEntry { name, offset });
            assert(self@ =~= sym_insert(old(self)@, name@, offset as int));
        } else {
            self.entries[i] = SymbolEntry { name, offset };
            assert(self@ =~= sym_insert(old(self)@, name@, offset as int));
        }
    }

    /// The offset recorded for `name`, if any.
    pub fn get(&self, name: &Vec<u8>) -> (r: Option<usize>)
        ensures
            match r {
                Some(v) => sym_lookup(self@, name@) == Some(v as int),
                None => sym_lookup(self@, name@) is None,
            },
    {
        let i = self.find(name);
        if i == self.entries.len() {
            None
        } else {
            Some(self.entries[i].offset)
        }
    }

    /// Whether `name` has a recorded offset.
    pub fn contains(&self, name: &Vec<u8>) -> (r: bool)
        ensures
            r == (sym_lookup(self@, name@) is Some),
    {
        let i = self.find(name);
        i < self.entries.len()
    }
}

/// One branch table entry: a target name and the placeholder sites that wait
/// for it, in the order they were emitted.
#[derive(Debug)]
pub struct BranchEntry {
    pub name: Vec<u8>,
    pub sites: Vec<usize>,
}

/// Mathematical image of a [`BranchEntry`].
#[verifier::ext_equal]
pub struct BranchEntryV {
    pub name: Seq<u8>,
    pub sites: Seq<int>,
}

impl View for BranchEntry {
    type V = BranchEntryV;

    open spec fn view(&self) -> BranchEntryV {
        BranchEntryV { name: self.name@, sites: self.sites@.map_values(|s: usize| s as int) }
    }
}

/// The first index `i >= from` whose entry is named `name`, or `entries.len()`.
pub open spec fn br_find(entries: Seq<BranchEntryV>, name: Seq<u8>, from: int) -> int
    decreases entries.len() - from,
        when 0 <= from <= entries.len()
{
    if from >= entries.len() {
        entries.len() as int
    } else if entries[from].name == name {
        from
    } else {
        br_find(entries, name, from + 1)
    }
}

/// What `br_find` finds: the earliest entry named `name`, if any.
pub proof fn lemma_br_find(entries: Seq<BranchEntryV>, name: Seq<u8>, from: int)
    requires
        0 <= from <= entries.len(),
    ensures
        from <= br_find(entries, name, from) <= entries.len(),
        br_find(entries, name, from) < entries.len() ==> entries[br_find(
            entries,
            name,
            from,
        )].name == name,
        forall|j: int|
            from <= j < br_find(entries, name, from) ==> #[trigger] entries[j].name != name,
    decreases entries.len() - from,
{
    if from < entries.len() && entries[from].name != name {
        lemma_br_find(entries, name, from + 1);
    }
}

/// The placeholder sites recorded for `name`, if any.
pub open spec fn br_lookup(entries: Seq<BranchEntryV>, name: Seq<u8>) -> Option<Seq<int>> {
    let i = br_find(entries, name, 0);
    if i == entries.len() {
        None
    } else {
        Some(entries[i].sites)
    }
}

/// `entries` with `site` appended to the list for `name`, the list being
/// created empty first if `name` is new.
pub open spec fn br_push_site(entries: Seq<BranchEntryV>, name: Seq<u8>, site: int) -> Seq<
    BranchEntryV,
> {
    let i = br_find(entries, name, 0);
    if i == entries.len() {
        entries.push(BranchEntryV { name, sites: seq![site] })
    } else {
        entries.update(i, BranchEntryV { name, sites: entries[i].sites.push(site) })
    }
}

/// Target name to the ordered byte offsets of the placeholder fields emitted
/// for choices that jump to it.
pub struct BranchTable {
    pub entries: Vec<BranchEntry>,
}

impl View for BranchTable {
    type V = Seq<BranchEntryV>;

    open spec fn view(&self) -> Seq<BranchEntryV> {
        self.entries@.map_values(|e: BranchEntry| e@)
    }
}

impl BranchTable {
    /// An empty branch table.
    pub fn new() -> (r: Self)
        ensures
            r@ == Seq::<BranchEntryV>::empty(),
    {
        let r = Self { entries: Vec::new() };
        assert(r@ =~= Seq::<BranchEntryV>::empty());
        r
    }

    /// The index of the entry named `name`, or the number of entries.
    fn find(&self, name: &Vec<u8>) -> (r: usize)
        ensures
            r == br_find(self@, name@, 0),
            r <= self.entries@.len(),
            self@.len() == self.entries@.len(),
    {
        let n = self.entries.len();
        let mut i: usize = 0;
        while i < n
            invariant
                i <= n,
                n == self@.len(),
                self@.len() == self.entries@.len(),
                br_find(self@, name@, 0) == br_find(self@, name@, i as int),
            decreases n - i,
        {
            if bytes_eq(&self.entries[i].name, name) {
                assert(br_find(self@, name@, i as int) == i);
                return i;
            }
            assert(self@[i as int].name != name@);
            assert(br_find(self@, name@, i as int) == br_find(self@, name@, i + 1));
            i = i + 1;
        }
        assert(br_find(self@, name@, i as int) == self@.len());
        n
    }

    /// Appends `site` to the list of placeholder sites waiting for `name`.
    pub fn push_site(&mut self, name: Vec<u8>, site: usize)
        ensures
            final(self)@ == br_push_site(old(self)@, name@, site as int),
    {
        let i = self.find(&name);
        if i == self.entries.len() {
            let mut sites: Vec<usize> = Vec::new();
            sites.push(site);
            self.entries.push(BranchEntry { name, sites });
            assert(self@ =~~= br_push_site(old(self)@, name@, site as int));
        } else {
            proof {
                lemma_br_find(old(self)@, name@, 0);
            }
            self.entries[i].sites.push(site);
            assert(self.entries@[i as int]@.sites =~= old(self)@[i as int].sites.push(
                site as int,
            ));
            assert(self@ =~~= br_push_site(old(self)@, name@, site as int));
        }
    }

    /// The placeholder sites recorded for `name`, if any.
    pub fn get(&self, name: &Vec<u8>) -> (r: Option<&Vec<usize>>)
        ensures
            match r {
                Some(v) => br_lookup(self@, name@) == Some(
                    v@.map_values(|s: usize| s as int),
                ),
                None => br_lookup(self@, name@) is None,
            },
    {
        let i = self.find(name);
        if i == self.entries.len() {
            None
        } else {
            Some(&self.entries[i].sites)
        }
    }
}

} // verus!
