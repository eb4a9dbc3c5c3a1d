//! Mapping ranges of virtual memory in Sv48 page tables: the walk to the entry of an
//! address at a given depth, creating the tables that are missing on the way, and
//! mapping a range with the largest pages that fit.

use vstd::prelude::*;

use crate::addr::{spec_table_index, PhysAddr, VirtAddr, PHYS_LIMIT};
use crate::page_table::{
    walk_from, Hhdm, NoPaging, PageFlags, PageTable, PageTableEntry, PageTableMemory, PhysAddrAccess,
    FLAG_BITS, FLAG_RWX, FLAG_VALID,
};

verus! {

/// A table of the page table memory: the root table (`None`) or the table at a
/// position of the memory (`Some`).
pub open spec fn is_table_ref(mem: PageTableMemory, t: Option<int>) -> bool {
    match t {
        None => true,
        Some(k) => 0 <= k < mem.tables@.len(),
    }
}

/// The table `t` refers to.
pub open spec fn table_of(root: PageTable, mem: PageTableMemory, t: Option<int>) -> PageTable {
    match t {
        None => root,
        Some(k) => mem.tables@[k].1,
    }
}

/// Entry `i` of table `t`.
pub open spec fn entry_of(root: PageTable, mem: PageTableMemory, t: Option<int>, i: int) -> PageTableEntry {
    table_of(root, mem, t).entries@[i]
}

/// The table that an entry leads to: a valid entry that maps no memory, whose page
/// is reached and holds a table.
pub open spec fn next_table<A: PhysAddrAccess>(mem: PageTableMemory, ty: A, e: PageTableEntry) -> Option<
    Option<int>,
> {
    if e.is_valid() && !e.is_leaf_entry() && ty.reaches(e.spec_addr()) {
        match mem.find(ty.spec_access_addr(e.spec_addr())) {
            Some(k) => Some(Some(k)),
            None => None,
        }
    } else {
        None
    }
}

/// The table that the walk of `v` stands in at `level`, if it gets there through
/// table pointers.
pub open spec fn path<A: PhysAddrAccess>(
    root: PageTable,
    mem: PageTableMemory,
    ty: A,
    v: u64,
    level: nat,
) -> Option<Option<int>>
    decreases level,
{
    if level == 0 {
        Some(None)
    } else {
        match path(root, mem, ty, v, (level - 1) as nat) {
            None => None,
            Some(t) => next_table(
                mem,
                ty,
                entry_of(root, mem, t, spec_table_index(v, level - 1)),
            ),
        }
    }
}

/// The tables form a tree: a table is reached at one level only, and only by
/// addresses that agree on the indices above it.
#[verifier::opaque]
pub open spec fn tree<A: PhysAddrAccess>(root: PageTable, mem: PageTableMemory, ty: A) -> bool {
    forall|v: u64, w: u64, l: nat, m: nat|
        l <= 3 && m <= 3 && (#[trigger] path(root, mem, ty, v, l)) is Some && path(root, mem, ty, v, l)
            == #[trigger] path(root, mem, ty, w, m) ==> l == m && same_prefix(v, w, l as int)
}

/// `v` and `w` agree on the table indices of the levels above `n`.
pub open spec fn same_prefix(v: u64, w: u64, n: int) -> bool {
    forall|i: int| 0 <= i < n ==> #[trigger] spec_table_index(v, i) == spec_table_index(w, i)
}

/// The second memory keeps the tables of the first at their places, with the same
/// entries but entry `i` of table `t`, which is `e`.
pub open spec fn slot_updated(
    root: PageTable,
    mem: PageTableMemory,
    root2: PageTable,
    mem2: PageTableMemory,
    t: Option<int>,
    i: int,
    e: PageTableEntry,
) -> bool {
    &&& mem2.tables@.len() >= mem.tables@.len()
    &&& forall|k: int| 0 <= k < mem.tables@.len() ==> (#[trigger] mem2.tables@[k]).0 == mem.tables@[k].0
    &&& forall|u: Option<int>, j: int|
        is_table_ref(mem, u) && 0 <= j < 512 ==> #[trigger] entry_of(root2, mem2, u, j) == if u == t && j
            == i {
            e
        } else {
            entry_of(root, mem, u, j)
        }
}

/// No valid table pointer of the memory leads to physical page `p`.
pub open spec fn unreferenced<A: PhysAddrAccess>(root: PageTable, mem: PageTableMemory, ty: A, p: u64) -> bool {
    forall|u: Option<int>, j: int|
        is_table_ref(mem, u) && 0 <= j < 512 && (#[trigger] entry_of(root, mem, u, j)).is_valid()
            && !entry_of(root, mem, u, j).is_leaf_entry() && ty.reaches(entry_of(root, mem, u, j).spec_addr())
            ==> ty.spec_access_addr(entry_of(root, mem, u, j).spec_addr()) != ty.spec_access_addr(p)
}

/// The table found at `a` is the first one there; none is found when none is there.
pub proof fn lemma_find_props(mem: PageTableMemory, a: u64)
    ensures
        mem.find(a) matches Some(k) ==> 0 <= k < mem.tables@.len() && mem.tables@[k].0 == a && forall|j: int|
            0 <= j < k ==> (#[trigger] mem.tables@[j]).0 != a,
        mem.find(a) is None ==> forall|k: int| 0 <= k < mem.tables@.len() ==> (#[trigger] mem.tables@[k]).0 != a,
{
    if exists|k: int| 0 <= k < mem.tables@.len() && (#[trigger] mem.tables@[k]).0 == a {
        let k = choose|k: int| 0 <= k < mem.tables@.len() && (#[trigger] mem.tables@[k]).0 == a;
        lemma_first_table(mem, a, k);
    }
}

proof fn lemma_first_table(mem: PageTableMemory, a: u64, k: int)
    requires
        0 <= k < mem.tables@.len(),
        mem.tables@[k].0 == a,
    ensures
        exists|c: int|
            0 <= c < mem.tables@.len() && (#[trigger] mem.tables@[c]).0 == a && forall|j: int|
                0 <= j < c ==> (#[trigger] mem.tables@[j]).0 != a,
    decreases k,
{
    if exists|j: int| 0 <= j < k && (#[trigger] mem.tables@[j]).0 == a {
        let j = choose|j: int| 0 <= j < k && (#[trigger] mem.tables@[j]).0 == a;
        lemma_first_table(mem, a, j);
    } else {
        assert(mem.tables@[k].0 == a);
    }
}

/// Pushing tables keeps where the earlier ones are found.
proof fn lemma_find_extended(mem: PageTableMemory, mem2: PageTableMemory, a: u64)
    requires
        mem2.tables@.len() >= mem.tables@.len(),
        forall|k: int| 0 <= k < mem.tables@.len() ==> (#[trigger] mem2.tables@[k]).0 == mem.tables@[k].0,
    ensures
        mem.find(a) is Some ==> mem2.find(a) == mem.find(a),
        mem.find(a) is None && mem2.tables@.len() == mem.tables@.len() ==> mem2.find(a) is None,
        mem.find(a) is None && mem2.tables@.len() == mem.tables@.len() + 1 && mem2.tables@[mem.tables@.len() as int].0
            == a ==> mem2.find(a) == Some(mem.tables@.len() as int),
        mem.find(a) is None && mem2.tables@.len() == mem.tables@.len() + 1 && mem2.tables@[mem.tables@.len() as int].0
            != a ==> mem2.find(a) is None,
{
    let n = mem.tables@.len() as int;
    lemma_find_props(mem, a);
    lemma_find_props(mem2, a);
    if mem.find(a) is Some {
        let k = mem.find(a)->0;
        assert(mem2.tables@[k].0 == a);
        if mem2.find(a) is Some {
            let c = mem2.find(a)->0;
            if c < k {
                assert(mem.tables@[c].0 != a);
            } else if c > k {
                assert(mem2.tables@[k].0 != a);
            }
        }
    } else {
        if mem2.find(a) is Some {
            let c = mem2.find(a)->0;
            if c < n {
                assert(mem.tables@[c].0 != a);
            }
        } else if mem2.tables@.len() == n + 1 {
            assert(mem2.tables@[n].0 != a);
        }
    }
}

/// Walks reach only tables of the memory.
proof fn lemma_path_ref<A: PhysAddrAccess>(root: PageTable, mem: PageTableMemory, ty: A, v: u64, l: nat)
    ensures
        path(root, mem, ty, v, l) matches Some(t) ==> is_table_ref(mem, t),
    decreases l,
{
    if l > 0 {
        lemma_path_ref(root, mem, ty, v, (l - 1) as nat);
        match path(root, mem, ty, v, (l - 1) as nat) {
            Some(t) => {
                let e = entry_of(root, mem, t, spec_table_index(v, l - 1));
                lemma_find_props(mem, ty.spec_access_addr(e.spec_addr()));
            },
            None => {},
        }
    }
}

/// Setting an empty slot to a table pointer to a new empty table: the walks that came
/// to that slot now go on to the new table, all others are unchanged.
proof fn lemma_path_after_new_table<A: PhysAddrAccess>(
    root: PageTable,
    mem: PageTableMemory,
    root2: PageTable,
    mem2: PageTableMemory,
    ty: A,
    t: Option<int>,
    i: int,
    e: PageTableEntry,
    w: u64,
    m: nat,
)
    requires
        slot_updated(root, mem, root2, mem2, t, i, e),
        is_table_ref(mem, t),
        0 <= i < 512,
        !entry_of(root, mem, t, i).is_valid(),
        e.is_valid(),
        !e.is_leaf_entry(),
        ty.reaches(e.spec_addr()),
        mem.find(ty.spec_access_addr(e.spec_addr())) is None,
        unreferenced(root, mem, ty, e.spec_addr()),
        mem2.tables@.len() == mem.tables@.len() + 1,
        mem2.tables@[mem.tables@.len() as int].0 == ty.spec_access_addr(e.spec_addr()),
        forall|j: int| 0 <= j < 512 ==> !(#[trigger] mem2.tables@[mem.tables@.len() as int].1.entries@[j]).is_valid(),
        m <= 3,
    ensures
        path(root2, mem2, ty, w, m) == if m >= 1 && path(root, mem, ty, w, (m - 1) as nat) == Some(t)
            && spec_table_index(w, m - 1) == i {
            Some(Some(mem.tables@.len() as int))
        } else {
            path(root, mem, ty, w, m)
        },
    decreases m,
{
    let n = mem.tables@.len() as int;
    if m > 0 {
        let pm = (m - 1) as nat;
        lemma_path_after_new_table(root, mem, root2, mem2, ty, t, i, e, w, pm);
        lemma_path_ref(root, mem, ty, w, pm);
        let idx = spec_table_index(w, pm as int);
        assert(0 <= idx < 512) by {
            crate::addr::lemma_table_index_range(w, pm as int);
        }
        match path(root2, mem2, ty, w, pm) {
            None => {},
            Some(u) => {
                if pm >= 1 && path(root, mem, ty, w, (pm - 1) as nat) == Some(t) && spec_table_index(w, pm - 1)
                    == i {
                    // the walk stands in the new table, whose entries are all empty
                    assert(u == Some(n));
                    assert(entry_of(root2, mem2, u, idx) == mem2.tables@[n].1.entries@[idx]);
                    assert(!entry_of(root, mem, t, i).is_valid());
                    assert(path(root, mem, ty, w, pm) is None);
                } else {
                    assert(path(root, mem, ty, w, pm) == Some(u));
                    assert(is_table_ref(mem, u));
                    let e_old = entry_of(root, mem, u, idx);
                    assert(entry_of(root2, mem2, u, idx) == if u == t && idx == i {
                        e
                    } else {
                        e_old
                    });
                    if u == t && idx == i {
                        lemma_find_extended(mem, mem2, ty.spec_access_addr(e.spec_addr()));
                    } else if e_old.is_valid() && !e_old.is_leaf_entry() && ty.reaches(e_old.spec_addr()) {
                        let a = ty.spec_access_addr(e_old.spec_addr());
                        assert(a != ty.spec_access_addr(e.spec_addr()));
                        lemma_find_extended(mem, mem2, a);
                    }
                }
            },
        }
    }
}

/// Setting an empty slot to a mapping of memory changes no walk to a table.
proof fn lemma_path_after_leaf<A: PhysAddrAccess>(
    root: PageTable,
    mem: PageTableMemory,
    root2: PageTable,
    mem2: PageTableMemory,
    ty: A,
    t: Option<int>,
    i: int,
    e: PageTableEntry,
    w: u64,
    m: nat,
)
    requires
        slot_updated(root, mem, root2, mem2, t, i, e),
        mem2.tables@.len() == mem.tables@.len(),
        !entry_of(root, mem, t, i).is_valid(),
        e.is_leaf_entry(),
    ensures
        path(root2, mem2, ty, w, m) == path(root, mem, ty, w, m),
    decreases m,
{
    if m > 0 {
        let pm = (m - 1) as nat;
        lemma_path_after_leaf(root, mem, root2, mem2, ty, t, i, e, w, pm);
        lemma_path_ref(root, mem, ty, w, pm);
        let idx = spec_table_index(w, pm as int);
        match path(root, mem, ty, w, pm) {
            None => {},
            Some(u) => {
                if 0 <= idx < 512 {
                    let e_old = entry_of(root, mem, u, idx);
                    if e_old.is_valid() && !e_old.is_leaf_entry() && ty.reaches(e_old.spec_addr()) {
                        lemma_find_extended(mem, mem2, ty.spec_access_addr(e_old.spec_addr()));
                    }
                } else {
                    crate::addr::lemma_table_index_range(w, pm as int);
                }
            },
        }
    }
}

/// The conditions under which an empty slot becomes a pointer to a new empty table.
#[verifier::opaque]
pub open spec fn new_table_step<A: PhysAddrAccess>(
    root: PageTable,
    mem: PageTableMemory,
    root2: PageTable,
    mem2: PageTableMemory,
    ty: A,
    t: Option<int>,
    i: int,
    e: PageTableEntry,
) -> bool {
    &&& slot_updated(root, mem, root2, mem2, t, i, e)
    &&& is_table_ref(mem, t)
    &&& 0 <= i < 512
    &&& !entry_of(root, mem, t, i).is_valid()
    &&& e.is_valid()
    &&& !e.is_leaf_entry()
    &&& ty.reaches(e.spec_addr())
    &&& mem.find(ty.spec_access_addr(e.spec_addr())) is None
    &&& unreferenced(root, mem, ty, e.spec_addr())
    &&& mem2.tables@.len() == mem.tables@.len() + 1
    &&& mem2.tables@[mem.tables@.len() as int].0 == ty.spec_access_addr(e.spec_addr())
    &&& forall|j: int| 0 <= j < 512 ==> !(#[trigger] mem2.tables@[mem.tables@.len() as int].1.entries@[j]).is_valid()
}

#[verifier::spinoff_prover]
#[verifier::rlimit(40)]
proof fn lemma_tree_pair_after_new_table<A: PhysAddrAccess>(
    root: PageTable,
    mem: PageTableMemory,
    root2: PageTable,
    mem2: PageTableMemory,
    ty: A,
    t: Option<int>,
    i: int,
    e: PageTableEntry,
    v: u64,
    w: u64,
    l: nat,
    m: nat,
)
    requires
        tree(root, mem, ty),
        new_table_step(root, mem, root2, mem2, ty, t, i, e),
        l <= 3,
        m <= 3,
        path(root2, mem2, ty, v, l) is Some,
        path(root2, mem2, ty, v, l) == path(root2, mem2, ty, w, m),
    ensures
        l == m,
        same_prefix(v, w, l as int),
{
    reveal(new_table_step);
    let n = mem.tables@.len() as int;
    lemma_path_after_new_table(root, mem, root2, mem2, ty, t, i, e, v, l);
    lemma_path_after_new_table(root, mem, root2, mem2, ty, t, i, e, w, m);
    lemma_path_ref(root, mem, ty, v, l);
    lemma_path_ref(root, mem, ty, w, m);
    let cv = l >= 1 && path(root, mem, ty, v, (l - 1) as nat) == Some(t) && spec_table_index(v, l - 1) == i;
    let cw = m >= 1 && path(root, mem, ty, w, (m - 1) as nat) == Some(t) && spec_table_index(w, m - 1) == i;
    if cv && cw {
        let pl = (l - 1) as nat;
        let pm = (m - 1) as nat;
        assert(path(root, mem, ty, v, pl) is Some && path(root, mem, ty, v, pl) == path(root, mem, ty, w, pm));
        lemma_tree_instance(root, mem, ty, v, w, pl, pm);
        assert forall|k: int| 0 <= k < l implies #[trigger] spec_table_index(v, k) == spec_table_index(w, k) by {
            if k < pl {
                assert(same_prefix(v, w, pl as int));
            }
        }
    } else if cv {
        assert(path(root, mem, ty, w, m) == Some(Some(n)));
    } else if cw {
        assert(path(root, mem, ty, v, l) == Some(Some(n)));
    } else {
        assert(path(root, mem, ty, v, l) is Some && path(root, mem, ty, v, l) == path(root, mem, ty, w, m));
        lemma_tree_instance(root, mem, ty, v, w, l, m);
    }
}

/// One instance of the tree property.
proof fn lemma_tree_instance<A: PhysAddrAccess>(
    root: PageTable,
    mem: PageTableMemory,
    ty: A,
    v: u64,
    w: u64,
    l: nat,
    m: nat,
)
    requires
        tree(root, mem, ty),
        l <= 3,
        m <= 3,
        path(root, mem, ty, v, l) is Some,
        path(root, mem, ty, v, l) == path(root, mem, ty, w, m),
    ensures
        l == m,
        same_prefix(v, w, l as int),
{
    reveal(tree);
}

/// Setting an empty slot to a pointer to a new empty table keeps the tables a tree.
proof fn lemma_tree_after_new_table<A: PhysAddrAccess>(
    root: PageTable,
    mem: PageTableMemory,
    root2: PageTable,
    mem2: PageTableMemory,
    ty: A,
    t: Option<int>,
    i: int,
    e: PageTableEntry,
)
    requires
        tree(root, mem, ty),
        new_table_step(root, mem, root2, mem2, ty, t, i, e),
    ensures
        tree(root2, mem2, ty),
{
    reveal(tree);
    assert forall|v: u64, w: u64, l: nat, m: nat|
        l <= 3 && m <= 3 && (#[trigger] path(root2, mem2, ty, v, l)) is Some && path(root2, mem2, ty, v, l)
            == #[trigger] path(root2, mem2, ty, w, m) implies l == m && same_prefix(v, w, l as int) by {
        lemma_tree_pair_after_new_table(root, mem, root2, mem2, ty, t, i, e, v, w, l, m);
    }
}

/// Setting an empty slot to a mapping of memory keeps the tables a tree.
proof fn lemma_tree_after_leaf<A: PhysAddrAccess>(
    root: PageTable,
    mem: PageTableMemory,
    root2: PageTable,
    mem2: PageTableMemory,
    ty: A,
    t: Option<int>,
    i: int,
    e: PageTableEntry,
)
    requires
        tree(root, mem, ty),
        slot_updated(root, mem, root2, mem2, t, i, e),
        mem2.tables@.len() == mem.tables@.len(),
        !entry_of(root, mem, t, i).is_valid(),
        e.is_leaf_entry(),
    ensures
        tree(root2, mem2, ty),
{
    reveal(tree);
    assert forall|v: u64, w: u64, l: nat, m: nat|
        l <= 3 && m <= 3 && (#[trigger] path(root2, mem2, ty, v, l)) is Some && path(root2, mem2, ty, v, l)
            == #[trigger] path(root2, mem2, ty, w, m) implies l == m && same_prefix(v, w, l as int) by {
        lemma_path_after_leaf(root, mem, root2, mem2, ty, t, i, e, v, l);
        lemma_path_after_leaf(root, mem, root2, mem2, ty, t, i, e, w, m);
    }
}

/// Fresh physical pages for new page tables, handed out from the end.
pub struct PageSource {
    pages: Vec<u64>,
}

impl PageSource {
    pub closed spec fn pages(&self) -> Seq<u64> {
        self.pages@
    }

    /// A source of the pages `pages`, the last one first.
    pub fn new(pages: Vec<u64>) -> (r: Self)
        ensures
            r.pages() == pages@,
    {
        PageSource { pages }
    }

    /// Pages left.
    pub fn len(&self) -> (r: usize)
        ensures
            r == self.pages().len(),
    {
        self.pages.len()
    }

    fn take(&mut self) -> (r: u64)
        requires
            old(self).pages().len() > 0,
        ensures
            r == old(self).pages().last(),
            final(self).pages() == old(self).pages().drop_last(),
    {
        self.pages.pop().unwrap()
    }
}

/// The pages of `pages` can hold new tables: page aligned, reached, not holding a
/// table and not pointed to, each reached at an address of its own.
#[verifier::opaque]
pub open spec fn fresh_pages<A: PhysAddrAccess>(root: PageTable, mem: PageTableMemory, ty: A, pages: Seq<u64>) -> bool {
    &&& forall|k: int|
        0 <= k < pages.len() ==> {
            &&& (#[trigger] pages[k]) % 0x1000 == 0
            &&& pages[k] < PHYS_LIMIT
            &&& ty.reaches(pages[k])
            &&& mem.find(ty.spec_access_addr(pages[k])) is None
            &&& unreferenced(root, mem, ty, pages[k])
        }
    &&& forall|j: int, k: int|
        0 <= j < k < pages.len() ==> ty.spec_access_addr(#[trigger] pages[j]) != ty.spec_access_addr(
            #[trigger] pages[k],
        )
}

/// A table as the executable code names it.
pub open spec fn tref(t: Option<usize>) -> Option<int> {
    match t {
        Some(k) => Some(k as int),
        None => None,
    }
}

/// Entry `i` of table `t`.
fn read_entry(root: &PageTable, mem: &PageTableMemory, t: Option<usize>, i: usize) -> (r: PageTableEntry)
    requires
        is_table_ref(*mem, tref(t)),
        i < 512,
    ensures
        r == entry_of(*root, *mem, tref(t), i as int),
{
    match t {
        None => root.entries[i],
        Some(k) => mem.tables[k].1.entries[i],
    }
}

/// Set entry `i` of table `t` to `e`.
fn write_entry(root: &mut PageTable, mem: &mut PageTableMemory, t: Option<usize>, i: usize, e: PageTableEntry)
    requires
        is_table_ref(*old(mem), tref(t)),
        i < 512,
    ensures
        slot_updated(*old(root), *old(mem), *final(root), *final(mem), tref(t), i as int, e),
        final(mem).tables@.len() == old(mem).tables@.len(),
{
    match t {
        None => {
            root.entries[i] = e;
        },
        Some(k) => {
            let (a, mut table) = mem.tables[k];
            table.entries[i] = e;
            mem.tables.set(k, (a, table));
        },
    }
    proof {
        let tt = tref(t);
        assert forall|u: Option<int>, j: int| is_table_ref(*old(mem), u) && 0 <= j < 512 implies #[trigger] entry_of(
            *root,
            *mem,
            u,
            j,
        ) == if u == tt && j == i {
            e
        } else {
            entry_of(*old(root), *old(mem), u, j)
        } by {
            match u {
                None => {},
                Some(k2) => {
                    if t is Some && k2 == t->0 {
                    } else {
                        assert(mem.tables@[k2] == old(mem).tables@[k2]);
                    }
                },
            }
        }
    }
}


/// Point the empty entry `i` of table `t` to a new empty table on a fresh page.
fn create_table_for_entry<A: PhysAddrAccess>(
    root: &mut PageTable,
    mem: &mut PageTableMemory,
    src: &mut PageSource,
    ty: A,
    t: Option<usize>,
    i: usize,
)
    requires
        is_table_ref(*old(mem), tref(t)),
        i < 512,
        !entry_of(*old(root), *old(mem), tref(t), i as int).is_valid(),
        old(src).pages().len() > 0,
        fresh_pages(*old(root), *old(mem), ty, old(src).pages()),
    ensures
        new_table_step(
            *old(root),
            *old(mem),
            *final(root),
            *final(mem),
            ty,
            tref(t),
            i as int,
            entry_of(*final(root), *final(mem), tref(t), i as int),
        ),
        entry_of(*final(root), *final(mem), tref(t), i as int).spec_addr() == old(src).pages().last(),
        final(src).pages() == old(src).pages().drop_last(),
        fresh_pages(*final(root), *final(mem), ty, final(src).pages()),
{
    reveal(fresh_pages);
    let ghost r0 = *root;
    let ghost m0 = *mem;
    let ghost pages = src.pages();
    let mut e = read_entry(root, mem, t, i);
    e.set_flags(PageFlags::from_bits_truncate(FLAG_VALID));
    let p = src.take();
    proof {
        assert(pages[pages.len() - 1] == p);
        assert(crate::addr::is_phys_canonical(p));
    }
    e.set_addr(PhysAddr::new(p));
    proof {
        assert(1u16 & 0xFFu16 == 1u16 && 1u16 & 1u16 == 1u16 && 1u16 & 0xEu16 == 0u16) by (bit_vector);
        assert(p % 0x1000 == 0);
    }
    let at = ty.phys_to_addr(e.addr());
    write_entry(root, mem, t, i, e);
    let ghost m1 = *mem;
    let ghost r1 = *root;
    mem.tables.push((at, PageTable::new()));
    proof {
        let n = m0.tables@.len() as int;
        let tt = tref(t);
        assert(mem.tables@[n].0 == at);
        assert forall|k: int| 0 <= k < n implies (#[trigger] mem.tables@[k]).0 == m0.tables@[k].0 by {
            assert(mem.tables@[k] == m1.tables@[k]);
        }
        assert forall|u: Option<int>, j: int| is_table_ref(m0, u) && 0 <= j < 512 implies #[trigger] entry_of(
            *root,
            *mem,
            u,
            j,
        ) == if u == tt && j == i {
            e
        } else {
            entry_of(r0, m0, u, j)
        } by {
            assert(entry_of(r1, m1, u, j) == entry_of(*root, *mem, u, j));
        }
        assert(slot_updated(r0, m0, *root, *mem, tt, i as int, e));
        assert(entry_of(*root, *mem, tt, i as int) == e);
        reveal(new_table_step);
        // the pages left are still fresh
        let rest = src.pages();
        assert forall|k: int| 0 <= k < rest.len() implies {
            &&& (#[trigger] rest[k]) % 0x1000 == 0
            &&& rest[k] < PHYS_LIMIT
            &&& ty.reaches(rest[k])
            &&& mem.find(ty.spec_access_addr(rest[k])) is None
            &&& unreferenced(*root, *mem, ty, rest[k])
        } by {
            assert(rest[k] == pages[k]);
            assert(ty.spec_access_addr(pages[k]) != ty.spec_access_addr(pages[pages.len() - 1]));
            lemma_find_extended(m0, *mem, ty.spec_access_addr(rest[k]));
            assert forall|u: Option<int>, j: int|
                is_table_ref(*mem, u) && 0 <= j < 512 && (#[trigger] entry_of(*root, *mem, u, j)).is_valid()
                    && !entry_of(*root, *mem, u, j).is_leaf_entry() && ty.reaches(
                    entry_of(*root, *mem, u, j).spec_addr(),
                ) implies ty.spec_access_addr(entry_of(*root, *mem, u, j).spec_addr()) != ty.spec_access_addr(
                rest[k],
            ) by {
                if u == Some(n) {
                    assert(entry_of(*root, *mem, u, j) == mem.tables@[n].1.entries@[j]);
                } else if u == tt && j == i {
                } else {
                    assert(entry_of(*root, *mem, u, j) == entry_of(r0, m0, u, j));
                }
            }
        }
        assert forall|j: int, k: int|
            0 <= j < k < rest.len() implies ty.spec_access_addr(#[trigger] rest[j]) != ty.spec_access_addr(
            #[trigger] rest[k],
        ) by {
            assert(rest[j] == pages[j] && rest[k] == pages[k]);
        }
    }
}


/// The walk of `w` stands at `level` before an empty slot.
pub open spec fn clean_at<A: PhysAddrAccess>(root: PageTable, mem: PageTableMemory, ty: A, w: u64, level: nat) -> bool {
    match path(root, mem, ty, w, level) {
        Some(t) => !entry_of(root, mem, t, spec_table_index(w, level as int)).is_valid(),
        None => false,
    }
}

/// The slot of `w` at `depth` is free: following table pointers, the walk of `w`
/// comes to an empty slot at `depth` or above.
pub open spec fn clean<A: PhysAddrAccess>(root: PageTable, mem: PageTableMemory, ty: A, w: u64, depth: nat) -> bool {
    exists|l: nat| l <= depth && #[trigger] clean_at(root, mem, ty, w, l)
}

/// Above `depth`, each valid entry on the walk of `w` is a pointer to a table that
/// is there.
#[verifier::opaque]
pub open spec fn walkable<A: PhysAddrAccess>(root: PageTable, mem: PageTableMemory, ty: A, w: u64, depth: nat) -> bool {
    forall|l: nat|
        l < depth && (#[trigger] path(root, mem, ty, w, l)) is Some && entry_of(
            root,
            mem,
            path(root, mem, ty, w, l)->0,
            spec_table_index(w, l as int),
        ).is_valid() ==> path(root, mem, ty, w, (l + 1) as nat) is Some
}

/// The mapping that the walk of `w` finds at `depth`, if it finds one there.
pub open spec fn leaf_at<A: PhysAddrAccess>(root: PageTable, mem: PageTableMemory, ty: A, w: u64, depth: nat) -> Option<
    PageTableEntry,
> {
    match path(root, mem, ty, w, depth) {
        Some(t) => {
            let e = entry_of(root, mem, t, spec_table_index(w, depth as int));
            if e.is_valid() && e.is_leaf_entry() {
                Some(e)
            } else {
                None
            }
        },
        None => None,
    }
}

/// The second memory keeps the tables of the first where they are, and every valid
/// entry of them.
#[verifier::opaque]
pub open spec fn kept(root: PageTable, mem: PageTableMemory, root2: PageTable, mem2: PageTableMemory) -> bool {
    &&& mem2.tables@.len() >= mem.tables@.len()
    &&& forall|k: int| 0 <= k < mem.tables@.len() ==> (#[trigger] mem2.tables@[k]).0 == mem.tables@[k].0
    &&& forall|u: Option<int>, j: int|
        is_table_ref(mem, u) && 0 <= j < 512 && (#[trigger] entry_of(root, mem, u, j)).is_valid() ==> entry_of(
            root2,
            mem2,
            u,
            j,
        ) == entry_of(root, mem, u, j)
}

/// A walk that stops before an empty slot goes nowhere further.
proof fn lemma_clean_at_unique<A: PhysAddrAccess>(
    root: PageTable,
    mem: PageTableMemory,
    ty: A,
    w: u64,
    l: nat,
    m: nat,
)
    requires
        clean_at(root, mem, ty, w, l),
        path(root, mem, ty, w, m) is Some,
    ensures
        m <= l,
        m == l ==> clean_at(root, mem, ty, w, m),
    decreases m,
{
    if m > l {
        if m == l + 1 {
        } else {
            lemma_clean_at_unique(root, mem, ty, w, l, (m - 1) as nat);
        }
    }
}

/// A new table on the walk of `at` at `level` keeps the slot of `w` free, unless it
/// takes the slot of `w` itself.
proof fn lemma_clean_after_new_table<A: PhysAddrAccess>(
    root: PageTable,
    mem: PageTableMemory,
    root2: PageTable,
    mem2: PageTableMemory,
    ty: A,
    t: Option<int>,
    i: int,
    e: PageTableEntry,
    at: u64,
    level: nat,
    w: u64,
    d: nat,
)
    requires
        tree(root, mem, ty),
        new_table_step(root, mem, root2, mem2, ty, t, i, e),
        level < 3,
        path(root, mem, ty, at, level) == Some(t),
        i == spec_table_index(at, level as int),
        clean(root, mem, ty, w, d),
        d <= 3,
        d == level ==> !same_prefix(w, at, level + 1int),
    ensures
        clean(root2, mem2, ty, w, d),
{
    let l = choose|l: nat| l <= d && #[trigger] clean_at(root, mem, ty, w, l);
    if path(root, mem, ty, w, l) == Some(t) && spec_table_index(w, l as int) == i {
        // the walk of `w` came to the slot just taken
        lemma_tree_instance(root, mem, ty, w, at, l, level);
        lemma_prefix_extend(w, at, level as int);
        lemma_clean_moves_on(root, mem, root2, mem2, ty, t, i, e, w, l);
        lemma_clean_intro(root2, mem2, ty, w, d, (l + 1) as nat);
    } else {
        lemma_clean_stays(root, mem, root2, mem2, ty, t, i, e, w, l);
        lemma_clean_intro(root2, mem2, ty, w, d, l);
    }
}

proof fn lemma_clean_intro<A: PhysAddrAccess>(root: PageTable, mem: PageTableMemory, ty: A, w: u64, d: nat, l: nat)
    requires
        l <= d,
        clean_at(root, mem, ty, w, l),
    ensures
        clean(root, mem, ty, w, d),
{
}

/// Agreeing on the indices above `n` and at `n` is agreeing on those above `n + 1`.
proof fn lemma_prefix_extend(v: u64, w: u64, n: int)
    requires
        same_prefix(v, w, n),
        spec_table_index(v, n) == spec_table_index(w, n),
    ensures
        same_prefix(v, w, n + 1),
{
    assert forall|k: int| 0 <= k < n + 1 implies #[trigger] spec_table_index(v, k) == spec_table_index(w, k) by {
        if k < n {
            assert(same_prefix(v, w, n));
        }
    }
}

/// A walk that stood before the slot that now points to a new table stands before an
/// empty slot of the new table.
proof fn lemma_clean_moves_on<A: PhysAddrAccess>(
    root: PageTable,
    mem: PageTableMemory,
    root2: PageTable,
    mem2: PageTableMemory,
    ty: A,
    t: Option<int>,
    i: int,
    e: PageTableEntry,
    w: u64,
    l: nat,
)
    requires
        new_table_step(root, mem, root2, mem2, ty, t, i, e),
        l < 3,
        path(root, mem, ty, w, l) == Some(t),
        spec_table_index(w, l as int) == i,
    ensures
        clean_at(root2, mem2, ty, w, (l + 1) as nat),
{
    reveal(new_table_step);
    let l1 = (l + 1) as nat;
    lemma_path_after_new_table(root, mem, root2, mem2, ty, t, i, e, w, l1);
    let n = mem.tables@.len() as int;
    crate::addr::lemma_table_index_range(w, l1 as int);
    let idx = spec_table_index(w, l1 as int);
    assert(entry_of(root2, mem2, Some(n), idx) == mem2.tables@[n].1.entries@[idx]);
}

/// A walk that stood before another empty slot still does.
proof fn lemma_clean_stays<A: PhysAddrAccess>(
    root: PageTable,
    mem: PageTableMemory,
    root2: PageTable,
    mem2: PageTableMemory,
    ty: A,
    t: Option<int>,
    i: int,
    e: PageTableEntry,
    w: u64,
    l: nat,
)
    requires
        new_table_step(root, mem, root2, mem2, ty, t, i, e),
        l <= 3,
        clean_at(root, mem, ty, w, l),
        !(path(root, mem, ty, w, l) == Some(t) && spec_table_index(w, l as int) == i),
    ensures
        clean_at(root2, mem2, ty, w, l),
{
    reveal(new_table_step);
    let u = path(root, mem, ty, w, l)->0;
    let iw = spec_table_index(w, l as int);
    lemma_path_ref(root, mem, ty, w, l);
    crate::addr::lemma_table_index_range(w, l as int);
    lemma_path_after_new_table(root, mem, root2, mem2, ty, t, i, e, w, l);
    if l >= 1 && path(root, mem, ty, w, (l - 1) as nat) == Some(t) && spec_table_index(w, l - 1) == i {
        assert(!entry_of(root, mem, t, i).is_valid());
        assert(path(root, mem, ty, w, l) is None);
    }
    assert(path(root2, mem2, ty, w, l) == Some(u));
    assert(entry_of(root2, mem2, u, iw) == entry_of(root, mem, u, iw));
}

/// A new table in an empty slot keeps every mapping that a walk finds.
proof fn lemma_leaf_after_new_table<A: PhysAddrAccess>(
    root: PageTable,
    mem: PageTableMemory,
    root2: PageTable,
    mem2: PageTableMemory,
    ty: A,
    t: Option<int>,
    i: int,
    e: PageTableEntry,
    w: u64,
    d: nat,
)
    requires
        new_table_step(root, mem, root2, mem2, ty, t, i, e),
        d <= 3,
        leaf_at(root, mem, ty, w, d) is Some,
    ensures
        leaf_at(root2, mem2, ty, w, d) == leaf_at(root, mem, ty, w, d),
{
    reveal(new_table_step);
    lemma_path_keeps_valid_walk(root, mem, root2, mem2, ty, t, i, e, w, d);
    let u = path(root, mem, ty, w, d)->0;
    lemma_path_ref(root, mem, ty, w, d);
    crate::addr::lemma_table_index_range(w, d as int);
    let iw = spec_table_index(w, d as int);
    assert(entry_of(root2, mem2, u, iw) == entry_of(root, mem, u, iw));
}

/// A walk that gets to `d` in the first memory gets there the same way in the second.
proof fn lemma_path_keeps_valid_walk<A: PhysAddrAccess>(
    root: PageTable,
    mem: PageTableMemory,
    root2: PageTable,
    mem2: PageTableMemory,
    ty: A,
    t: Option<int>,
    i: int,
    e: PageTableEntry,
    w: u64,
    d: nat,
)
    requires
        new_table_step(root, mem, root2, mem2, ty, t, i, e),
        d <= 3,
        path(root, mem, ty, w, d) is Some,
    ensures
        path(root2, mem2, ty, w, d) == path(root, mem, ty, w, d),
    decreases d,
{
    reveal(new_table_step);
    lemma_path_after_new_table(root, mem, root2, mem2, ty, t, i, e, w, d);
    if d >= 1 {
        let pd = (d - 1) as nat;
        if path(root, mem, ty, w, pd) == Some(t) && spec_table_index(w, pd as int) == i {
            assert(path(root, mem, ty, w, d) is None);
        }
    }
}

/// A new table on the walk of `at` at `level` keeps the walk of `at` to `depth`
/// through tables, and now goes on to the new table.
proof fn lemma_walkable_after_new_table<A: PhysAddrAccess>(
    root: PageTable,
    mem: PageTableMemory,
    root2: PageTable,
    mem2: PageTableMemory,
    ty: A,
    t: Option<int>,
    i: int,
    e: PageTableEntry,
    at: u64,
    level: nat,
    depth: nat,
)
    requires
        tree(root, mem, ty),
        new_table_step(root, mem, root2, mem2, ty, t, i, e),
        level < depth <= 3,
        path(root, mem, ty, at, level) == Some(t),
        i == spec_table_index(at, level as int),
        walkable(root, mem, ty, at, depth),
    ensures
        walkable(root2, mem2, ty, at, depth),
        path(root2, mem2, ty, at, level + 1) == Some(Some(mem.tables@.len() as int)),
        forall|m: nat| m <= level ==> #[trigger] path(root2, mem2, ty, at, m) == path(root, mem, ty, at, m),
{
    reveal(walkable);
    reveal(new_table_step);
    let n = mem.tables@.len() as int;
    assert forall|m: nat| m <= level implies #[trigger] path(root2, mem2, ty, at, m) == path(root, mem, ty, at, m) by {
        lemma_path_after_new_table(root, mem, root2, mem2, ty, t, i, e, at, m);
        if m >= 1 && path(root, mem, ty, at, (m - 1) as nat) == Some(t) {
            lemma_tree_instance(root, mem, ty, at, at, (m - 1) as nat, level);
        }
    }
    lemma_path_after_new_table(root, mem, root2, mem2, ty, t, i, e, at, level + 1);
    assert forall|l: nat|
        l < depth && (#[trigger] path(root2, mem2, ty, at, l)) is Some && entry_of(
            root2,
            mem2,
            path(root2, mem2, ty, at, l)->0,
            spec_table_index(at, l as int),
        ).is_valid() implies path(root2, mem2, ty, at, (l + 1) as nat) is Some by {
        lemma_path_after_new_table(root, mem, root2, mem2, ty, t, i, e, at, l);
        lemma_path_after_new_table(root, mem, root2, mem2, ty, t, i, e, at, (l + 1) as nat);
        lemma_path_ref(root, mem, ty, at, l);
        crate::addr::lemma_table_index_range(at, l as int);
        if l < level {
            let u = path(root, mem, ty, at, l)->0;
            assert(path(root2, mem2, ty, at, l) == Some(u));
            if u == t {
                lemma_tree_instance(root, mem, ty, at, at, l, level);
            }
            assert(entry_of(root2, mem2, u, spec_table_index(at, l as int)) == entry_of(
                root,
                mem,
                u,
                spec_table_index(at, l as int),
            ));
            if l + 1 <= level {
                assert(path(root2, mem2, ty, at, (l + 1) as nat) == path(root, mem, ty, at, (l + 1) as nat));
            }
        } else if l == level {
        } else if l == level + 1 {
            let idx = spec_table_index(at, l as int);
            assert(entry_of(root2, mem2, Some(n), idx) == mem2.tables@[n].1.entries@[idx]);
        } else {
            assert(path(root, mem, ty, at, (level + 1) as nat) is None);
            lemma_path_none_after(root, mem, ty, at, (level + 1) as nat, (l - 1) as nat);
            lemma_path_after_new_table(root, mem, root2, mem2, ty, t, i, e, at, (l - 1) as nat);
            lemma_path_after_new_table(root, mem, root2, mem2, ty, t, i, e, at, (level + 1) as nat);
            let idx = spec_table_index(at, (level + 1) as int);
            crate::addr::lemma_table_index_range(at, (level + 1) as int);
            assert(entry_of(root2, mem2, Some(n), idx) == mem2.tables@[n].1.entries@[idx]);
            assert(path(root2, mem2, ty, at, (level + 2) as nat) is None);
            lemma_path_none_after(root2, mem2, ty, at, (level + 2) as nat, l);
        }
    }
}

/// A walk that stops goes no further.
proof fn lemma_path_none_after<A: PhysAddrAccess>(
    root: PageTable,
    mem: PageTableMemory,
    ty: A,
    w: u64,
    l: nat,
    m: nat,
)
    requires
        path(root, mem, ty, w, l) is None,
        l <= m,
    ensures
        path(root, mem, ty, w, m) is None,
    decreases m - l,
{
    if l < m {
        lemma_path_none_after(root, mem, ty, w, l, (m - 1) as nat);
    }
}


/// A new table in an empty slot keeps the tables and their valid entries.
proof fn lemma_kept_after_new_table<A: PhysAddrAccess>(
    root: PageTable,
    mem: PageTableMemory,
    root2: PageTable,
    mem2: PageTableMemory,
    ty: A,
    t: Option<int>,
    i: int,
    e: PageTableEntry,
)
    requires
        new_table_step(root, mem, root2, mem2, ty, t, i, e),
    ensures
        kept(root, mem, root2, mem2),
{
    reveal(kept);
    reveal(new_table_step);
}

proof fn lemma_kept_trans(
    r1: PageTable,
    m1: PageTableMemory,
    r2: PageTable,
    m2: PageTableMemory,
    r3: PageTable,
    m3: PageTableMemory,
)
    requires
        kept(r1, m1, r2, m2),
        kept(r2, m2, r3, m3),
    ensures
        kept(r1, m1, r3, m3),
{
    reveal(kept);
    assert forall|u: Option<int>, j: int|
        is_table_ref(m1, u) && 0 <= j < 512 && (#[trigger] entry_of(r1, m1, u, j)).is_valid() implies entry_of(
        r3,
        m3,
        u,
        j,
    ) == entry_of(r1, m1, u, j) by {
        assert(entry_of(r2, m2, u, j) == entry_of(r1, m1, u, j));
        assert(is_table_ref(m2, u));
    }
}

/// What holds while [`create_entry`] walks down: the walk of `at` stands in table `t`
/// at `level`, and the memory is still a tree over fresh pages that keeps what it had.
#[verifier::opaque]
pub open spec fn create_inv_core<A: PhysAddrAccess>(
    r0: PageTable,
    m0: PageTableMemory,
    s0: Seq<u64>,
    root: PageTable,
    mem: PageTableMemory,
    pages: Seq<u64>,
    ty: A,
    at: u64,
    depth: nat,
    level: nat,
    t: Option<int>,
) -> bool {
    &&& level <= depth <= 3
    &&& path(root, mem, ty, at, level) == Some(t)
    &&& tree(root, mem, ty)
    &&& fresh_pages(root, mem, ty, pages)
    &&& pages.len() + level >= s0.len()
    &&& pages.len() <= s0.len()
    &&& s0.len() >= depth
    &&& pages == s0.subrange(0, pages.len() as int)
    &&& walkable(root, mem, ty, at, depth)
    &&& kept(r0, m0, root, mem)
}

/// ... and the slots of `others` are still free, and the mappings found before are
/// still found.
#[verifier::opaque]
pub open spec fn create_inv_frame<A: PhysAddrAccess>(
    r0: PageTable,
    m0: PageTableMemory,
    root: PageTable,
    mem: PageTableMemory,
    ty: A,
    at: u64,
    depth: nat,
    others: Seq<(u64, nat)>,
) -> bool {
    &&& forall|k: int|
        0 <= k < others.len() ==> {
            &&& (#[trigger] others[k]).1 <= 3
            &&& clean(root, mem, ty, others[k].0, others[k].1)
            &&& others[k].1 < depth ==> !same_prefix(others[k].0, at, others[k].1 + 1int)
        }
    &&& clean(r0, m0, ty, at, depth) ==> clean(root, mem, ty, at, depth)
    &&& forall|w: u64, d: nat|
        d <= 3 && (#[trigger] leaf_at(r0, m0, ty, w, d)) is Some ==> leaf_at(root, mem, ty, w, d) == leaf_at(
            r0,
            m0,
            ty,
            w,
            d,
        )
}

pub open spec fn create_inv<A: PhysAddrAccess>(
    r0: PageTable,
    m0: PageTableMemory,
    s0: Seq<u64>,
    root: PageTable,
    mem: PageTableMemory,
    pages: Seq<u64>,
    ty: A,
    at: u64,
    depth: nat,
    level: nat,
    t: Option<int>,
    others: Seq<(u64, nat)>,
) -> bool {
    &&& create_inv_core(r0, m0, s0, root, mem, pages, ty, at, depth, level, t)
    &&& create_inv_frame(r0, m0, root, mem, ty, at, depth, others)
}

proof fn lemma_create_inv_start<A: PhysAddrAccess>(
    r0: PageTable,
    m0: PageTableMemory,
    s0: Seq<u64>,
    ty: A,
    at: u64,
    depth: nat,
    others: Seq<(u64, nat)>,
)
    requires
        depth <= 3,
        tree(r0, m0, ty),
        fresh_pages(r0, m0, ty, s0),
        s0.len() >= depth,
        walkable(r0, m0, ty, at, depth),
        forall|k: int|
            0 <= k < others.len() ==> {
                &&& (#[trigger] others[k]).1 <= 3
                &&& clean(r0, m0, ty, others[k].0, others[k].1)
                &&& others[k].1 < depth ==> !same_prefix(others[k].0, at, others[k].1 + 1int)
            },
    ensures
        create_inv(r0, m0, s0, r0, m0, s0, ty, at, depth, 0, None, others),
{
    reveal(create_inv_core);
    reveal(create_inv_frame);
    reveal(kept);
    assert(s0 =~= s0.subrange(0, s0.len() as int));
    assert forall|u: Option<int>, j: int|
        is_table_ref(m0, u) && 0 <= j < 512 && (#[trigger] entry_of(r0, m0, u, j)).is_valid() implies entry_of(
        r0,
        m0,
        u,
        j,
    ) == entry_of(r0, m0, u, j) by {}
}

/// One level down by creating the missing table.
proof fn lemma_create_inv_new_table<A: PhysAddrAccess>(
    r0: PageTable,
    m0: PageTableMemory,
    s0: Seq<u64>,
    rb: PageTable,
    mb: PageTableMemory,
    sb: Seq<u64>,
    root: PageTable,
    mem: PageTableMemory,
    pages: Seq<u64>,
    ty: A,
    at: u64,
    depth: nat,
    level: nat,
    t: Option<int>,
    i: int,
    others: Seq<(u64, nat)>,
)
    requires
        create_inv(r0, m0, s0, rb, mb, sb, ty, at, depth, level, t, others),
        level < depth,
        i == spec_table_index(at, level as int),
        new_table_step(rb, mb, root, mem, ty, t, i, entry_of(root, mem, t, i)),
        pages == sb.drop_last(),
        sb.len() > 0,
        fresh_pages(root, mem, ty, pages),
    ensures
        create_inv(r0, m0, s0, root, mem, pages, ty, at, depth, level + 1, Some(mb.tables@.len() as int), others),
{
    assert(path(rb, mb, ty, at, level) == Some(t) && tree(rb, mb, ty) && level <= depth <= 3 && sb.len() + level
        >= s0.len() && sb.len() <= s0.len() && s0.len() >= depth && sb == s0.subrange(0, sb.len() as int) && walkable(rb, mb, ty, at, depth)
        && kept(r0, m0, rb, mb)) by {
        reveal(create_inv_core);
    }
    lemma_create_core_new_table(r0, m0, s0, rb, mb, sb, root, mem, pages, ty, at, depth, level, t, i);
    lemma_create_frame_new_table(r0, m0, rb, mb, root, mem, ty, at, depth, level, t, i, others);
}

proof fn lemma_create_core_new_table<A: PhysAddrAccess>(
    r0: PageTable,
    m0: PageTableMemory,
    s0: Seq<u64>,
    rb: PageTable,
    mb: PageTableMemory,
    sb: Seq<u64>,
    root: PageTable,
    mem: PageTableMemory,
    pages: Seq<u64>,
    ty: A,
    at: u64,
    depth: nat,
    level: nat,
    t: Option<int>,
    i: int,
)
    requires
        level < depth <= 3,
        path(rb, mb, ty, at, level) == Some(t),
        tree(rb, mb, ty),
        sb.len() + level >= s0.len(),
        sb.len() <= s0.len(),
        s0.len() >= depth,
        sb == s0.subrange(0, sb.len() as int),
        walkable(rb, mb, ty, at, depth),
        kept(r0, m0, rb, mb),
        i == spec_table_index(at, level as int),
        new_table_step(rb, mb, root, mem, ty, t, i, entry_of(root, mem, t, i)),
        pages == sb.drop_last(),
        sb.len() > 0,
        fresh_pages(root, mem, ty, pages),
    ensures
        create_inv_core(r0, m0, s0, root, mem, pages, ty, at, depth, level + 1, Some(mb.tables@.len() as int)),
{
    reveal(create_inv_core);
    let en = entry_of(root, mem, t, i);
    lemma_walkable_after_new_table(rb, mb, root, mem, ty, t, i, en, at, level, depth);
    lemma_tree_after_new_table(rb, mb, root, mem, ty, t, i, en);
    lemma_kept_after_new_table(rb, mb, root, mem, ty, t, i, en);
    lemma_kept_trans(r0, m0, rb, mb, root, mem);
    assert(pages =~= s0.subrange(0, pages.len() as int));
}

proof fn lemma_create_frame_new_table<A: PhysAddrAccess>(
    r0: PageTable,
    m0: PageTableMemory,
    rb: PageTable,
    mb: PageTableMemory,
    root: PageTable,
    mem: PageTableMemory,
    ty: A,
    at: u64,
    depth: nat,
    level: nat,
    t: Option<int>,
    i: int,
    others: Seq<(u64, nat)>,
)
    requires
        create_inv_frame(r0, m0, rb, mb, ty, at, depth, others),
        tree(rb, mb, ty),
        level < depth <= 3,
        path(rb, mb, ty, at, level) == Some(t),
        i == spec_table_index(at, level as int),
        new_table_step(rb, mb, root, mem, ty, t, i, entry_of(root, mem, t, i)),
    ensures
        create_inv_frame(r0, m0, root, mem, ty, at, depth, others),
{
    reveal(create_inv_frame);
    let en = entry_of(root, mem, t, i);
    assert forall|k: int| 0 <= k < others.len() implies {
        &&& (#[trigger] others[k]).1 <= 3
        &&& clean(root, mem, ty, others[k].0, others[k].1)
        &&& others[k].1 < depth ==> !same_prefix(others[k].0, at, others[k].1 + 1int)
    } by {
        lemma_clean_after_new_table(rb, mb, root, mem, ty, t, i, en, at, level, others[k].0, others[k].1);
    }
    if clean(r0, m0, ty, at, depth) {
        lemma_clean_after_new_table(rb, mb, root, mem, ty, t, i, en, at, level, at, depth);
    }
    assert forall|w: u64, d: nat|
        d <= 3 && (#[trigger] leaf_at(r0, m0, ty, w, d)) is Some implies leaf_at(root, mem, ty, w, d) == leaf_at(
        r0,
        m0,
        ty,
        w,
        d,
    ) by {
        lemma_leaf_after_new_table(rb, mb, root, mem, ty, t, i, en, w, d);
    }
}

/// One level down by following the table pointer that is there.
proof fn lemma_create_inv_follow<A: PhysAddrAccess>(
    r0: PageTable,
    m0: PageTableMemory,
    s0: Seq<u64>,
    root: PageTable,
    mem: PageTableMemory,
    pages: Seq<u64>,
    ty: A,
    at: u64,
    depth: nat,
    level: nat,
    t: Option<int>,
    k: int,
    others: Seq<(u64, nat)>,
)
    requires
        create_inv(r0, m0, s0, root, mem, pages, ty, at, depth, level, t, others),
        level < depth,
        path(root, mem, ty, at, level + 1) == Some(Some(k)),
    ensures
        create_inv(r0, m0, s0, root, mem, pages, ty, at, depth, level + 1, Some(k), others),
{
    reveal(create_inv_core);
}

/// The entry of `at` at `depth`: the tables missing above it are created, each on a
/// fresh page; the walk follows the table pointers that are there. The slots of the
/// addresses `others` stay free.
fn create_entry<A: PhysAddrAccess>(
    root: &mut PageTable,
    mem: &mut PageTableMemory,
    src: &mut PageSource,
    ty: A,
    at: VirtAddr,
    depth: usize,
    Ghost(others): Ghost<Seq<(u64, nat)>>,
) -> (r: (Option<usize>, usize))
    requires
        depth <= 3,
        tree(*old(root), *old(mem), ty),
        fresh_pages(*old(root), *old(mem), ty, old(src).pages()),
        old(src).pages().len() >= depth,
        walkable(*old(root), *old(mem), ty, at@, depth as nat),
        forall|k: int|
            0 <= k < others.len() ==> {
                &&& (#[trigger] others[k]).1 <= 3
                &&& clean(*old(root), *old(mem), ty, others[k].0, others[k].1)
                &&& others[k].1 < depth ==> !same_prefix(others[k].0, at@, others[k].1 + 1int)
            },
    ensures
        r.1 == spec_table_index(at@, depth as int),
        r.1 < 512,
        path(*final(root), *final(mem), ty, at@, depth as nat) == Some(tref(r.0)),
        is_table_ref(*final(mem), tref(r.0)),
        clean(*old(root), *old(mem), ty, at@, depth as nat) ==> !entry_of(
            *final(root),
            *final(mem),
            tref(r.0),
            r.1 as int,
        ).is_valid(),
        tree(*final(root), *final(mem), ty),
        fresh_pages(*final(root), *final(mem), ty, final(src).pages()),
        final(src).pages().len() + depth >= old(src).pages().len(),
        final(src).pages().len() <= old(src).pages().len(),
        final(src).pages() == old(src).pages().subrange(0, final(src).pages().len() as int),
        kept(*old(root), *old(mem), *final(root), *final(mem)),
        forall|k: int|
            0 <= k < others.len() ==> clean(*final(root), *final(mem), ty, (#[trigger] others[k]).0, others[k].1),
        forall|w: u64, d: nat|
            d <= 3 && (#[trigger] leaf_at(*old(root), *old(mem), ty, w, d)) is Some ==> leaf_at(
                *final(root),
                *final(mem),
                ty,
                w,
                d,
            ) == leaf_at(*old(root), *old(mem), ty, w, d),
{
    let ghost r0 = *root;
    let ghost m0 = *mem;
    let ghost s0 = src.pages();
    let indices = at.table_indices();
    let mut t: Option<usize> = None;
    let mut l: usize = 0;
    proof {
        lemma_create_inv_start(r0, m0, s0, ty, at@, depth as nat, others);
    }
    while l < depth
        invariant
            l <= depth <= 3,
            forall|k: int| 0 <= k < 4 ==> #[trigger] indices@[k] as int == spec_table_index(at@, k),
            forall|k: int| 0 <= k < 4 ==> #[trigger] indices@[k] < 512,
            create_inv(r0, m0, s0, *root, *mem, src.pages(), ty, at@, depth as nat, l as nat, tref(t), others),
        decreases depth - l,
    {
        assert(path(*root, *mem, ty, at@, l as nat) == Some(tref(t)) && walkable(*root, *mem, ty, at@, depth as nat)
            && fresh_pages(*root, *mem, ty, src.pages()) && src.pages().len() + l >= s0.len() && s0.len() >= depth)
            by {
            reveal(create_inv_core);
        }
        proof {
            lemma_path_ref(*root, *mem, ty, at@, l as nat);
        }
        let idx = indices[l];
        let e = read_entry(root, mem, t, idx);
        proof {
            crate::page_table::lemma_valid_flag(e.spec_flags());
        }
        if !e.flags().contains(PageFlags::from_bits_truncate(FLAG_VALID)) {
            // the next table is missing: create it
            let ghost rb = *root;
            let ghost mb = *mem;
            let ghost sb = src.pages();
            create_table_for_entry(root, mem, src, ty, t, idx);
            proof {
                lemma_create_inv_new_table(
                    r0,
                    m0,
                    s0,
                    rb,
                    mb,
                    sb,
                    *root,
                    *mem,
                    src.pages(),
                    ty,
                    at@,
                    depth as nat,
                    l as nat,
                    tref(t),
                    idx as int,
                    others,
                );
                reveal(new_table_step);
            }
            t = Some(mem.tables.len() - 1);
        } else {
            // follow the table pointer
            proof {
                reveal(walkable);
                assert(path(*root, *mem, ty, at@, (l + 1) as nat) is Some);
                lemma_find_props(*mem, ty.spec_access_addr(e.spec_addr()));
            }
            let a = ty.phys_to_addr(e.addr());
            match mem.lookup(a) {
                Some(k) => {
                    proof {
                        lemma_create_inv_follow(
                            r0,
                            m0,
                            s0,
                            *root,
                            *mem,
                            src.pages(),
                            ty,
                            at@,
                            depth as nat,
                            l as nat,
                            tref(t),
                            k as int,
                            others,
                        );
                    }
                    t = Some(k);
                },
                None => {
                    proof {
                        assert(false);
                    }
                },
            }
        }
        l = l + 1;
    }
    proof {
        reveal(create_inv_core);
        reveal(create_inv_frame);
        lemma_path_ref(*root, *mem, ty, at@, depth as nat);
        if clean(r0, m0, ty, at@, depth as nat) {
            let w = choose|w: nat| w <= depth && #[trigger] clean_at(*root, *mem, ty, at@, w);
            lemma_clean_at_unique(*root, *mem, ty, at@, w, depth as nat);
        }
    }
    (t, indices[depth])
}


/// The conditions under which an empty slot on the walk of `v` at `depth` becomes a
/// mapping of memory.
#[verifier::opaque]
pub open spec fn leaf_step<A: PhysAddrAccess>(
    root: PageTable,
    mem: PageTableMemory,
    root2: PageTable,
    mem2: PageTableMemory,
    ty: A,
    v: u64,
    depth: nat,
    e: PageTableEntry,
) -> bool {
    &&& depth <= 3
    &&& path(root, mem, ty, v, depth) is Some
    &&& slot_updated(root, mem, root2, mem2, path(root, mem, ty, v, depth)->0, spec_table_index(v, depth as int), e)
    &&& mem2.tables@.len() == mem.tables@.len()
    &&& !entry_of(root, mem, path(root, mem, ty, v, depth)->0, spec_table_index(v, depth as int)).is_valid()
    &&& e.is_valid()
    &&& e.is_leaf_entry()
}

/// A mapping in an empty slot keeps the tables a tree over fresh pages, keeps the
/// tables and their valid entries, and is found by the walk of `v`.
proof fn lemma_after_leaf<A: PhysAddrAccess>(
    root: PageTable,
    mem: PageTableMemory,
    root2: PageTable,
    mem2: PageTableMemory,
    ty: A,
    v: u64,
    depth: nat,
    e: PageTableEntry,
    pages: Seq<u64>,
)
    requires
        leaf_step(root, mem, root2, mem2, ty, v, depth, e),
        tree(root, mem, ty),
        fresh_pages(root, mem, ty, pages),
    ensures
        tree(root2, mem2, ty),
        fresh_pages(root2, mem2, ty, pages),
        kept(root, mem, root2, mem2),
        leaf_at(root2, mem2, ty, v, depth) == Some(e),
{
    reveal(leaf_step);
    reveal(kept);
    reveal(fresh_pages);
    let t = path(root, mem, ty, v, depth)->0;
    let i = spec_table_index(v, depth as int);
    lemma_path_ref(root, mem, ty, v, depth);
    crate::addr::lemma_table_index_range(v, depth as int);
    lemma_tree_after_leaf(root, mem, root2, mem2, ty, t, i, e);
    lemma_path_after_leaf(root, mem, root2, mem2, ty, t, i, e, v, depth);
    assert forall|k: int| 0 <= k < pages.len() implies mem2.find(ty.spec_access_addr(#[trigger] pages[k])) is None
        && unreferenced(root2, mem2, ty, pages[k]) by {
        lemma_find_extended(mem, mem2, ty.spec_access_addr(pages[k]));
        assert forall|u: Option<int>, j: int|
            is_table_ref(mem2, u) && 0 <= j < 512 && (#[trigger] entry_of(root2, mem2, u, j)).is_valid()
                && !entry_of(root2, mem2, u, j).is_leaf_entry() && ty.reaches(entry_of(root2, mem2, u, j).spec_addr())
                implies ty.spec_access_addr(entry_of(root2, mem2, u, j).spec_addr()) != ty.spec_access_addr(pages[k]) by {
            assert(is_table_ref(mem, u));
        }
    }
}

/// A mapping in the slot of `v` at `depth` keeps the slot of `w` free when their
/// regions differ, and keeps every mapping found before.
proof fn lemma_frame_after_leaf<A: PhysAddrAccess>(
    root: PageTable,
    mem: PageTableMemory,
    root2: PageTable,
    mem2: PageTableMemory,
    ty: A,
    v: u64,
    depth: nat,
    e: PageTableEntry,
    w: u64,
    d: nat,
)
    requires
        leaf_step(root, mem, root2, mem2, ty, v, depth, e),
        tree(root, mem, ty),
        d <= 3,
    ensures
        clean(root, mem, ty, w, d) && (depth <= d ==> !same_prefix(w, v, depth + 1int)) ==> clean(
            root2,
            mem2,
            ty,
            w,
            d,
        ),
        leaf_at(root, mem, ty, w, d) is Some ==> leaf_at(root2, mem2, ty, w, d) == leaf_at(root, mem, ty, w, d),
{
    reveal(leaf_step);
    let t = path(root, mem, ty, v, depth)->0;
    let i = spec_table_index(v, depth as int);
    if clean(root, mem, ty, w, d) && (depth <= d ==> !same_prefix(w, v, depth + 1int)) {
        let l = choose|l: nat| l <= d && #[trigger] clean_at(root, mem, ty, w, l);
        lemma_path_after_leaf(root, mem, root2, mem2, ty, t, i, e, w, l);
        lemma_path_ref(root, mem, ty, w, l);
        crate::addr::lemma_table_index_range(w, l as int);
        let u = path(root, mem, ty, w, l)->0;
        let iw = spec_table_index(w, l as int);
        if u == t && iw == i {
            lemma_tree_instance(root, mem, ty, w, v, l, depth);
            lemma_prefix_extend(w, v, depth as int);
        }
        assert(entry_of(root2, mem2, u, iw) == entry_of(root, mem, u, iw));
        lemma_clean_intro(root2, mem2, ty, w, d, l);
    }
    if leaf_at(root, mem, ty, w, d) is Some {
        lemma_path_after_leaf(root, mem, root2, mem2, ty, t, i, e, w, d);
        lemma_path_ref(root, mem, ty, w, d);
        crate::addr::lemma_table_index_range(w, d as int);
    }
}

/// A free slot can be walked to: the valid entries above it point to tables.
proof fn lemma_clean_walkable<A: PhysAddrAccess>(root: PageTable, mem: PageTableMemory, ty: A, w: u64, d: nat)
    requires
        clean(root, mem, ty, w, d),
    ensures
        walkable(root, mem, ty, w, d),
{
    reveal(walkable);
    let l0 = choose|l: nat| l <= d && #[trigger] clean_at(root, mem, ty, w, l);
    assert forall|l: nat|
        l < d && (#[trigger] path(root, mem, ty, w, l)) is Some && entry_of(
            root,
            mem,
            path(root, mem, ty, w, l)->0,
            spec_table_index(w, l as int),
        ).is_valid() implies path(root, mem, ty, w, (l + 1) as nat) is Some by {
        lemma_clean_at_unique(root, mem, ty, w, l0, l);
        if l == l0 {
        } else {
            lemma_path_some_before(root, mem, ty, w, (l + 1) as nat, l0);
        }
    }
}

/// A walk that gets to a level got to each level above it.
proof fn lemma_path_some_before<A: PhysAddrAccess>(root: PageTable, mem: PageTableMemory, ty: A, w: u64, l: nat, m: nat)
    requires
        l <= m,
        path(root, mem, ty, w, m) is Some,
    ensures
        path(root, mem, ty, w, l) is Some,
    decreases m - l,
{
    if l < m {
        lemma_path_some_before(root, mem, ty, w, l, (m - 1) as nat);
    }
}

/// A mapping that the walk of `v` finds at `depth` is what the walk of the page
/// tables gives for `v`.
pub proof fn lemma_walk_finds_leaf<A: PhysAddrAccess>(
    root: PageTable,
    mem: PageTableMemory,
    ty: A,
    v: u64,
    depth: nat,
    e: PageTableEntry,
)
    requires
        depth <= 3,
        leaf_at(root, mem, ty, v, depth) == Some(e),
    ensures
        walk_from(root, mem, ty, v, 0) == Some((Some(e.spec_addr()), e.spec_flags())),
{
    lemma_walk_from_level(root, mem, ty, v, depth, e, 0);
    assert(path(root, mem, ty, v, 0) == Some(None::<int>));
}

proof fn lemma_walk_from_level<A: PhysAddrAccess>(
    root: PageTable,
    mem: PageTableMemory,
    ty: A,
    v: u64,
    depth: nat,
    e: PageTableEntry,
    l: nat,
)
    requires
        depth <= 3,
        l <= depth,
        leaf_at(root, mem, ty, v, depth) == Some(e),
    ensures
        path(root, mem, ty, v, l) is Some,
        walk_from(table_of(root, mem, path(root, mem, ty, v, l)->0), mem, ty, v, l) == Some(
            (Some(e.spec_addr()), e.spec_flags()),
        ),
    decreases depth - l,
{
    lemma_path_some_before(root, mem, ty, v, l, depth);
    let t = path(root, mem, ty, v, l)->0;
    if l < depth {
        lemma_walk_from_level(root, mem, ty, v, depth, e, l + 1);
        lemma_path_some_before(root, mem, ty, v, l + 1, depth);
        let k = path(root, mem, ty, v, l + 1)->0->0;
        lemma_walk_step(root, mem, ty, v, l, t, k);
    } else {
        assert(walk_from(table_of(root, mem, t), mem, ty, v, l) == Some((Some(e.spec_addr()), e.spec_flags())));
    }
}

/// One level of the walk of the page tables follows the walk through tables.
proof fn lemma_walk_step<A: PhysAddrAccess>(
    root: PageTable,
    mem: PageTableMemory,
    ty: A,
    v: u64,
    l: nat,
    t: Option<int>,
    k: int,
)
    requires
        l < 3,
        path(root, mem, ty, v, l) == Some(t),
        path(root, mem, ty, v, l + 1) == Some(Some(k)),
    ensures
        walk_from(table_of(root, mem, t), mem, ty, v, l) == walk_from(mem.tables@[k].1, mem, ty, v, l + 1),
{
    let en = entry_of(root, mem, t, spec_table_index(v, l as int));
    assert(next_table(mem, ty, en) == Some(Some(k)));
    let a = ty.spec_access_addr(en.spec_addr());
    assert(mem.find(a) == Some(k));
    assert(mem.table_at(a) == Some(mem.tables@[k].1));
}


/// Sizes of the pages that an entry at each depth maps.
pub const SIZE_4KIB: u64 = 0x1000;
pub const SIZE_2MIB: u64 = 0x20_0000;
pub const SIZE_1GIB: u64 = 0x4000_0000;
pub const SIZE_512GIB: u64 = 0x80_0000_0000;

/// Bytes mapped by an entry at `depth`.
pub open spec fn level_size(depth: nat) -> u64 {
    if depth == 0 {
        SIZE_512GIB
    } else if depth == 1 {
        SIZE_1GIB
    } else if depth == 2 {
        SIZE_2MIB
    } else {
        SIZE_4KIB
    }
}

/// The depth of the largest page that fits at `start` before `end` and that both
/// `start` and `from` are aligned to.
pub open spec fn chunk_depth(start: u64, end: u64, from: u64) -> nat {
    if end - start >= SIZE_512GIB && start % SIZE_512GIB == 0 && from % SIZE_512GIB == 0 {
        0
    } else if end - start >= SIZE_1GIB && start % SIZE_1GIB == 0 && from % SIZE_1GIB == 0 {
        1
    } else if end - start >= SIZE_2MIB && start % SIZE_2MIB == 0 && from % SIZE_2MIB == 0 {
        2
    } else {
        3
    }
}

/// The pages that map `start..end` to `from..`, largest first where they fit: each
/// virtual address, the physical address, and the depth of the entry.
pub open spec fn chunks(start: u64, end: u64, from: u64) -> Seq<(u64, u64, nat)>
    decreases (if end > start {
        end - start
    } else {
        0
    }),
{
    if start >= end {
        seq![]
    } else {
        let d = chunk_depth(start, end, from);
        let size = level_size(d);
        if start + size > u64::MAX || from + size > u64::MAX {
            seq![(start, from, d)]
        } else {
            seq![(start, from, d)] + chunks((start + size) as u64, end, (from + size) as u64)
        }
    }
}

/// The pages of a range of whole pages: aligned to their size, inside the range, in
/// address order, each starting where the one before ends.
proof fn lemma_chunks_props(start: u64, end: u64, from: u64)
    requires
        start % 0x1000 == 0,
        end % 0x1000 == 0,
        from % 0x1000 == 0,
        start <= end,
        from + (end - start) <= u64::MAX,
    ensures
        ({
            let cs = chunks(start, end, from);
            &&& forall|j: int|
                0 <= j < cs.len() ==> {
                    &&& (#[trigger] cs[j]).2 <= 3
                    &&& cs[j].0 % level_size(cs[j].2) == 0
                    &&& cs[j].1 % level_size(cs[j].2) == 0
                    &&& cs[j].0 + level_size(cs[j].2) <= end
                    &&& start <= cs[j].0
                    &&& cs[j].1 - from == cs[j].0 - start
                }
            &&& forall|j1: int, j2: int|
                0 <= j1 < j2 < cs.len() ==> (#[trigger] cs[j1]).0 + level_size(cs[j1].2) <= (#[trigger] cs[j2]).0
        }),
    decreases end - start,
{
    let cs = chunks(start, end, from);
    if start < end {
        let d = chunk_depth(start, end, from);
        let size = level_size(d);
        assert(size <= end - start) by {
            if d == 3 {
                assert(end - start >= 0x1000) by {
                    assert((end - start) % 0x1000 == 0);
                }
            }
        }
        assert(start % size == 0 && from % size == 0) by {
            if d == 3 {
            }
        }
        let s2 = (start + size) as u64;
        let f2 = (from + size) as u64;
        assert(s2 % 0x1000 == 0 && f2 % 0x1000 == 0) by {
            assert(size % 0x1000 == 0);
        }
        lemma_chunks_props(s2, end, f2);
        let tail = chunks(s2, end, f2);
        assert(cs == seq![(start, from, d)] + tail);
        assert forall|j1: int, j2: int| 0 <= j1 < j2 < cs.len() implies (#[trigger] cs[j1]).0 + level_size(cs[j1].2)
            <= (#[trigger] cs[j2]).0 by {
            if j1 == 0 {
                assert(cs[j2] == tail[j2 - 1]);
                assert(s2 <= tail[j2 - 1].0);
            } else {
                assert(cs[j1] == tail[j1 - 1] && cs[j2] == tail[j2 - 1]);
            }
        }
        assert forall|j: int| 0 <= j < cs.len() implies {
            &&& (#[trigger] cs[j]).2 <= 3
            &&& cs[j].0 % level_size(cs[j].2) == 0
            &&& cs[j].1 % level_size(cs[j].2) == 0
            &&& cs[j].0 + level_size(cs[j].2) <= end
            &&& start <= cs[j].0
            &&& cs[j].1 - from == cs[j].0 - start
        } by {
            if j > 0 {
                assert(cs[j] == tail[j - 1]);
            }
        }
    }
}

/// Addresses that agree on the table indices down to `depth` lie in the same page of
/// that depth.
proof fn lemma_region(v: u64, w: u64, depth: nat)
    requires
        depth <= 3,
        same_prefix(v, w, depth + 1int),
        v % level_size(depth) == 0,
        crate::addr::is_virt_canonical(v),
        crate::addr::is_virt_canonical(w),
    ensures
        v <= w < v + level_size(depth),
{
    crate::addr::lemma_table_index_bits(v);
    crate::addr::lemma_table_index_bits(w);
    assert(spec_table_index(v, 0) == spec_table_index(w, 0));
    if depth == 0 {
        assert(v % 0x80_0000_0000 == 0 && (v < 0x8000_0000_0000u64 || v >= 0xFFFF_8000_0000_0000u64) && (w < 0x8000_0000_0000u64 || w >= 0xFFFF_8000_0000_0000u64) && (v >> 39u64) & 0x1FF == (w >> 39u64) & 0x1FF ==> v <= w
            && w < v + 0x80_0000_0000) by (bit_vector);
    } else if depth == 1 {
        assert(spec_table_index(v, 1) == spec_table_index(w, 1));
        assert(v % 0x4000_0000 == 0 && (v < 0x8000_0000_0000u64 || v >= 0xFFFF_8000_0000_0000u64) && (w < 0x8000_0000_0000u64 || w >= 0xFFFF_8000_0000_0000u64) && (v >> 39u64) & 0x1FF == (w >> 39u64) & 0x1FF && (v >> 30u64)
            & 0x1FF == (w >> 30u64) & 0x1FF ==> v <= w && w < v + 0x4000_0000) by (bit_vector);
    } else if depth == 2 {
        assert(spec_table_index(v, 1) == spec_table_index(w, 1));
        assert(spec_table_index(v, 2) == spec_table_index(w, 2));
        assert(v % 0x20_0000 == 0 && (v < 0x8000_0000_0000u64 || v >= 0xFFFF_8000_0000_0000u64) && (w < 0x8000_0000_0000u64 || w >= 0xFFFF_8000_0000_0000u64) && (v >> 39u64) & 0x1FF == (w >> 39u64) & 0x1FF && (v >> 30u64)
            & 0x1FF == (w >> 30u64) & 0x1FF && (v >> 21u64) & 0x1FF == (w >> 21u64) & 0x1FF ==> v <= w && w < v
            + 0x20_0000) by (bit_vector);
    } else {
        assert(spec_table_index(v, 1) == spec_table_index(w, 1));
        assert(spec_table_index(v, 2) == spec_table_index(w, 2));
        assert(spec_table_index(v, 3) == spec_table_index(w, 3));
        assert(v % 0x1000 == 0 && (v < 0x8000_0000_0000u64 || v >= 0xFFFF_8000_0000_0000u64) && (w < 0x8000_0000_0000u64 || w >= 0xFFFF_8000_0000_0000u64) && (v >> 39u64) & 0x1FF == (w >> 39u64) & 0x1FF && (v >> 30u64) & 0x1FF
            == (w >> 30u64) & 0x1FF && (v >> 21u64) & 0x1FF == (w >> 21u64) & 0x1FF && (v >> 12u64) & 0x1FF == (w
            >> 12u64) & 0x1FF ==> v <= w && w < v + 0x1000) by (bit_vector);
    }
}

/// Pages of a range that do not overlap lie under different table slots.
proof fn lemma_chunks_apart(v1: u64, d1: nat, v2: u64, d2: nat)
    requires
        d1 <= 3,
        d2 <= 3,
        v1 % level_size(d1) == 0,
        v2 % level_size(d2) == 0,
        v1 + level_size(d1) <= v2,
        crate::addr::is_virt_canonical(v1),
        crate::addr::is_virt_canonical(v2),
    ensures
        d2 < d1 ==> !same_prefix(v2, v1, d2 + 1int),
        d1 <= d2 ==> !same_prefix(v2, v1, d1 + 1int),
{
    if d2 < d1 && same_prefix(v2, v1, d2 + 1int) {
        lemma_region(v2, v1, d2);
    }
    if d1 <= d2 && same_prefix(v2, v1, d1 + 1int) {
        assert(same_prefix(v1, v2, d1 + 1int));
        lemma_region(v1, v2, d1);
    }
}


/// The walk finds a mapping of physical page `phys`, valid, with `flags`.
pub open spec fn maps_to(e: Option<PageTableEntry>, phys: u64, flags: u16) -> bool {
    &&& e is Some
    &&& e->0.spec_addr() == phys
    &&& e->0.spec_flags() == FLAG_VALID | flags
}

/// The pages of `cs` are whole, aligned pages in address order in canonical space.
pub open spec fn chunks_ordered(cs: Seq<(u64, u64, nat)>) -> bool {
    &&& forall|j: int|
        0 <= j < cs.len() ==> {
            &&& (#[trigger] cs[j]).2 <= 3
            &&& cs[j].0 % level_size(cs[j].2) == 0
            &&& crate::addr::is_virt_canonical(cs[j].0)
        }
    &&& forall|j1: int, j2: int|
        0 <= j1 < j2 < cs.len() ==> (#[trigger] cs[j1]).0 + level_size(cs[j1].2) <= (#[trigger] cs[j2]).0
}

/// What holds while a range is mapped: pages before `k` are mapped, those from `k`
/// on are free, the tables are a tree over fresh pages, keeping what they had.
#[verifier::opaque]
pub open spec fn map_inv<A: PhysAddrAccess>(
    r0: PageTable,
    m0: PageTableMemory,
    root: PageTable,
    mem: PageTableMemory,
    pages: Seq<u64>,
    ty: A,
    cs: Seq<(u64, u64, nat)>,
    k: int,
    flags: u16,
) -> bool {
    &&& 0 <= k <= cs.len()
    &&& tree(root, mem, ty)
    &&& fresh_pages(root, mem, ty, pages)
    &&& pages.len() >= 3 * (cs.len() - k)
    &&& kept(r0, m0, root, mem)
    &&& forall|w: u64, d: nat|
        d <= 3 && (#[trigger] leaf_at(r0, m0, ty, w, d)) is Some ==> leaf_at(root, mem, ty, w, d) == leaf_at(
            r0,
            m0,
            ty,
            w,
            d,
        )
    &&& forall|j: int| 0 <= j < k ==> maps_to(leaf_at(root, mem, ty, (#[trigger] cs[j]).0, cs[j].2), cs[j].1, flags)
    &&& forall|j: int| k <= j < cs.len() ==> clean(root, mem, ty, (#[trigger] cs[j]).0, cs[j].2)
}

/// The pages after the `k`-th, by address and depth.
pub open spec fn later_chunks(cs: Seq<(u64, u64, nat)>, k: int) -> Seq<(u64, nat)> {
    Seq::new((cs.len() - k - 1) as nat, |j: int| (cs[k + 1 + j].0, cs[k + 1 + j].2))
}

proof fn lemma_map_inv_start<A: PhysAddrAccess>(
    r0: PageTable,
    m0: PageTableMemory,
    pages: Seq<u64>,
    ty: A,
    cs: Seq<(u64, u64, nat)>,
    flags: u16,
)
    requires
        tree(r0, m0, ty),
        fresh_pages(r0, m0, ty, pages),
        pages.len() >= 3 * cs.len(),
        forall|j: int| 0 <= j < cs.len() ==> clean(r0, m0, ty, (#[trigger] cs[j]).0, cs[j].2),
    ensures
        map_inv(r0, m0, r0, m0, pages, ty, cs, 0, flags),
{
    reveal(map_inv);
    reveal(kept);
}

/// What [`create_entry`] and the write of the mapping give for the `k`-th page.
#[verifier::spinoff_prover]
#[verifier::rlimit(40)]
proof fn lemma_map_step<A: PhysAddrAccess>(
    r0: PageTable,
    m0: PageTableMemory,
    rb: PageTable,
    mb: PageTableMemory,
    pb: Seq<u64>,
    rc: PageTable,
    mc: PageTableMemory,
    pc: Seq<u64>,
    rd: PageTable,
    md: PageTableMemory,
    ty: A,
    cs: Seq<(u64, u64, nat)>,
    k: int,
    flags: u16,
    e: PageTableEntry,
)
    requires
        map_inv(r0, m0, rb, mb, pb, ty, cs, k, flags),
        chunks_ordered(cs),
        0 <= k < cs.len(),
        tree(rc, mc, ty),
        fresh_pages(rc, mc, ty, pc),
        pc.len() + cs[k].2 >= pb.len(),
        kept(rb, mb, rc, mc),
        forall|j: int|
            0 <= j < later_chunks(cs, k).len() ==> clean(
                rc,
                mc,
                ty,
                (#[trigger] later_chunks(cs, k)[j]).0,
                later_chunks(cs, k)[j].1,
            ),
        forall|w: u64, d: nat|
            d <= 3 && (#[trigger] leaf_at(rb, mb, ty, w, d)) is Some ==> leaf_at(rc, mc, ty, w, d) == leaf_at(
                rb,
                mb,
                ty,
                w,
                d,
            ),
        leaf_step(rc, mc, rd, md, ty, cs[k].0, cs[k].2, e),
        e.spec_addr() == cs[k].1,
        e.spec_flags() == FLAG_VALID | flags,
    ensures
        map_inv(r0, m0, rd, md, pc, ty, cs, k + 1, flags),
{
    reveal(map_inv);
    let v = cs[k].0;
    let dv = cs[k].2;
    lemma_after_leaf(rc, mc, rd, md, ty, v, dv, e, pc);
    lemma_kept_trans(rb, mb, rc, mc, rd, md);
    lemma_kept_trans(r0, m0, rb, mb, rd, md);
    assert forall|w: u64, d: nat|
        d <= 3 && (#[trigger] leaf_at(r0, m0, ty, w, d)) is Some implies leaf_at(rd, md, ty, w, d) == leaf_at(
        r0,
        m0,
        ty,
        w,
        d,
    ) by {
        lemma_frame_after_leaf(rc, mc, rd, md, ty, v, dv, e, w, d);
    }
    assert forall|j: int| 0 <= j < k + 1 implies maps_to(
        leaf_at(rd, md, ty, (#[trigger] cs[j]).0, cs[j].2),
        cs[j].1,
        flags,
    ) by {
        if j < k {
            lemma_frame_after_leaf(rc, mc, rd, md, ty, v, dv, e, cs[j].0, cs[j].2);
        }
    }
    assert forall|j: int| k + 1 <= j < cs.len() implies clean(rd, md, ty, (#[trigger] cs[j]).0, cs[j].2) by {
        let o = later_chunks(cs, k)[j - k - 1];
        assert(o == (cs[j].0, cs[j].2));
        lemma_chunks_apart(v, dv, cs[j].0, cs[j].2);
        lemma_frame_after_leaf(rc, mc, rd, md, ty, v, dv, e, cs[j].0, cs[j].2);
    }
}

/// The range `start..end` rounded out to whole pages, mapped from `from` rounded down
/// to a page: the pages it is cut in.
pub open spec fn map_chunks(start: u64, end: u64, from: u64) -> Seq<(u64, u64, nat)> {
    chunks(
        crate::addr::spec_align_down(start as int, 0x1000) as u64,
        crate::addr::spec_align_up(end as int, 0x1000) as u64,
        crate::addr::spec_align_down(from as int, 0x1000) as u64,
    )
}

/// The inputs on which mapping `start..end` to `from` runs without a panic: the
/// rounded range and its image stay in their address spaces, every page of the range
/// is free (its walk comes to an empty slot at or above its depth), the tables are a
/// tree and there are three fresh pages per page mapped; `flags` maps memory. An entry
/// without any of the read, write and execute bits points to a next level table (see
/// `is_branch`), so a leaf mapped with none of them would be walked as a table: such
/// flags are left out.
pub open spec fn map_admissible<A: PhysAddrAccess>(
    root: PageTable,
    mem: PageTableMemory,
    ty: A,
    pages: Seq<u64>,
    start: u64,
    end: u64,
    from: u64,
    flags: u16,
) -> bool {
    let s = crate::addr::spec_align_down(start as int, 0x1000);
    let e = crate::addr::spec_align_up(end as int, 0x1000);
    let f = crate::addr::spec_align_down(from as int, 0x1000);
    let cs = map_chunks(start, end, from);
    &&& crate::addr::is_virt_canonical(start)
    &&& crate::addr::is_virt_canonical(end)
    &&& from < PHYS_LIMIT
    &&& e <= u64::MAX
    &&& crate::addr::is_virt_canonical(e as u64)
    &&& s < e ==> f + (e - s) < PHYS_LIMIT
    &&& forall|j: int|
        0 <= j < cs.len() ==> crate::addr::is_virt_canonical(
            ((#[trigger] cs[j]).0 + level_size(cs[j].2)) as u64,
        )
    &&& forall|j: int| 0 <= j < cs.len() ==> clean(root, mem, ty, (#[trigger] cs[j]).0, cs[j].2)
    &&& tree(root, mem, ty)
    &&& fresh_pages(root, mem, ty, pages)
    &&& pages.len() >= 3 * cs.len()
    &&& flags <= FLAG_BITS
    &&& flags & FLAG_RWX != 0
}

/// What mapping `start..end` to `from` gives: each page of the range is found by the
/// walk, valid with `flags`, mapped to its place in the physical range; every mapping
/// found before is still found; the tables stay a tree over fresh pages, keeping what
/// they had.
pub open spec fn map_done<A: PhysAddrAccess>(
    root: PageTable,
    mem: PageTableMemory,
    root2: PageTable,
    mem2: PageTableMemory,
    ty: A,
    pages2: Seq<u64>,
    start: u64,
    end: u64,
    from: u64,
    flags: u16,
) -> bool {
    let cs = map_chunks(start, end, from);
    &&& forall|j: int|
        0 <= j < cs.len() ==> walk_from(root2, mem2, ty, (#[trigger] cs[j]).0, 0) == Some(
            (Some(cs[j].1), FLAG_VALID | flags),
        )
    &&& forall|w: u64, d: nat|
        d <= 3 && (#[trigger] leaf_at(root, mem, ty, w, d)) is Some ==> leaf_at(root2, mem2, ty, w, d) == leaf_at(
            root,
            mem,
            ty,
            w,
            d,
        )
    &&& tree(root2, mem2, ty)
    &&& fresh_pages(root2, mem2, ty, pages2)
    &&& kept(root, mem, root2, mem2)
}

impl PageTable {
    /// The depth of the largest page that fits at `cur` before `end` and that `cur`
    /// and `f` are aligned to.
    fn chunk_depth_of(cur: VirtAddr, end: VirtAddr, f: PhysAddr) -> (r: usize)
        requires
            cur@ < end@,
        ensures
            r as nat == chunk_depth(cur@, end@, f@),
            r <= 3,
    {
        let diff = end.abs_diff(cur);
        if diff >= SIZE_512GIB && cur.is_aligned_to(SIZE_512GIB) && f.is_aligned_to(SIZE_512GIB) {
            0
        } else if diff >= SIZE_1GIB && cur.is_aligned_to(SIZE_1GIB) && f.is_aligned_to(SIZE_1GIB) {
            1
        } else if diff >= SIZE_2MIB && cur.is_aligned_to(SIZE_2MIB) && f.is_aligned_to(SIZE_2MIB) {
            proof {
                // a 2MiB aligned address has no index in the last level
                let c = cur@;
                assert(c % 0x20_0000 == 0 ==> (c >> 12u64) & 0x1FF == 0) by (bit_vector);
                crate::addr::lemma_table_index_bits(c);
                assert(spec_table_index(c, 3) == 0);
            }
            2
        } else {
            3
        }
    }

    /// Map page `k` of `cs`: create its entry, which is free, and write the mapping.
    fn map_chunk<A: PhysAddrAccess>(
        &mut self,
        mem: &mut PageTableMemory,
        memory: &mut PageSource,
        ty: A,
        cur: VirtAddr,
        f: PhysAddr,
        depth: usize,
        flags: PageFlags,
        Ghost(r0): Ghost<PageTable>,
        Ghost(m0): Ghost<PageTableMemory>,
        Ghost(cs): Ghost<Seq<(u64, u64, nat)>>,
        Ghost(k): Ghost<int>,
    )
        requires
            map_inv(r0, m0, *old(self), *old(mem), old(memory).pages(), ty, cs, k, flags@),
            0 <= k < cs.len(),
            chunks_ordered(cs),
            cs[k] == (cur@, f@, depth as nat),
            f@ % 0x1000 == 0,
            f.wf(),
            flags.wf(),
            flags@ & FLAG_RWX != 0,
        ensures
            map_inv(r0, m0, *final(self), *final(mem), final(memory).pages(), ty, cs, k + 1, flags@),
    {
        let ghost rb = *self;
        let ghost mb = *mem;
        let ghost pb = memory.pages();
        let ghost others = later_chunks(cs, k);
        assert(tree(rb, mb, ty) && fresh_pages(rb, mb, ty, pb) && pb.len() >= 3 * (cs.len() - k) && forall|j: int|
            k <= j < cs.len() ==> clean(rb, mb, ty, (#[trigger] cs[j]).0, cs[j].2)) by {
            reveal(map_inv);
        }
        proof {
            assert(clean(rb, mb, ty, cs[k].0, cs[k].2));
            lemma_clean_walkable(rb, mb, ty, cur@, depth as nat);
            assert forall|j: int| 0 <= j < others.len() implies {
                &&& (#[trigger] others[j]).1 <= 3
                &&& clean(rb, mb, ty, others[j].0, others[j].1)
                &&& others[j].1 < depth ==> !same_prefix(others[j].0, cur@, others[j].1 + 1int)
            } by {
                let j2 = k + 1 + j;
                assert(others[j] == (cs[j2].0, cs[j2].2));
                assert(clean(rb, mb, ty, cs[j2].0, cs[j2].2));
                lemma_chunks_apart(cs[k].0, cs[k].2, cs[j2].0, cs[j2].2);
            }
        }
        let (t, i) = create_entry(self, mem, memory, ty, cur, depth, Ghost(others));
        let ghost rc = *self;
        let ghost mc = *mem;
        let mut e = read_entry(self, mem, t, i);
        // the slot is free: the pages before did not take it
        assert(!e.is_valid());
        e.set_flags(PageFlags::from_bits_truncate(FLAG_VALID).union(flags));
        e.set_addr(f);
        proof {
            flags.lemma_wf();
            let fl = flags@;
            assert((1u16 & 0xFFu16) | fl == 1u16 | fl && (fl & 0xEu16 != 0 ==> (1u16 | fl) & 0xEu16 != 0) && (1u16
                | fl) & 1u16 == 1u16) by (bit_vector);
        }
        write_entry(self, mem, t, i, e);
        proof {
            reveal(leaf_step);
            assert(leaf_step(rc, mc, *self, *mem, ty, cur@, depth as nat, e));
            lemma_map_step(r0, m0, rb, mb, pb, rc, mc, memory.pages(), *self, *mem, ty, cs, k, flags@, e);
        }
    }

    /// Map `to` to the physical memory from `from`, the tables reached through the
    /// direct mapping; see [`map_done`].
    pub fn map_offset(
        &mut self,
        mem: &mut PageTableMemory,
        memory: &mut PageSource,
        to: core::ops::Range<VirtAddr>,
        flags: PageFlags,
        from: PhysAddr,
    )
        requires
            map_admissible(*old(self), *old(mem), Hhdm, old(memory).pages(), to.start@, to.end@, from@, flags@),
        ensures
            map_done(
                *old(self),
                *old(mem),
                *final(self),
                *final(mem),
                Hhdm,
                final(memory).pages(),
                to.start@,
                to.end@,
                from@,
                flags@,
            ),
    {
        self._map_offset(mem, memory, to, flags, from, Hhdm)
    }

    /// Map `to` to the physical memory from `from`, with paging disabled.
    pub fn map_offset_without_paging(
        &mut self,
        mem: &mut PageTableMemory,
        memory: &mut PageSource,
        to: core::ops::Range<VirtAddr>,
        flags: PageFlags,
        from: PhysAddr,
    )
        requires
            map_admissible(*old(self), *old(mem), NoPaging, old(memory).pages(), to.start@, to.end@, from@, flags@),
        ensures
            map_done(
                *old(self),
                *old(mem),
                *final(self),
                *final(mem),
                NoPaging,
                final(memory).pages(),
                to.start@,
                to.end@,
                from@,
                flags@,
            ),
    {
        self._map_offset(mem, memory, to, flags, from, NoPaging)
    }

    /// Map `to` to the physical memory at the same address (its low 52 bits), the
    /// tables reached through the direct mapping.
    pub fn map_identity(
        &mut self,
        mem: &mut PageTableMemory,
        memory: &mut PageSource,
        to: core::ops::Range<VirtAddr>,
        flags: PageFlags,
    )
        requires
            map_admissible(
                *old(self),
                *old(mem),
                Hhdm,
                old(memory).pages(),
                to.start@,
                to.end@,
                to.start@ % PHYS_LIMIT,
                flags@,
            ),
        ensures
            map_done(
                *old(self),
                *old(mem),
                *final(self),
                *final(mem),
                Hhdm,
                final(memory).pages(),
                to.start@,
                to.end@,
                to.start@ % PHYS_LIMIT,
                flags@,
            ),
    {
        self._map_identity(mem, memory, to, flags, Hhdm)
    }

    /// Map `to` to the physical memory at the same address, with paging disabled.
    pub fn map_identity_without_paging(
        &mut self,
        mem: &mut PageTableMemory,
        memory: &mut PageSource,
        to: core::ops::Range<VirtAddr>,
        flags: PageFlags,
    )
        requires
            map_admissible(
                *old(self),
                *old(mem),
                NoPaging,
                old(memory).pages(),
                to.start@,
                to.end@,
                to.start@ % PHYS_LIMIT,
                flags@,
            ),
        ensures
            map_done(
                *old(self),
                *old(mem),
                *final(self),
                *final(mem),
                NoPaging,
                final(memory).pages(),
                to.start@,
                to.end@,
                to.start@ % PHYS_LIMIT,
                flags@,
            ),
    {
        self._map_identity(mem, memory, to, flags, NoPaging)
    }

    fn _map_identity<A: PhysAddrAccess>(
        &mut self,
        mem: &mut PageTableMemory,
        memory: &mut PageSource,
        to: core::ops::Range<VirtAddr>,
        flags: PageFlags,
        ty: A,
    )
        requires
            map_admissible(
                *old(self),
                *old(mem),
                ty,
                old(memory).pages(),
                to.start@,
                to.end@,
                to.start@ % PHYS_LIMIT,
                flags@,
            ),
        ensures
            map_done(
                *old(self),
                *old(mem),
                *final(self),
                *final(mem),
                ty,
                final(memory).pages(),
                to.start@,
                to.end@,
                to.start@ % PHYS_LIMIT,
                flags@,
            ),
    {
        let from = PhysAddr::new_truncate(to.start.as_u64());
        self._map_offset(mem, memory, to, flags, from, ty)
    }

    /// Map `to` (rounded out to whole pages) to the physical memory from `from`
    /// (rounded down to a page), with the largest pages that fit and that both sides
    /// are aligned to; missing tables are created on pages from `memory`.
    fn _map_offset<A: PhysAddrAccess>(
        &mut self,
        mem: &mut PageTableMemory,
        memory: &mut PageSource,
        to: core::ops::Range<VirtAddr>,
        flags: PageFlags,
        from: PhysAddr,
        ty: A,
    )
        requires
            map_admissible(*old(self), *old(mem), ty, old(memory).pages(), to.start@, to.end@, from@, flags@),
        ensures
            map_done(
                *old(self),
                *old(mem),
                *final(self),
                *final(mem),
                ty,
                final(memory).pages(),
                to.start@,
                to.end@,
                from@,
                flags@,
            ),
    {
        let ghost r0 = *self;
        let ghost m0 = *mem;
        proof {
            to.start.lemma_wf();
            to.end.lemma_wf();
            from.lemma_wf();
        }
        let start = to.start.align_down();
        let end = to.end.align_up();
        let from0 = from.align_down();
        let ghost cs = chunks(start@, end@, from0@);
        assert(cs == map_chunks(to.start@, to.end@, from@));
        proof {
            crate::addr::lemma_align_down_props(to.start@ as int, 0x1000);
            crate::addr::lemma_align_up_props(to.end@ as int, 0x1000);
            crate::addr::lemma_align_down_props(from@ as int, 0x1000);
            if start@ <= end@ {
                lemma_chunks_props(start@, end@, from0@);
            }
            lemma_map_inv_start(r0, m0, memory.pages(), ty, cs, flags@);
            flags.lemma_wf_small();
        }
        let mut cur = start;
        let mut f = from0;
        let ghost mut k: int = 0;
        while cur.as_u64() < end.as_u64()
            invariant
                map_inv(r0, m0, *self, *mem, memory.pages(), ty, cs, k, flags@),
                0 <= k <= cs.len(),
                chunks(cur@, end@, f@) == cs.subrange(k, cs.len() as int),
                chunks_ordered(cs),
                forall|j: int|
                    0 <= j < cs.len() ==> {
                        &&& crate::addr::is_virt_canonical(((#[trigger] cs[j]).0 + level_size(cs[j].2)) as u64)
                        &&& cs[j].0 + level_size(cs[j].2) <= end@
                        &&& cs[j].1 - f@ == cs[j].0 - cur@ || j < k
                        &&& cs[j].1 % level_size(cs[j].2) == 0
                    },
                cur@ <= end@ ==> f@ + (end@ - cur@) < PHYS_LIMIT,
                cur@ % 0x1000 == 0,
                end@ % 0x1000 == 0,
                f@ % 0x1000 == 0,
                cur.wf(),
                f.wf(),
                flags@ <= FLAG_BITS,
                flags.wf(),
                flags@ & FLAG_RWX != 0,
            decreases end@ - cur@,
        {
            let ghost cur0 = cur@;
            let ghost f0 = f@;
            proof {
                assert(chunks(cur0, end@, f0).len() > 0);
                assert(cs.subrange(k, cs.len() as int)[0] == cs[k]);
            }
            // map the biggest page that fits, and that both sides are aligned to
            let depth = Self::chunk_depth_of(cur, end, f);
            let size = if depth == 0 {
                SIZE_512GIB
            } else if depth == 1 {
                SIZE_1GIB
            } else if depth == 2 {
                SIZE_2MIB
            } else {
                SIZE_4KIB
            };
            assert(depth == cs[k].2 && size == level_size(cs[k].2) && cur@ == cs[k].0 && f@ == cs[k].1);
            self.map_chunk(mem, memory, ty, cur, f, depth, flags, Ghost(r0), Ghost(m0), Ghost(cs), Ghost(k));
            proof {
                assert(cur@ + size <= end@);
            }
            cur = cur.add_u64(size);
            f = f.add_u64(size);
            proof {
                let a = chunks(cur0, end@, f0);
                let b = chunks(cur@, end@, f@);
                assert(a == seq![cs[k]] + b);
                assert(b =~= a.subrange(1, a.len() as int));
                assert(a =~= cs.subrange(k, cs.len() as int));
                assert(a.subrange(1, a.len() as int) =~= cs.subrange(k + 1, cs.len() as int));
                cur.lemma_wf();
                f.lemma_wf();
                k = k + 1;
            }
        }
        proof {
            reveal(map_inv);
            assert(k == cs.len());
            assert forall|j: int| 0 <= j < cs.len() implies walk_from(*self, *mem, ty, (#[trigger] cs[j]).0, 0) == Some(
                (Some(cs[j].1), FLAG_VALID | flags@),
            ) by {
                let le = leaf_at(*self, *mem, ty, cs[j].0, cs[j].2);
                lemma_walk_finds_leaf(*self, *mem, ty, cs[j].0, cs[j].2, le->0);
            }
        }
    }
}


/// A copy of bytes of a source buffer into a page that a mapping points to.
#[derive(Debug, Clone, Copy, PartialEq, Eq, Structural)]
pub struct PageCopy {
    /// the physical page
    pub phys: u64,
    /// whether the page was just taken for the mapping, and is zeroed before the copy
    pub fresh: bool,
    /// where in the page the bytes go
    pub offset: u64,
    /// where in the source the bytes start
    pub src: u64,
    /// how many bytes
    pub len: u64,
}

/// How many 4KiB pages mapping `len` bytes over `start..end` touches: the range
/// rounded out to pages, or the bytes from the start of the first page, when they
/// reach further.
pub open spec fn data_page_count(start: u64, end: u64, len: nat) -> nat {
    let s = crate::addr::spec_align_down(start as int, 0x1000);
    let e = crate::addr::spec_align_up(end as int, 0x1000);
    let pad = start % 0x1000;
    let bytes = if pad + len >= e - s {
        pad + len
    } else {
        e - s
    };
    (bytes / 0x1000 + if bytes % 0x1000 != 0 {
        1int
    } else {
        0int
    }) as nat
}

/// Page `i` of the range that starts at `start`.
pub open spec fn data_page(start: u64, i: int) -> u64 {
    (crate::addr::spec_align_down(start as int, 0x1000) + i * 0x1000) as u64
}

/// The `n` pages of the range that starts at `start` are canonical addresses.
pub open spec fn pages_fit(start: u64, n: nat) -> bool {
    forall|i: int|
        0 <= i < n ==> crate::addr::spec_align_down(start as int, 0x1000) + i * 0x1000 <= u64::MAX
            && crate::addr::is_virt_canonical(#[trigger] data_page(start, i))
}

/// The smaller of two integers.
pub open spec fn min_int(a: int, b: int) -> int {
    if a <= b {
        a
    } else {
        b
    }
}

/// Where in the source the bytes of page `i` start, the first page being filled
/// from `pad` on.
pub open spec fn copy_start(pad: int, len: int, i: int) -> int {
    if i == 0 {
        0
    } else {
        min_int(len, 0x1000 - pad + (i - 1) * 0x1000)
    }
}

/// How many bytes of the source go into page `i`.
pub open spec fn copy_len(pad: int, len: int, i: int) -> int {
    min_int(
        len - copy_start(pad, len, i),
        if i == 0 {
            0x1000 - pad
        } else {
            0x1000
        },
    )
}

/// The inputs on which mapping `len` bytes to `start..end` runs without a panic:
/// canonical ends, a rounded range that does not end before it starts, sums that fit,
/// pages that are canonical addresses, a last-level slot for each page that holds a
/// mapping or is free, the tables a tree and four fresh pages per page; `flags` maps
/// memory.
pub open spec fn data_admissible<A: PhysAddrAccess>(
    root: PageTable,
    mem: PageTableMemory,
    ty: A,
    pages: Seq<u64>,
    start: u64,
    end: u64,
    len: nat,
    flags: u16,
) -> bool {
    let s = crate::addr::spec_align_down(start as int, 0x1000);
    let e = crate::addr::spec_align_up(end as int, 0x1000);
    let n = data_page_count(start, end, len);
    &&& crate::addr::is_virt_canonical(start)
    &&& crate::addr::is_virt_canonical(end)
    &&& e <= u64::MAX
    &&& crate::addr::is_virt_canonical(e as u64)
    &&& s <= e
    &&& start % 0x1000 + len <= usize::MAX
    &&& pages_fit(start, n)
    &&& forall|i: int|
        0 <= i < n ==> leaf_at(root, mem, ty, #[trigger] data_page(start, i), 3) is Some || clean(
            root,
            mem,
            ty,
            data_page(start, i),
            3,
        )
    &&& tree(root, mem, ty)
    &&& fresh_pages(root, mem, ty, pages)
    &&& pages.len() >= 4 * n
    &&& flags <= FLAG_BITS
    &&& flags & FLAG_RWX != 0
}

/// What the copy of page `i` is: into the page its mapping points to, zeroed first
/// when the page is new, and with the bytes of the source that fall on the page.
pub open spec fn copy_of<A: PhysAddrAccess>(
    root: PageTable,
    mem: PageTableMemory,
    root2: PageTable,
    mem2: PageTableMemory,
    ty: A,
    start: u64,
    len: nat,
    flags: u16,
    i: int,
    c: PageCopy,
) -> bool {
    let v = data_page(start, i);
    let pad = start % 0x1000;
    &&& leaf_at(root2, mem2, ty, v, 3) is Some
    &&& leaf_at(root2, mem2, ty, v, 3)->0.spec_addr() == c.phys
    &&& c.fresh == (leaf_at(root, mem, ty, v, 3) is None)
    &&& c.fresh ==> leaf_at(root2, mem2, ty, v, 3)->0.spec_flags() == FLAG_VALID | flags
    &&& !c.fresh ==> leaf_at(root2, mem2, ty, v, 3) == leaf_at(root, mem, ty, v, 3)
    &&& c.offset == if i == 0 {
        pad
    } else {
        0
    }
    &&& c.src == copy_start(pad as int, len as int, i)
    &&& c.len == copy_len(pad as int, len as int, i)
}

/// What mapping `len` bytes to `start..end` gives: a copy for each page, in order,
/// each found by the walk; every mapping found before is still found; the tables
/// stay a tree over fresh pages, keeping what they had; new pages come from the
/// source.
pub open spec fn data_done<A: PhysAddrAccess>(
    root: PageTable,
    mem: PageTableMemory,
    root2: PageTable,
    mem2: PageTableMemory,
    ty: A,
    pages: Seq<u64>,
    pages2: Seq<u64>,
    start: u64,
    end: u64,
    len: nat,
    flags: u16,
    plan: Seq<PageCopy>,
) -> bool {
    &&& plan.len() == data_page_count(start, end, len)
    &&& forall|i: int|
        0 <= i < plan.len() ==> copy_of(root, mem, root2, mem2, ty, start, len, flags, i, #[trigger] plan[i])
    &&& forall|i: int| 0 <= i < plan.len() && (#[trigger] plan[i]).fresh ==> pages.contains(plan[i].phys)
    &&& forall|w: u64, d: nat|
        d <= 3 && (#[trigger] leaf_at(root, mem, ty, w, d)) is Some ==> leaf_at(root2, mem2, ty, w, d) == leaf_at(
            root,
            mem,
            ty,
            w,
            d,
        )
    &&& tree(root2, mem2, ty)
    &&& fresh_pages(root2, mem2, ty, pages2)
    &&& kept(root, mem, root2, mem2)
    &&& pages2 == pages.subrange(0, pages2.len() as int)
}

/// What holds while the pages are mapped: the copies of the pages before `k` are
/// planned, the pages from `k` on are as they were, the tables are a tree over
/// fresh pages, keeping what they had.
#[verifier::opaque]
pub open spec fn data_inv<A: PhysAddrAccess>(
    r0: PageTable,
    m0: PageTableMemory,
    s0: Seq<u64>,
    root: PageTable,
    mem: PageTableMemory,
    pages: Seq<u64>,
    ty: A,
    start: u64,
    n: nat,
    len: nat,
    flags: u16,
    plan: Seq<PageCopy>,
) -> bool {
    let k = plan.len();
    &&& k <= n
    &&& tree(root, mem, ty)
    &&& fresh_pages(root, mem, ty, pages)
    &&& pages.len() >= 4 * (n - k)
    &&& pages.len() <= s0.len()
    &&& pages == s0.subrange(0, pages.len() as int)
    &&& kept(r0, m0, root, mem)
    &&& forall|w: u64, d: nat|
        d <= 3 && (#[trigger] leaf_at(r0, m0, ty, w, d)) is Some ==> leaf_at(root, mem, ty, w, d) == leaf_at(
            r0,
            m0,
            ty,
            w,
            d,
        )
    &&& forall|i: int| 0 <= i < k ==> copy_of(r0, m0, root, mem, ty, start, len, flags, i, #[trigger] plan[i])
    &&& forall|i: int| 0 <= i < k && (#[trigger] plan[i]).fresh ==> s0.contains(plan[i].phys)
    &&& forall|i: int|
        k <= i < n ==> leaf_at(r0, m0, ty, #[trigger] data_page(start, i), 3) is Some || clean(
            root,
            mem,
            ty,
            data_page(start, i),
            3,
        )
}

/// A mapping that the walk finds can be walked to.
proof fn lemma_leaf_walkable<A: PhysAddrAccess>(root: PageTable, mem: PageTableMemory, ty: A, w: u64, d: nat)
    requires
        leaf_at(root, mem, ty, w, d) is Some,
    ensures
        walkable(root, mem, ty, w, d),
{
    reveal(walkable);
    assert forall|l: nat|
        l < d && (#[trigger] path(root, mem, ty, w, l)) is Some && entry_of(
            root,
            mem,
            path(root, mem, ty, w, l)->0,
            spec_table_index(w, l as int),
        ).is_valid() implies path(root, mem, ty, w, (l + 1) as nat) is Some by {
        lemma_path_some_before(root, mem, ty, w, (l + 1) as nat, d);
    }
}

/// The pages left after the last one is taken are still fresh.
proof fn lemma_fresh_drop_last<A: PhysAddrAccess>(root: PageTable, mem: PageTableMemory, ty: A, pages: Seq<u64>)
    requires
        fresh_pages(root, mem, ty, pages),
        pages.len() > 0,
    ensures
        fresh_pages(root, mem, ty, pages.drop_last()),
        pages.last() % 0x1000 == 0,
        pages.last() < PHYS_LIMIT,
{
    reveal(fresh_pages);
    let rest = pages.drop_last();
    assert forall|k: int| 0 <= k < rest.len() implies {
        &&& (#[trigger] rest[k]) % 0x1000 == 0
        &&& rest[k] < PHYS_LIMIT
        &&& ty.reaches(rest[k])
        &&& mem.find(ty.spec_access_addr(rest[k])) is None
        &&& unreferenced(root, mem, ty, rest[k])
    } by {
        assert(rest[k] == pages[k]);
    }
    assert forall|j: int, k: int|
        0 <= j < k < rest.len() implies ty.spec_access_addr(#[trigger] rest[j]) != ty.spec_access_addr(
        #[trigger] rest[k],
    ) by {
        assert(rest[j] == pages[j] && rest[k] == pages[k]);
    }
    assert(pages[pages.len() - 1] == pages.last());
}

/// Two different pages of the range do not share the last-level slot.
proof fn lemma_data_pages_apart(start: u64, i: int, j: int)
    requires
        0 <= i < j,
        crate::addr::is_virt_canonical(data_page(start, i)),
        crate::addr::is_virt_canonical(data_page(start, j)),
        crate::addr::spec_align_down(start as int, 0x1000) + j * 0x1000 <= u64::MAX,
    ensures
        !same_prefix(data_page(start, j), data_page(start, i), 4),
{
    let s = crate::addr::spec_align_down(start as int, 0x1000);
    crate::addr::lemma_align_down_props(start as int, 0x1000);
    assert(data_page(start, i) % 0x1000 == 0) by {
        vstd::arithmetic::div_mod::lemma_mod_multiples_vanish(i, s, 0x1000);
    }
    assert(data_page(start, j) % 0x1000 == 0) by {
        vstd::arithmetic::div_mod::lemma_mod_multiples_vanish(j, s, 0x1000);
    }
    assert(data_page(start, i) + 0x1000 <= data_page(start, j));
    lemma_chunks_apart(data_page(start, i), 3, data_page(start, j), 3);
}

/// The later pages that are free in a memory stay free when [`create_entry`] keeps
/// free the slots it is given.
proof fn lemma_later_clean<A: PhysAddrAccess>(
    r0: PageTable,
    m0: PageTableMemory,
    rb: PageTable,
    mb: PageTableMemory,
    rc: PageTable,
    mc: PageTableMemory,
    ty: A,
    start: u64,
    n: nat,
    k: int,
    others: Seq<(u64, nat)>,
)
    requires
        0 <= k < n,
        others == Seq::new((n - k - 1) as nat, |j: int| (data_page(start, k + 1 + j), 3nat)).filter(
            |p: (u64, nat)| p.1 == 3 && clean(rb, mb, ty, p.0, p.1),
        ),
        forall|i: int|
            k <= i < n ==> leaf_at(r0, m0, ty, #[trigger] data_page(start, i), 3) is Some || clean(
                rb,
                mb,
                ty,
                data_page(start, i),
                3,
            ),
        forall|j: int| 0 <= j < others.len() ==> clean(rc, mc, ty, (#[trigger] others[j]).0, others[j].1),
    ensures
        forall|i: int|
            k + 1 <= i < n ==> leaf_at(r0, m0, ty, #[trigger] data_page(start, i), 3) is Some || clean(
                rc,
                mc,
                ty,
                data_page(start, i),
                3,
            ),
{
    let later = Seq::new((n - k - 1) as nat, |j: int| (data_page(start, k + 1 + j), 3nat));
    let pred = |p: (u64, nat)| p.1 == 3 && clean(rb, mb, ty, p.0, p.1);
    assert forall|i: int|
        k + 1 <= i < n implies leaf_at(r0, m0, ty, #[trigger] data_page(start, i), 3) is Some || clean(
        rc,
        mc,
        ty,
        data_page(start, i),
        3,
    ) by {
        if leaf_at(r0, m0, ty, data_page(start, i), 3) is None {
            let j = i - k - 1;
            assert(later[j] == (data_page(start, i), 3nat));
            later.lemma_filter_contains(pred, j);
            assert(others.contains(later[j]));
            let idx = choose|idx: int| 0 <= idx < others.len() && others[idx] == later[j];
            assert(clean(rc, mc, ty, others[idx].0, others[idx].1));
        }
    }
}

/// The slots that [`create_entry`] is told to keep free: the later pages that are
/// free now, at the last level.
proof fn lemma_others_ok<A: PhysAddrAccess>(
    rb: PageTable,
    mb: PageTableMemory,
    ty: A,
    start: u64,
    n: nat,
    k: int,
    others: Seq<(u64, nat)>,
)
    requires
        0 <= k < n,
        others == Seq::new((n - k - 1) as nat, |j: int| (data_page(start, k + 1 + j), 3nat)).filter(
            |p: (u64, nat)| p.1 == 3 && clean(rb, mb, ty, p.0, p.1),
        ),
    ensures
        forall|j: int|
            0 <= j < others.len() ==> {
                &&& (#[trigger] others[j]).1 <= 3
                &&& clean(rb, mb, ty, others[j].0, others[j].1)
                &&& others[j].1 < 3nat ==> !same_prefix(others[j].0, 0, others[j].1 + 1int)
            },
{
    let later = Seq::new((n - k - 1) as nat, |j: int| (data_page(start, k + 1 + j), 3nat));
    let pred = |p: (u64, nat)| p.1 == 3 && clean(rb, mb, ty, p.0, p.1);
    assert forall|j: int| 0 <= j < others.len() implies {
        &&& (#[trigger] others[j]).1 <= 3
        &&& clean(rb, mb, ty, others[j].0, others[j].1)
        &&& others[j].1 < 3nat ==> !same_prefix(others[j].0, 0, others[j].1 + 1int)
    } by {
        later.lemma_filter_pred(pred, j);
    }
}

/// The step of a page whose slot holds a mapping already: nothing is written.
proof fn lemma_data_step_kept<A: PhysAddrAccess>(
    r0: PageTable,
    m0: PageTableMemory,
    s0: Seq<u64>,
    rb: PageTable,
    mb: PageTableMemory,
    pb: Seq<u64>,
    rc: PageTable,
    mc: PageTableMemory,
    pc: Seq<u64>,
    ty: A,
    start: u64,
    n: nat,
    total: nat,
    flags: u16,
    plan: Seq<PageCopy>,
    r: PageCopy,
)
    requires
        data_inv(r0, m0, s0, rb, mb, pb, ty, start, n, total, flags, plan),
        plan.len() < n,
        tree(rc, mc, ty),
        fresh_pages(rc, mc, ty, pc),
        pc.len() + 3 >= pb.len(),
        pc.len() <= pb.len(),
        pc == pb.subrange(0, pc.len() as int),
        kept(rb, mb, rc, mc),
        forall|w: u64, d: nat|
            d <= 3 && (#[trigger] leaf_at(rb, mb, ty, w, d)) is Some ==> leaf_at(rc, mc, ty, w, d) == leaf_at(
                rb,
                mb,
                ty,
                w,
                d,
            ),
        forall|i: int|
            plan.len() + 1 <= i < n ==> leaf_at(r0, m0, ty, #[trigger] data_page(start, i), 3) is Some || clean(
                rc,
                mc,
                ty,
                data_page(start, i),
                3,
            ),
        leaf_at(r0, m0, ty, data_page(start, plan.len() as int), 3) is Some,
        copy_of(r0, m0, rc, mc, ty, start, total, flags, plan.len() as int, r),
    ensures
        data_inv(r0, m0, s0, rc, mc, pc, ty, start, n, total, flags, plan.push(r)),
{
    reveal(data_inv);
    let k = plan.len() as int;
    let p2 = plan.push(r);
    lemma_kept_trans(r0, m0, rb, mb, rc, mc);
    assert(pc =~= s0.subrange(0, pc.len() as int)) by {
        assert forall|q: int| 0 <= q < pc.len() implies pc[q] == s0[q] by {
            assert(pc[q] == pb[q]);
        }
    }
    assert forall|i: int| 0 <= i < k + 1 implies copy_of(r0, m0, rc, mc, ty, start, total, flags, i, #[trigger] p2[i]) by {
        if i < k {
            assert(p2[i] == plan[i]);
            assert(copy_of(r0, m0, rb, mb, ty, start, total, flags, i, plan[i]));
        }
    }
    assert forall|i: int| 0 <= i < k + 1 && (#[trigger] p2[i]).fresh implies s0.contains(p2[i].phys) by {
        assert(p2[i] == plan[i]);
    }
}

/// The step of a page whose slot was free: a mapping of a fresh page is written.
proof fn lemma_data_step_fresh<A: PhysAddrAccess>(
    r0: PageTable,
    m0: PageTableMemory,
    s0: Seq<u64>,
    rb: PageTable,
    mb: PageTableMemory,
    pb: Seq<u64>,
    rc: PageTable,
    mc: PageTableMemory,
    pc: Seq<u64>,
    rd: PageTable,
    md: PageTableMemory,
    ty: A,
    start: u64,
    n: nat,
    total: nat,
    flags: u16,
    plan: Seq<PageCopy>,
    r: PageCopy,
    e: PageTableEntry,
)
    requires
        data_inv(r0, m0, s0, rb, mb, pb, ty, start, n, total, flags, plan),
        plan.len() < n,
        pages_fit(start, n),
        tree(rc, mc, ty),
        fresh_pages(rc, mc, ty, pc),
        pc.len() + 3 >= pb.len(),
        pc.len() <= pb.len(),
        pc.len() > 0,
        pc == pb.subrange(0, pc.len() as int),
        kept(rb, mb, rc, mc),
        forall|w: u64, d: nat|
            d <= 3 && (#[trigger] leaf_at(rb, mb, ty, w, d)) is Some ==> leaf_at(rc, mc, ty, w, d) == leaf_at(
                rb,
                mb,
                ty,
                w,
                d,
            ),
        forall|i: int|
            plan.len() + 1 <= i < n ==> leaf_at(r0, m0, ty, #[trigger] data_page(start, i), 3) is Some || clean(
                rc,
                mc,
                ty,
                data_page(start, i),
                3,
            ),
        leaf_at(r0, m0, ty, data_page(start, plan.len() as int), 3) is None,
        leaf_step(rc, mc, rd, md, ty, data_page(start, plan.len() as int), 3, e),
        e.spec_addr() == pc.last(),
        e.spec_flags() == FLAG_VALID | flags,
        r.phys == e.spec_addr(),
        r.fresh,
        r.offset == if plan.len() == 0 {
            start % 0x1000
        } else {
            0
        },
        r.src == copy_start((start % 0x1000) as int, total as int, plan.len() as int),
        r.len == copy_len((start % 0x1000) as int, total as int, plan.len() as int),
    ensures
        data_inv(r0, m0, s0, rd, md, pc.drop_last(), ty, start, n, total, flags, plan.push(r)),
{
    reveal(data_inv);
    let k = plan.len() as int;
    let v = data_page(start, k);
    let p2 = plan.push(r);
    let pd = pc.drop_last();
    lemma_fresh_drop_last(rc, mc, ty, pc);
    lemma_after_leaf(rc, mc, rd, md, ty, v, 3, e, pd);
    lemma_kept_trans(rb, mb, rc, mc, rd, md);
    lemma_kept_trans(r0, m0, rb, mb, rd, md);
    assert forall|q: int| 0 <= q < pc.len() implies pc[q] == s0[q] by {
        assert(pc[q] == pb[q]);
    }
    assert(pd =~= s0.subrange(0, pd.len() as int));
    assert forall|w: u64, d: nat|
        d <= 3 && (#[trigger] leaf_at(r0, m0, ty, w, d)) is Some implies leaf_at(rd, md, ty, w, d) == leaf_at(
        r0,
        m0,
        ty,
        w,
        d,
    ) by {
        lemma_frame_after_leaf(rc, mc, rd, md, ty, v, 3, e, w, d);
    }
    assert forall|i: int| 0 <= i < k + 1 implies copy_of(r0, m0, rd, md, ty, start, total, flags, i, #[trigger] p2[i]) by {
        if i < k {
            assert(p2[i] == plan[i]);
            assert(copy_of(r0, m0, rb, mb, ty, start, total, flags, i, plan[i]));
            lemma_frame_after_leaf(rc, mc, rd, md, ty, v, 3, e, data_page(start, i), 3);
        }
    }
    assert forall|i: int| 0 <= i < k + 1 && (#[trigger] p2[i]).fresh implies s0.contains(p2[i].phys) by {
        if i < k {
            assert(p2[i] == plan[i]);
        } else {
            assert(pc.last() == pc[pc.len() - 1]);
            assert(pc[pc.len() - 1] == s0[pc.len() - 1]);
        }
    }
    assert forall|i: int|
        k + 1 <= i < n implies leaf_at(r0, m0, ty, #[trigger] data_page(start, i), 3) is Some || clean(
        rd,
        md,
        ty,
        data_page(start, i),
        3,
    ) by {
        if leaf_at(r0, m0, ty, data_page(start, i), 3) is None {
            lemma_data_pages_apart(start, k, i);
            lemma_frame_after_leaf(rc, mc, rd, md, ty, v, 3, e, data_page(start, i), 3);
        }
    }
}

proof fn lemma_data_inv_start<A: PhysAddrAccess>(
    r0: PageTable,
    m0: PageTableMemory,
    s0: Seq<u64>,
    ty: A,
    start: u64,
    n: nat,
    total: nat,
    flags: u16,
)
    requires
        tree(r0, m0, ty),
        fresh_pages(r0, m0, ty, s0),
        s0.len() >= 4 * n,
        forall|i: int|
            0 <= i < n ==> leaf_at(r0, m0, ty, #[trigger] data_page(start, i), 3) is Some || clean(
                r0,
                m0,
                ty,
                data_page(start, i),
                3,
            ),
    ensures
        data_inv(r0, m0, s0, r0, m0, s0, ty, start, n, total, flags, Seq::<PageCopy>::empty()),
{
    reveal(data_inv);
    reveal(kept);
    assert(s0 =~= s0.subrange(0, s0.len() as int));
}

impl PageTable {
    /// Map page `k` of the range for data: its slot is created; a free slot gets a
    /// fresh page with `flags`. Gives the copy of the bytes of the page.
    fn map_data_page<A: PhysAddrAccess>(
        &mut self,
        mem: &mut PageTableMemory,
        memory: &mut PageSource,
        ty: A,
        v: VirtAddr,
        flags: PageFlags,
        offset: u64,
        src: u64,
        len: u64,
        Ghost(r0): Ghost<PageTable>,
        Ghost(m0): Ghost<PageTableMemory>,
        Ghost(s0): Ghost<Seq<u64>>,
        Ghost(start): Ghost<u64>,
        Ghost(n): Ghost<nat>,
        Ghost(total): Ghost<nat>,
        Ghost(plan): Ghost<Seq<PageCopy>>,
    ) -> (r: PageCopy)
        requires
            data_inv(r0, m0, s0, *old(self), *old(mem), old(memory).pages(), ty, start, n, total, flags@, plan),
            plan.len() < n,
            v@ == data_page(start, plan.len() as int),
            pages_fit(start, n),
            flags.wf(),
            flags@ & FLAG_RWX != 0,
            offset == if plan.len() == 0 {
                start % 0x1000
            } else {
                0
            },
            src == copy_start((start % 0x1000) as int, total as int, plan.len() as int),
            len == copy_len((start % 0x1000) as int, total as int, plan.len() as int),
        ensures
            data_inv(r0, m0, s0, *final(self), *final(mem), final(memory).pages(), ty, start, n, total, flags@, plan.push(r)),
    {
        let ghost k = plan.len() as int;
        let ghost rb = *self;
        let ghost mb = *mem;
        let ghost pb = memory.pages();
        let ghost others = Seq::new((n - k - 1) as nat, |j: int| (data_page(start, k + 1 + j), 3nat)).filter(
            |p: (u64, nat)| p.1 == 3 && clean(rb, mb, ty, p.0, p.1),
        );
        proof {
            reveal(data_inv);
            if leaf_at(r0, m0, ty, v@, 3) is Some {
                lemma_leaf_walkable(rb, mb, ty, v@, 3);
            } else {
                lemma_clean_walkable(rb, mb, ty, v@, 3);
            }
            lemma_others_ok(rb, mb, ty, start, n, k, others);
        }
        let (t, i) = create_entry(self, mem, memory, ty, v, 3, Ghost(others));
        let ghost rc = *self;
        let ghost mc = *mem;
        let ghost pc = memory.pages();
        proof {
            lemma_later_clean(r0, m0, rb, mb, rc, mc, ty, start, n, k, others);
        }
        let mut e = read_entry(self, mem, t, i);
        if e.flags().bits() & FLAG_VALID == FLAG_VALID {
            // the slot holds a mapping: the bytes go to its page
            proof {
                if leaf_at(r0, m0, ty, v@, 3) is None {
                    assert(clean(rb, mb, ty, v@, 3));
                    assert(false);
                }
                assert(leaf_at(rb, mb, ty, v@, 3) == leaf_at(r0, m0, ty, v@, 3));
                assert(leaf_at(rc, mc, ty, v@, 3) == leaf_at(r0, m0, ty, v@, 3));
            }
            let r = PageCopy { phys: e.addr().as_u64(), fresh: false, offset, src, len };
            proof {
                lemma_data_step_kept(r0, m0, s0, rb, mb, pb, rc, mc, pc, ty, start, n, total, flags@, plan, r);
            }
            r
        } else {
            proof {
                if leaf_at(r0, m0, ty, v@, 3) is Some {
                    assert(leaf_at(rc, mc, ty, v@, 3) is Some);
                    assert(false);
                }
                lemma_fresh_drop_last(rc, mc, ty, pc);
            }
            let p = memory.take();
            e.set_flags(PageFlags::from_bits_truncate(FLAG_VALID).union(flags));
            e.set_addr(PhysAddr::new(p));
            proof {
                flags.lemma_wf();
                let fl = flags@;
                assert((1u16 & 0xFFu16) | fl == 1u16 | fl && (fl & 0xEu16 != 0 ==> (1u16 | fl) & 0xEu16 != 0) && (1u16
                    | fl) & 1u16 == 1u16) by (bit_vector);
            }
            write_entry(self, mem, t, i, e);
            proof {
                reveal(leaf_step);
                assert(leaf_step(rc, mc, *self, *mem, ty, v@, 3, e));
            }
            let r = PageCopy { phys: p, fresh: true, offset, src, len };
            proof {
                lemma_data_step_fresh(
                    r0,
                    m0,
                    s0,
                    rb,
                    mb,
                    pb,
                    rc,
                    mc,
                    pc,
                    *self,
                    *mem,
                    ty,
                    start,
                    n,
                    total,
                    flags@,
                    plan,
                    r,
                    e,
                );
            }
            r
        }
    }
}
impl PageTable {
    /// Map `to`, rounded out to whole pages, for the bytes of `from`, the tables
    /// reached through the direct mapping. Gives the copies that put the bytes in
    /// place, the first page from the offset of `to.start`; see [`data_done`].
    pub fn map(
        &mut self,
        mem: &mut PageTableMemory,
        memory: &mut PageSource,
        to: core::ops::Range<VirtAddr>,
        flags: PageFlags,
        from: &[u8],
    ) -> (r: Vec<PageCopy>)
        requires
            data_admissible(*old(self), *old(mem), Hhdm, old(memory).pages(), to.start@, to.end@, from@.len(), flags@),
        ensures
            data_done(
                *old(self),
                *old(mem),
                *final(self),
                *final(mem),
                Hhdm,
                old(memory).pages(),
                final(memory).pages(),
                to.start@,
                to.end@,
                from@.len(),
                flags@,
                r@,
            ),
    {
        self._map(mem, memory, to, flags, from, Hhdm)
    }

    /// Map `to` for the bytes of `from`, with paging disabled.
    pub fn map_without_paging(
        &mut self,
        mem: &mut PageTableMemory,
        memory: &mut PageSource,
        to: core::ops::Range<VirtAddr>,
        flags: PageFlags,
        from: &[u8],
    ) -> (r: Vec<PageCopy>)
        requires
            data_admissible(*old(self), *old(mem), NoPaging, old(memory).pages(), to.start@, to.end@, from@.len(), flags@),
        ensures
            data_done(
                *old(self),
                *old(mem),
                *final(self),
                *final(mem),
                NoPaging,
                old(memory).pages(),
                final(memory).pages(),
                to.start@,
                to.end@,
                from@.len(),
                flags@,
                r@,
            ),
    {
        self._map(mem, memory, to, flags, from, NoPaging)
    }

    /// Map the pages of `to`, and of as many pages after as the bytes of `from` need
    /// from the offset of `to.start`, each to the page it is mapped to already or to a
    /// fresh page with `flags`; the copies of the bytes are given in page order.
    fn _map<A: PhysAddrAccess>(
        &mut self,
        mem: &mut PageTableMemory,
        memory: &mut PageSource,
        to: core::ops::Range<VirtAddr>,
        flags: PageFlags,
        from: &[u8],
        ty: A,
    ) -> (r: Vec<PageCopy>)
        requires
            data_admissible(*old(self), *old(mem), ty, old(memory).pages(), to.start@, to.end@, from@.len(), flags@),
        ensures
            data_done(
                *old(self),
                *old(mem),
                *final(self),
                *final(mem),
                ty,
                old(memory).pages(),
                final(memory).pages(),
                to.start@,
                to.end@,
                from@.len(),
                flags@,
                r@,
            ),
    {
        let ghost r0 = *self;
        let ghost m0 = *mem;
        let ghost s0 = memory.pages();
        proof {
            to.start.lemma_wf();
            to.end.lemma_wf();
            crate::addr::lemma_align_down_props(to.start@ as int, 0x1000);
            crate::addr::lemma_align_up_props(to.end@ as int, 0x1000);
            flags.lemma_wf_small();
        }
        let pad = to.start.offset();
        let start = to.start.align_down();
        let end = to.end.align_up();
        let total = from.len() as u64;
        let span = end.as_u64() - start.as_u64();
        let bytes = if pad + total >= span {
            pad + total
        } else {
            span
        };
        let n = bytes / 0x1000 + if bytes % 0x1000 != 0 {
            1
        } else {
            0
        };
        assert(n as nat == data_page_count(to.start@, to.end@, from@.len()));
        proof {
            lemma_data_inv_start(r0, m0, s0, ty, to.start@, n as nat, total as nat, flags@);
        }
        let mut plan: Vec<PageCopy> = Vec::new();
        let mut padding = pad;
        let mut consumed: u64 = 0;
        let mut i: u64 = 0;
        while i < n
            invariant
                data_inv(r0, m0, s0, *self, *mem, memory.pages(), ty, to.start@, n as nat, total as nat, flags@, plan@),
                plan@.len() == i,
                i <= n,
                padding == if i == 0 {
                    pad
                } else {
                    0
                },
                pad == to.start@ % 0x1000,
                consumed == copy_start(pad as int, total as int, i as int),
                consumed <= total,
                pages_fit(to.start@, n as nat),
                start@ == crate::addr::spec_align_down(to.start@ as int, 0x1000),
                flags.wf(),
                flags@ & FLAG_RWX != 0,
            decreases n - i,
        {
            assert(crate::addr::is_virt_canonical(data_page(to.start@, i as int)));
            let v = start.add_u64(i * 0x1000);
            let room = 0x1000 - padding;
            let left = total - consumed;
            let take = if left <= room {
                left
            } else {
                room
            };
            let c = self.map_data_page(
                mem,
                memory,
                ty,
                v,
                flags,
                padding,
                consumed,
                take,
                Ghost(r0),
                Ghost(m0),
                Ghost(s0),
                Ghost(to.start@),
                Ghost(n as nat),
                Ghost(total as nat),
                Ghost(plan@),
            );
            plan.push(c);
            consumed = consumed + take;
            padding = 0;
            i = i + 1;
        }
        proof {
            reveal(data_inv);
        }
        plan
    }
}

} // verus!
