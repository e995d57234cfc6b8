//! The associative part as a whole: its cells, its free cursor, and the
//! check that the cells form legal collision chains.

use vstd::prelude::*;
use crate::assoc::{
    AssocItem, Key, LogSize, MAX_LOGLEN, size_of, spec_mask, mask, lemma_pow2_bounds,
    lemma_position_below, lemma_masked_below,
};
use vstd::pervasive::VecAdditionalExecFns;
use crate::assoc::name_bytes;

verus! {

/// Why a table layout was refused.
#[derive(PartialEq, Eq, Structural, Clone, Copy, Debug)]
pub enum TableFault {
    LinkOutOfBounds,
    ChainLoop,
    KeyOutOfPosition,
    LastFreeTooLarge,
    TooLarge,
}

impl TableFault {
    /// The fixed reason of the fault.
    pub fn reason(&self) -> (r: &'static str)
        ensures
            r@ == self.spec_reason(),
    {
        match self {
            TableFault::LinkOutOfBounds => "assoc node link should lead within bounds",
            TableFault::ChainLoop => "assoc node chain should not form a loop",
            TableFault::KeyOutOfPosition => "table key should be in a valid position",
            TableFault::LastFreeTooLarge => "last free index should not exceed table size",
            TableFault::TooLarge => "the table should not be that large",
        }
    }

    pub open spec fn spec_reason(&self) -> Seq<char> {
        match self {
            TableFault::LinkOutOfBounds => "assoc node link should lead within bounds"@,
            TableFault::ChainLoop => "assoc node chain should not form a loop"@,
            TableFault::KeyOutOfPosition => "table key should be in a valid position"@,
            TableFault::LastFreeTooLarge => "last free index should not exceed table size"@,
            TableFault::TooLarge => "the table should not be that large"@,
        }
    }
}

pub type Cells<V> = Seq<Option<AssocItem<V>>>;

/// The main position of cell `i`: that of its key if live, its own index
/// if dead, none if empty.
pub open spec fn cell_main<V>(cells: Cells<V>, loglen: LogSize, i: int) -> Option<int> {
    match cells[i] {
        None => None,
        Some(AssocItem::Dead { .. }) => Some(i),
        Some(AssocItem::Live { key, .. }) => Some(key.spec_position(loglen) as int),
    }
}

/// The link of cell `i`; zero for an empty cell or an index out of range.
pub open spec fn link_at<V>(cells: Cells<V>, i: int) -> int {
    if 0 <= i < cells.len() {
        match cells[i] {
            None => 0,
            Some(item) => item.link_of() as int,
        }
    } else {
        0
    }
}

/// A cell that a chain starts from: it is at its own main position.
pub open spec fn is_root<V>(cells: Cells<V>, loglen: LogSize, p: int) -> bool {
    cell_main(cells, loglen, p) == Some(p)
}

/// The cell reached from `p` after following `k` links.
pub open spec fn chain_at<V>(cells: Cells<V>, p: int, k: nat) -> int
    decreases k,
{
    if k == 0 {
        p
    } else {
        let q = chain_at(cells, p, (k - 1) as nat);
        q + link_at(cells, q)
    }
}

/// The outcome of following a chain.
pub enum Walk {
    /// The chain ends after that many links.
    Ends(nat),
    Fault(TableFault),
}

/// Following the chain from `pos`, reached after `steps` links: it ends at
/// a zero link, fails on a link out of bounds, or on as many links as cells.
pub open spec fn walk<V>(cells: Cells<V>, pos: int, steps: nat) -> Walk
    decreases cells.len() - steps,
{
    if !(0 <= pos < cells.len()) || steps >= cells.len() || link_at(cells, pos) == 0 {
        Walk::Ends(steps)
    } else {
        let next = pos + link_at(cells, pos);
        if !(0 <= next < cells.len()) {
            Walk::Fault(TableFault::LinkOutOfBounds)
        } else if steps + 1 >= cells.len() {
            Walk::Fault(TableFault::ChainLoop)
        } else {
            walk(cells, next, steps + 1)
        }
    }
}

/// Cell `i` lies on the first `n` cells of the chain from `p`.
pub open spec fn visited<V>(cells: Cells<V>, p: int, i: int, n: nat) -> bool {
    exists|k: nat| k < n && #[trigger] chain_at(cells, p, k) == i
}

/// Cell `i` is empty, or lies on the chain of its main position.
pub open spec fn covered<V>(cells: Cells<V>, loglen: LogSize, i: int) -> bool {
    match cell_main(cells, loglen, i) {
        None => true,
        Some(q) => is_root(cells, loglen, q) && match walk(cells, q, 0) {
            Walk::Ends(n) => visited(cells, q, i, n + 1),
            Walk::Fault(_) => false,
        },
    }
}

/// The fault of the first chain, from cell `from` on, that fails.
pub open spec fn first_fault<V>(cells: Cells<V>, loglen: LogSize, from: int) -> Option<TableFault>
    decreases cells.len() - from,
{
    if from < 0 || from >= cells.len() {
        None
    } else if is_root(cells, loglen, from) && walk(cells, from, 0) is Fault {
        Some(walk(cells, from, 0)->Fault_0)
    } else {
        first_fault(cells, loglen, from + 1)
    }
}

/// The verdict on a layout: the fault of the first chain that fails, else
/// whether every item lies on the chain of its main position.
pub open spec fn spec_validate<V>(cells: Cells<V>, loglen: LogSize) -> Result<(), TableFault> {
    match first_fault(cells, loglen, 0) {
        Some(f) => Err(f),
        None => if forall|i: int| 0 <= i < cells.len() ==> #[trigger] covered(cells, loglen, i) {
            Ok(())
        } else {
            Err(TableFault::KeyOutOfPosition)
        },
    }
}

/// Cell `i` lies on the first `n + 1` cells of a chain exactly when it lies
/// on the first `n` or is the `n`-th.
pub proof fn lemma_visited_step<V>(cells: Cells<V>, p: int, i: int, n: nat)
    ensures
        visited(cells, p, i, n + 1) == (visited(cells, p, i, n) || chain_at(cells, p, n) == i),
{
    if visited(cells, p, i, n + 1) && chain_at(cells, p, n) != i {
        let k = choose|k: nat| k < n + 1 && #[trigger] chain_at(cells, p, k) == i;
        assert(k < n);
    }
    if chain_at(cells, p, n) == i {
        assert(n < n + 1 && chain_at(cells, p, n) == i);
    }
}

/// What the checker's record holds for cell `i` while it walks the chain
/// rooted at `p` and has seen its first `steps` cells: none once the cell
/// is accounted for, else its main position.
pub open spec fn pending<V>(cells: Cells<V>, loglen: LogSize, i: int, p: int, steps: nat) -> Option<u32> {
    match cell_main(cells, loglen, i) {
        None => None,
        Some(q) => if (q < p && covered(cells, loglen, i)) || (q == p && visited(cells, p, i, steps)) {
            None
        } else {
            Some(q as u32)
        },
    }
}

proof fn lemma_no_fault_from<V>(cells: Cells<V>, loglen: LogSize, from: int, p: int)
    requires
        first_fault(cells, loglen, from) is None,
        0 <= from <= p < cells.len(),
        is_root(cells, loglen, p),
    ensures
        walk(cells, p, 0) is Ends,
    decreases p - from,
{
    if from < p {
        lemma_no_fault_from(cells, loglen, from + 1, p);
    }
}

proof fn lemma_walk_ends_inside<V>(cells: Cells<V>, pos: int, steps: nat, p: int)
    requires
        steps < cells.len(),
        0 <= pos < cells.len(),
        pos == chain_at(cells, p, steps),
        walk(cells, pos, steps) is Ends,
    ensures
        walk(cells, pos, steps)->Ends_0 < cells.len(),
        forall|k: nat| steps <= k <= walk(cells, pos, steps)->Ends_0
            ==> 0 <= #[trigger] chain_at(cells, p, k) < cells.len(),
    decreases cells.len() - steps,
{
    if link_at(cells, pos) != 0 {
        let next = pos + link_at(cells, pos);
        if 0 <= next < cells.len() && steps + 1 < cells.len() {
            lemma_walk_ends_inside(cells, next, steps + 1, p);
            assert forall|k: nat| steps <= k <= walk(cells, pos, steps)->Ends_0
                implies 0 <= #[trigger] chain_at(cells, p, k) < cells.len() by {
                if k > steps {
                    assert(chain_at(cells, p, k) == chain_at(cells, p, k));
                }
            }
        }
    }
}

/// In a table whose layout is valid, the chain from each cell at its main
/// position ends after fewer links than there are cells, and every cell it
/// passes lies inside the table.
pub proof fn lemma_valid_chains_bounded<V>(cells: Cells<V>, loglen: LogSize, p: int)
    requires
        spec_validate(cells, loglen) is Ok,
        0 <= p < cells.len(),
        is_root(cells, loglen, p),
    ensures
        walk(cells, p, 0) is Ends,
        walk(cells, p, 0)->Ends_0 < cells.len(),
        forall|k: nat| k <= walk(cells, p, 0)->Ends_0 ==> 0 <= #[trigger] chain_at(cells, p, k) < cells.len(),
{
    lemma_no_fault_from(cells, loglen, 0, p);
    lemma_walk_ends_inside(cells, p, 0, p);
}

/// The associative part of a table.
pub struct Table<V> {
    items: Vec<Option<AssocItem<V>>>,
    loglen: Option<LogSize>,
    last_free: u32,
}

impl<V> Table<V> {
    pub closed spec fn cells(&self) -> Cells<V> {
        self.items@
    }

    pub closed spec fn spec_loglen(&self) -> Option<LogSize> {
        self.loglen
    }

    pub closed spec fn spec_last_free(&self) -> u32 {
        self.last_free
    }

    /// The capacity is `2^loglen` (none when empty), and every key can be hashed.
    pub open spec fn wf(&self) -> bool {
        &&& self.spec_loglen() matches Some(l) ==> l <= MAX_LOGLEN
        &&& self.cells().len() == size_of(self.spec_loglen())
        &&& forall|i: int| 0 <= i < self.cells().len() && #[trigger] self.cells()[i] is Some
            ==> self.cells()[i]->Some_0.wf()
    }

    /// The logarithm that keys are hashed with.
    pub open spec fn hash_loglen(&self) -> LogSize {
        match self.spec_loglen() {
            Some(l) => l,
            None => 0,
        }
    }

    /// An empty table of `2^loglen` cells, or of none.
    pub fn new(loglen: Option<LogSize>) -> (r: Self)
        requires
            loglen matches Some(l) ==> l <= MAX_LOGLEN,
        ensures
            r.wf(),
            r.spec_loglen() == loglen,
            r.spec_last_free() == size_of(loglen),
            forall|i: int| 0 <= i < r.cells().len() ==> #[trigger] r.cells()[i] is None,
    {
        let size: u32 = match loglen {
            None => 0,
            Some(l) => {
                proof { lemma_pow2_bounds(l as nat); }
                1u32 << l
            },
        };
        let mut items: Vec<Option<AssocItem<V>>> = Vec::with_capacity(size as usize);
        let mut n: u32 = 0;
        while n < size
            invariant
                n <= size,
                items@.len() == n,
                forall|i: int| 0 <= i < n ==> #[trigger] items@[i] is None,
            decreases size - n,
        {
            items.push(None);
            n = n + 1;
        }
        Table { items, loglen, last_free: size }
    }

    pub fn loglen(&self) -> (r: Option<LogSize>)
        ensures
            r == self.spec_loglen(),
    {
        self.loglen
    }

    /// The number of cells.
    pub fn len(&self) -> (r: usize)
        ensures
            r == self.cells().len(),
    {
        self.items.len()
    }

    pub fn last_free(&self) -> (r: u32)
        ensures
            r == self.spec_last_free(),
    {
        self.last_free
    }

    /// The cells in their natural order.
    pub fn iter(&self) -> (r: &[Option<AssocItem<V>>])
        ensures
            r@ == self.cells(),
    {
        self.items.as_slice()
    }

    /// Checks that the cells form legal chains: every chain that starts at
    /// a cell in its main position stays inside the table and ends before
    /// it has as many links as there are cells, and every item lies on the
    /// chain of its main position.
    pub fn validate_positions(&self) -> (r: Result<(), TableFault>)
        requires
            self.wf(),
        ensures
            r == spec_validate(self.cells(), self.hash_loglen()),
    {
        let loglen = match self.loglen {
            None => { return Ok(()); },
            Some(l) => l,
        };
        let ghost cells = self.items@;
        proof { lemma_pow2_bounds(loglen as nat); }
        let len: u32 = self.items.len() as u32;
        let mut unvalidated: Vec<Option<u32>> = Vec::with_capacity(self.items.len());
        let mut i: usize = 0;
        while i < self.items.len()
            invariant
                self.wf(),
                cells == self.cells(),
                self.spec_loglen() == Some(loglen),
                len == cells.len(),
                i <= cells.len(),
                unvalidated@.len() == i,
                forall|j: int| 0 <= j < i ==> #[trigger] unvalidated@[j]
                    == pending(cells, loglen, j, 0, 0),
            decreases cells.len() - i,
        {
            let m: Option<u32> = match &self.items[i] {
                None => None,
                Some(item) => match item.main_position(loglen) {
                    Some(p) => Some(p),
                    None => Some(i as u32),
                },
            };
            proof {
                if let Some(AssocItem::Live { key, .. }) = cells[i as int] {
                    lemma_position_below(key, loglen);
                }
            }
            unvalidated.push(m);
            i = i + 1;
        }
        let mut main_position: u32 = 0;
        while main_position < len
            invariant
                self.wf(),
                cells == self.cells(),
                self.spec_loglen() == Some(loglen),
                len == cells.len(),
                main_position <= len,
                unvalidated@.len() == len,
                first_fault(cells, loglen, 0) == first_fault(cells, loglen, main_position as int),
                forall|j: int| 0 <= j < len ==> #[trigger] unvalidated@[j]
                    == pending(cells, loglen, j, main_position as int, 0),
            decreases len - main_position,
        {
            let p = main_position;
            let is_chain_start = match unvalidated[p as usize] {
                Some(q) => q == p,
                None => false,
            };
            proof {
                if let Some(AssocItem::Live { key, .. }) = cells[p as int] {
                    lemma_position_below(key, loglen);
                }
            }
            if is_chain_start {
                let mut position: u32 = p;
                let mut steps: u32 = 0;
                loop
                    invariant_except_break
                        forall|j: int| 0 <= j < len ==> #[trigger] unvalidated@[j]
                            == pending(cells, loglen, j, p as int, steps as nat),
                    invariant
                        self.wf(),
                        cells == self.cells(),
                        self.spec_loglen() == Some(loglen),
                        len == cells.len(),
                        p < len,
                        is_root(cells, loglen, p as int),
                        first_fault(cells, loglen, 0) == first_fault(cells, loglen, p as int),
                        unvalidated@.len() == len,
                        position < len,
                        steps < len,
                        position == chain_at(cells, p as int, steps as nat),
                        walk(cells, p as int, 0) == walk(cells, position as int, steps as nat),
                    ensures
                        walk(cells, p as int, 0) == Walk::Ends(steps as nat),
                        forall|j: int| 0 <= j < len ==> #[trigger] unvalidated@[j]
                            == pending(cells, loglen, j, p as int, (steps + 1) as nat),
                    decreases len - steps,
                {
                    let index = position as usize;
                    let seen = match unvalidated[index] {
                        Some(q) => q == p,
                        None => false,
                    };
                    if seen {
                        unvalidated.set(index, None);
                    }
                    proof {
                        assert forall|j: int| 0 <= j < len implies #[trigger] unvalidated@[j]
                            == pending(cells, loglen, j, p as int, (steps + 1) as nat) by {
                            lemma_visited_step(cells, p as int, j, steps as nat);
                            if let Some(AssocItem::Live { key, .. }) = cells[j] {
                                lemma_position_below(key, loglen);
                            }
                        }
                    }
                    let link: i32 = match &self.items[index] {
                        Some(item) => item.link(),
                        None => 0,
                    };
                    if link == 0 {
                        break;
                    }
                    let next = match position.checked_add_signed(link) {
                        Some(next) if next < len => next,
                        _ => { return Err(TableFault::LinkOutOfBounds); },
                    };
                    position = next;
                    steps = steps + 1;
                    if steps >= len {
                        return Err(TableFault::ChainLoop);
                    }
                }
            }
            proof {
                assert forall|j: int| 0 <= j < len implies #[trigger] unvalidated@[j]
                    == pending(cells, loglen, j, p + 1, 0) by {
                    if let Some(AssocItem::Live { key, .. }) = cells[j] {
                        lemma_position_below(key, loglen);
                    }
                }
            }
            main_position = main_position + 1;
        }
        let mut k: u32 = 0;
        while k < len
            invariant
                cells == self.cells(),
                self.spec_loglen() == Some(loglen),
                len == cells.len(),
                k <= len,
                loglen <= MAX_LOGLEN,
                unvalidated@.len() == len,
                first_fault(cells, loglen, 0) == None::<TableFault>,
                forall|j: int| 0 <= j < len ==> #[trigger] unvalidated@[j]
                    == pending(cells, loglen, j, len as int, 0),
                forall|j: int| 0 <= j < k ==> #[trigger] covered(cells, loglen, j),
            decreases len - k,
        {
            if unvalidated[k as usize].is_some() {
                proof {
                    if let Some(AssocItem::Live { key, .. }) = cells[k as int] {
                        lemma_position_below(key, loglen);
                    }
                    assert(!covered(cells, loglen, k as int));
                }
                return Err(TableFault::KeyOutOfPosition);
            }
            k = k + 1;
        }
        Ok(())
    }
}


/// Every link of a cell leads to a cell of the table.
pub open spec fn links_in_bounds<V>(cells: Cells<V>) -> bool {
    forall|i: int| 0 <= i < cells.len() ==> 0 <= #[trigger] link_at(cells, i) + i < cells.len()
}

/// The cell that `insert` looks for a free place from: the largest empty
/// cell below `last_free`.
pub open spec fn is_next_free<V>(cells: Cells<V>, last_free: int, f: int) -> bool {
    &&& 0 <= f < last_free
    &&& cells[f] is None
    &&& forall|j: int| f < j < last_free ==> #[trigger] cells[j] is Some
}

/// No empty cell lies below `last_free`.
pub open spec fn full_below<V>(cells: Cells<V>, last_free: int) -> bool {
    forall|j: int| 0 <= j < last_free ==> #[trigger] cells[j] is Some
}

/// An insert at main position `m` has room: the cell is empty, or an empty
/// cell lies below the free cursor.
pub open spec fn has_room<V>(cells: Cells<V>, last_free: u32, m: int) -> bool {
    cells[m] is None || !full_below(cells, last_free as int)
}

/// The number of links from `p` to the cell whose link leads to `m`, if
/// there is such a cell among the first `cells.len()` of the chain.
pub open spec fn leads_to<V>(cells: Cells<V>, p: int, m: int, k: nat) -> bool {
    &&& k < cells.len()
    &&& forall|j: nat| j <= k ==> link_at(cells, #[trigger] chain_at(cells, p, j)) != 0
    &&& chain_at(cells, p, k + 1) == m
    &&& forall|j: nat| j < k ==> #[trigger] chain_at(cells, p, j + 1) != m
}

/// An item to insert: a live entry, or a dead cell for a key's position.
pub enum InsertItem<V> {
    Dead { position: u32 },
    Live { key: Key, value: Option<V> },
}

impl<V> InsertItem<V> {
    pub open spec fn wf(&self) -> bool {
        match self {
            InsertItem::Dead { .. } => true,
            InsertItem::Live { key, .. } => key.wf(),
        }
    }

    pub open spec fn spec_position(&self, loglen: LogSize) -> u32 {
        match self {
            InsertItem::Dead { position } => *position & spec_mask(loglen),
            InsertItem::Live { key, .. } => key.spec_position(loglen),
        }
    }

    pub open spec fn spec_into_item(self, link: i32) -> AssocItem<V> {
        match self {
            InsertItem::Dead { .. } => AssocItem::Dead { link },
            InsertItem::Live { key, value } => AssocItem::Live { key, value, link },
        }
    }

    /// A dead item at the position of `key`.
    pub fn dead_from_key(key: Key, loglen: LogSize) -> (r: Self)
        requires
            key.wf(),
            loglen <= MAX_LOGLEN,
        ensures
            r == (InsertItem::<V>::Dead { position: key.spec_position(loglen) }),
    {
        InsertItem::Dead { position: key.position(loglen) }
    }

    pub fn position(&self, loglen: LogSize) -> (r: u32)
        requires
            self.wf(),
            loglen <= MAX_LOGLEN,
        ensures
            r == self.spec_position(loglen),
            r < size_of(Some(loglen)),
    {
        match self {
            InsertItem::Dead { position } => {
                proof { lemma_masked_below(*position, loglen); }
                *position & mask(loglen)
            },
            InsertItem::Live { key, .. } => key.position(loglen),
        }
    }

    pub fn into_item(self, link: i32) -> (r: AssocItem<V>)
        ensures
            r == self.spec_into_item(link),
    {
        match self {
            InsertItem::Dead { .. } => AssocItem::Dead { link },
            InsertItem::Live { key, value } => AssocItem::Live { value, key, link },
        }
    }
}

/// The item `y` moved from cell `from` to cell `to`, its link kept on target.
pub open spec fn moved<V>(y: AssocItem<V>, from: int, to: int) -> AssocItem<V> {
    y.with_link(if y.link_of() == 0 { 0 } else { (y.link_of() + from - to) as i32 })
}

/// The cells after inserting `item` whose main position `m` is taken by
/// `cells[m]`, with `f` the free cell and, when the incumbent is not at its
/// main position, `prev` the cell whose link leads to `m`.
pub open spec fn cells_after_collision<V>(
    cells: Cells<V>,
    item: InsertItem<V>,
    m: int,
    f: int,
    own: bool,
    prev: int,
) -> Cells<V> {
    let y = cells[m]->Some_0;
    if own {
        cells.update(m, Some(item.spec_into_item((f - m) as i32))).update(f, Some(moved(y, m, f)))
    } else {
        let p = cells[prev]->Some_0;
        cells.update(m, Some(item.spec_into_item(0))).update(f, Some(moved(y, m, f))).update(
            prev,
            Some(moved(p, f, m)),
        )
    }
}

/// What inserting `item` into `cells` with free cursor `lf` yields: new
/// cells `nc`, new cursor `nlf`, and whether the item was placed.
/// An empty main cell takes the item. Otherwise the largest empty cell `f`
/// below `lf` is taken; the incumbent moves there, keeping its link on
/// target. If the incumbent is at its own main position, the item takes
/// the main cell and links to `f`; else the item takes the main cell
/// unlinked and the incumbent's predecessor on its chain links to `f`.
/// Nothing is placed when no cell is free, or when the incumbent's chain
/// does not lead to the main cell.
pub open spec fn inserted<V>(
    cells: Cells<V>,
    lf: u32,
    item: InsertItem<V>,
    loglen: LogSize,
    nc: Cells<V>,
    nlf: u32,
    r: bool,
) -> bool {
    let m = item.spec_position(loglen) as int;
    if cells[m] is None {
        r && nlf == lf && nc == cells.update(m, Some(item.spec_into_item(0)))
    } else if full_below(cells, lf as int) {
        !r && nlf == 0 && nc == cells
    } else {
        forall|f: int| #[trigger] is_next_free(cells, lf as int, f) ==> {
            &&& nlf == f
            &&& match cell_main(cells, loglen, m) {
                Some(o) => if o == m {
                    r && nc == cells_after_collision(cells, item, m, f, true, 0)
                } else if exists|k: nat| #[trigger] leads_to(cells, o, m, k) {
                    forall|k: nat| #[trigger] leads_to(cells, o, m, k) ==> r && nc
                        == cells_after_collision(cells, item, m, f, false, chain_at(cells, o, k))
                } else {
                    !r && nc == cells
                },
                None => false,
            }
        }
    }
}

/// Builds a table from entries one at a time, placing each the way Lua
/// does: at its main position, or in a free cell chained from there.
pub struct TableBuilder<V> {
    table: Table<V>,
}

impl<V> TableBuilder<V> {
    pub closed spec fn view_table(&self) -> Table<V> {
        self.table
    }

    pub open spec fn wf(&self) -> bool {
        &&& self.view_table().wf()
        &&& self.view_table().spec_last_free() <= self.view_table().cells().len()
        &&& links_in_bounds(self.view_table().cells())
    }

    pub fn new(loglen: Option<LogSize>) -> (r: Self)
        requires
            loglen matches Some(l) ==> l <= MAX_LOGLEN,
        ensures
            r.wf(),
            r.view_table().spec_loglen() == loglen,
            r.view_table().spec_last_free() == size_of(loglen),
            forall|i: int| 0 <= i < r.view_table().cells().len()
                ==> #[trigger] r.view_table().cells()[i] is None,
    {
        let table = Table::new(loglen);
        proof {
            assert forall|i: int| 0 <= i < table.cells().len() implies
                0 <= #[trigger] link_at(table.cells(), i) + i < table.cells().len() by {
                assert(table.cells()[i] is None);
            }
        }
        TableBuilder { table }
    }

    pub fn build(self) -> (r: Table<V>)
        ensures
            r == self.view_table(),
    {
        self.table
    }

    fn get(&self, index: u32) -> (r: &Option<AssocItem<V>>)
        requires
            index < self.table.items@.len(),
        ensures
            *r == self.table.items@[index as int],
    {
        &self.table.items[index as usize]
    }

    /// Inserts a live entry as `inserted` describes; returns whether it
    /// was placed.
    pub fn insert(&mut self, key: Key, value: Option<V>) -> (r: bool)
        requires
            old(self).wf(),
            old(self).view_table().spec_loglen() is Some,
            key.wf(),
            has_room(
                old(self).view_table().cells(),
                old(self).view_table().spec_last_free(),
                key.spec_position(old(self).view_table().spec_loglen()->Some_0) as int,
            ),
        ensures
            final(self).wf(),
            final(self).view_table().spec_loglen() == old(self).view_table().spec_loglen(),
            inserted(
                old(self).view_table().cells(),
                old(self).view_table().spec_last_free(),
                InsertItem::Live { key, value },
                old(self).view_table().spec_loglen()->Some_0,
                final(self).view_table().cells(),
                final(self).view_table().spec_last_free(),
                r,
            ),
    {
        self.insert_item(InsertItem::Live { key, value })
    }

    /// Inserts a dead cell at the position of `key`, as `inserted`
    /// describes; returns whether it was placed.
    pub fn insert_dead(&mut self, key: Key) -> (r: bool)
        requires
            old(self).wf(),
            old(self).view_table().spec_loglen() is Some,
            key.wf(),
            has_room(
                old(self).view_table().cells(),
                old(self).view_table().spec_last_free(),
                (InsertItem::<V>::Dead {
                    position: key.spec_position(old(self).view_table().spec_loglen()->Some_0),
                }).spec_position(old(self).view_table().spec_loglen()->Some_0) as int,
            ),
        ensures
            final(self).wf(),
            final(self).view_table().spec_loglen() == old(self).view_table().spec_loglen(),
            inserted(
                old(self).view_table().cells(),
                old(self).view_table().spec_last_free(),
                InsertItem::Dead {
                    position: key.spec_position(old(self).view_table().spec_loglen()->Some_0),
                },
                old(self).view_table().spec_loglen()->Some_0,
                final(self).view_table().cells(),
                final(self).view_table().spec_last_free(),
                r,
            ),
    {
        let loglen = self.table.loglen.unwrap();
        let item = InsertItem::dead_from_key(key, loglen);
        self.insert_item(item)
    }

    /// Places `item` as `inserted` describes.
    fn insert_item(&mut self, item: InsertItem<V>) -> (r: bool)
        requires
            old(self).wf(),
            old(self).table.loglen is Some,
            item.wf(),
            has_room(
                old(self).table.items@,
                old(self).table.last_free,
                item.spec_position(old(self).table.loglen->Some_0) as int,
            ),
        ensures
            final(self).wf(),
            final(self).table.loglen == old(self).table.loglen,
            inserted(
                old(self).table.items@,
                old(self).table.last_free,
                item,
                old(self).table.loglen->Some_0,
                final(self).table.items@,
                final(self).table.last_free,
                r,
            ),
    {
        let ghost cells = self.table.items@;
        let ghost lf = self.table.last_free;
        let ghost gitem = item;
        let loglen = self.table.loglen.unwrap();
        proof { lemma_pow2_bounds(loglen as nat); }
        let len: u32 = self.table.items.len() as u32;
        let main_index = item.position(loglen);
        let ghost m = main_index as int;
        if self.table.items[main_index as usize].is_none() {
            self.table.items.set(main_index as usize, Some(item.into_item(0)));
            proof {
                let nc = self.table.items@;
                assert forall|i: int| 0 <= i < nc.len() implies
                    0 <= #[trigger] link_at(nc, i) + i < nc.len() by {
                    assert(link_at(cells, i) + i < nc.len());
                }
            }
            return true;
        }
        let free_index = match self.find_free_index() {
            Some(f) => f,
            None => { return false; },
        };
        let ghost f = free_index as int;
        proof {
            assert forall|g: int| #[trigger] is_next_free(cells, lf as int, g) implies g == f by {
                if g < f { assert(cells[g] is Some); }
                if g > f { assert(cells[f] is Some); }
            }
        }
        let other_index = match &self.table.items[main_index as usize] {
            Some(y) => match y.main_position(loglen) {
                Some(o) => o,
                None => main_index,
            },
            None => main_index,
        };
        if other_index == main_index {
            let link = free_index as i32 - main_index as i32;
            let mut slot = Some(item.into_item(link));
            self.table.items.set_and_swap(main_index as usize, &mut slot);
            let y = slot.unwrap();
            assert(0 <= link_at(cells, m) + m < len);
            self.table.items.set(free_index as usize, Some(y.relocate(main_index, free_index)));
            proof {
                let nc = self.table.items@;
                assert(nc == cells_after_collision(cells, gitem, m, f, true, 0));
                assert forall|i: int| 0 <= i < nc.len() implies
                    0 <= #[trigger] link_at(nc, i) + i < nc.len() by {
                    assert(link_at(cells, i) + i < nc.len());
                }
                assert forall|i: int| 0 <= i < nc.len() && #[trigger] nc[i] is Some
                    implies nc[i]->Some_0.wf() by {
                    assert(cells[i] is Some ==> cells[i]->Some_0.wf());
                    assert(cells[m] is Some ==> cells[m]->Some_0.wf());
                }
            }
            return true;
        }
        let ghost o = other_index as int;
        let mut prev_index: u32 = other_index;
        let mut k: u32 = 0;
        loop
            invariant
                self.wf(),
                self.table.items@ == cells,
                self.table.loglen == Some(loglen),
                self.table.last_free == free_index,
                old(self).table.loglen == Some(loglen),
                old(self).table.items@ == cells,
                old(self).table.last_free == lf,
                item == gitem,
                m == main_index,
                m == gitem.spec_position(loglen),
                f == free_index,
                is_next_free(cells, lf as int, f),
                !full_below(cells, lf as int),
                forall|g: int| #[trigger] is_next_free(cells, lf as int, g) ==> g == f,
                loglen <= MAX_LOGLEN,
                len == cells.len(),
                main_index < len,
                free_index < len,
                cells[m] is Some,
                cells[free_index as int] is None,
                cell_main(cells, loglen, m) == Some(o),
                o != m,
                k < len,
                prev_index < len,
                prev_index == chain_at(cells, o, k as nat),
                forall|j: nat| j < k ==> link_at(cells, #[trigger] chain_at(cells, o, j)) != 0,
                forall|j: nat| j < k ==> #[trigger] chain_at(cells, o, j + 1) != m,
            ensures
                leads_to(cells, o, m, k as nat),
                prev_index == chain_at(cells, o, k as nat),
                prev_index < len,
            decreases len - k,
        {
            let link: i32 = match &self.table.items[prev_index as usize] {
                Some(item) => item.link(),
                None => 0,
            };
            if link == 0 {
                proof {
                    assert forall|kk: nat| !leads_to(cells, o, m, kk) by {
                        if leads_to(cells, o, m, kk) {
                            if kk >= k {
                                assert(link_at(cells, chain_at(cells, o, k as nat)) != 0);
                            } else {
                                assert(chain_at(cells, o, kk + 1) != m);
                            }
                        }
                    }
                }
                return false;
            }
            assert(0 <= link_at(cells, prev_index as int) + prev_index < len);
            let next: u32 = (prev_index as i64 + link as i64) as u32;
            if next == main_index {
                break;
            }
            k = k + 1;
            if k >= len {
                proof {
                    assert forall|kk: nat| !leads_to(cells, o, m, kk) by {
                        if leads_to(cells, o, m, kk) {
                            assert(chain_at(cells, o, kk + 1) != m);
                        }
                    }
                }
                return false;
            }
            prev_index = next;
        }
        proof {
            assert forall|kk: nat| #[trigger] leads_to(cells, o, m, kk) implies kk == k by {
                if kk < k { assert(chain_at(cells, o, kk + 1) != m); }
                if kk > k { assert(chain_at(cells, o, (k as nat) + 1) != m); }
            }
        }
        let ghost pv = prev_index as int;
        assert(cells[pv] is Some);
        let mut slot = Some(item.into_item(0));
        self.table.items.set_and_swap(main_index as usize, &mut slot);
        let y = slot.unwrap();
        assert(0 <= link_at(cells, m) + m < len);
        self.table.items.set(free_index as usize, Some(y.relocate(main_index, free_index)));
        let mut pslot: Option<AssocItem<V>> = None;
        self.table.items.set_and_swap(prev_index as usize, &mut pslot);
        let mut p = pslot.unwrap();
        p.relocate_link(main_index, free_index);
        self.table.items.set(prev_index as usize, Some(p));
        proof {
            let nc = self.table.items@;
            assert(nc == cells_after_collision(cells, gitem, m, f, false, pv));
            assert forall|i: int| 0 <= i < nc.len() implies
                0 <= #[trigger] link_at(nc, i) + i < nc.len() by {
                assert(link_at(cells, i) + i < nc.len());
            }
            assert forall|i: int| 0 <= i < nc.len() && #[trigger] nc[i] is Some
                implies nc[i]->Some_0.wf() by {
                assert(cells[i] is Some ==> cells[i]->Some_0.wf());
                assert(cells[m] is Some ==> cells[m]->Some_0.wf());
                assert(cells[pv] is Some ==> cells[pv]->Some_0.wf());
            }
        }
        true
    }

    /// Moves `last_free` down to the next empty cell and returns it.
    fn find_free_index(&mut self) -> (r: Option<u32>)
        requires
            old(self).table.last_free <= old(self).table.items@.len(),
        ensures
            final(self).table.items == old(self).table.items,
            final(self).table.loglen == old(self).table.loglen,
            match r {
                Some(f) => is_next_free(old(self).table.items@, old(self).table.last_free as int, f as int)
                    && final(self).table.last_free == f,
                None => full_below(old(self).table.items@, old(self).table.last_free as int)
                    && final(self).table.last_free == 0,
            },
    {
        while self.table.last_free > 0
            invariant
                self.table.items == old(self).table.items,
                self.table.loglen == old(self).table.loglen,
                self.table.last_free <= old(self).table.last_free,
                old(self).table.last_free <= old(self).table.items@.len(),
                forall|j: int| self.table.last_free <= j < old(self).table.last_free
                    ==> #[trigger] self.table.items@[j] is Some,
            decreases self.table.last_free,
        {
            self.table.last_free = self.table.last_free - 1;
            if self.get(self.table.last_free).is_none() {
                return Some(self.table.last_free);
            }
        }
        None
    }
}


/// Builds a table from cells given with their indices, as they are read,
/// and checks the layout at the end.
pub struct TableLoadBuilder<V> {
    table: Table<V>,
}

impl<V> TableLoadBuilder<V> {
    pub closed spec fn view_table(&self) -> Table<V> {
        self.table
    }

    pub fn new(loglen: Option<LogSize>) -> (r: Self)
        requires
            loglen matches Some(l) ==> l <= MAX_LOGLEN,
        ensures
            r.view_table().wf(),
            r.view_table().spec_loglen() == loglen,
            r.view_table().spec_last_free() == size_of(loglen),
            forall|i: int| 0 <= i < r.view_table().cells().len()
                ==> #[trigger] r.view_table().cells()[i] is None,
    {
        TableLoadBuilder { table: Table::new(loglen) }
    }

    /// Puts `item` in the empty cell `index`.
    pub fn insert(&mut self, index: u32, item: AssocItem<V>)
        requires
            old(self).view_table().wf(),
            index < old(self).view_table().cells().len(),
            old(self).view_table().cells()[index as int] is None,
            item.wf(),
        ensures
            final(self).view_table().wf(),
            final(self).view_table().cells() == old(self).view_table().cells().update(
                index as int,
                Some(item),
            ),
            final(self).view_table().spec_loglen() == old(self).view_table().spec_loglen(),
            final(self).view_table().spec_last_free() == old(self).view_table().spec_last_free(),
    {
        self.table.items.set(index as usize, Some(item));
    }

    pub fn set_last_free(&mut self, last_free: u32)
        ensures
            final(self).view_table().cells() == old(self).view_table().cells(),
            final(self).view_table().spec_loglen() == old(self).view_table().spec_loglen(),
            final(self).view_table().spec_last_free() == last_free,
    {
        self.table.last_free = last_free;
    }

    /// The table, once its free cursor and its layout are checked.
    pub fn build(self) -> (r: Result<Table<V>, TableFault>)
        requires
            self.view_table().wf(),
        ensures
            self.view_table().spec_last_free() > self.view_table().cells().len() ==> r
                == Err::<Table<V>, TableFault>(TableFault::LastFreeTooLarge),
            self.view_table().spec_last_free() <= self.view_table().cells().len() ==> match r {
                Ok(t) => t == self.view_table() && spec_validate(
                    t.cells(),
                    t.hash_loglen(),
                ) is Ok,
                Err(e) => spec_validate(self.view_table().cells(), self.view_table().hash_loglen())
                    == Err::<(), TableFault>(e),
            },
    {
        proof { if let Some(l) = self.table.loglen { lemma_pow2_bounds(l as nat); } }
        if self.table.len() > u32::MAX as usize {
            return Err(TableFault::TooLarge);
        }
        if self.table.last_free > self.table.len() as u32 {
            return Err(TableFault::LastFreeTooLarge);
        }
        match self.table.validate_positions() {
            Ok(()) => Ok(self.table),
            Err(e) => Err(e),
        }
    }
}

/// What the writer needs of a table: its size, its free cursor and its
/// cells in their natural order.
pub struct TableDumpIter<'s, V> {
    pub items: &'s [Option<AssocItem<V>>],
    pub loglen: Option<LogSize>,
    pub last_free: u32,
}

impl<V> Table<V> {
    pub fn dump_iter(&self) -> (r: TableDumpIter<'_, V>)
        ensures
            r.items@ == self.cells(),
            r.loglen == self.spec_loglen(),
            r.last_free == self.spec_last_free(),
    {
        TableDumpIter { items: self.items.as_slice(), loglen: self.loglen, last_free: self.last_free }
    }
}

impl<'s, V> TableDumpIter<'s, V> {
    pub fn loglen(&self) -> (r: Option<LogSize>)
        ensures
            r == self.loglen,
    {
        self.loglen
    }

    pub fn last_free(&self) -> (r: u32)
        ensures
            r == self.last_free,
    {
        self.last_free
    }

    /// The number of cells.
    pub fn len(&self) -> (r: usize)
        ensures
            r == self.items@.len(),
    {
        self.items.len()
    }
}


/// Byte strings in lexicographic order.
pub open spec fn bytes_le(a: Seq<u8>, b: Seq<u8>) -> bool
    decreases a.len(),
{
    if a.len() == 0 {
        true
    } else if b.len() == 0 {
        false
    } else if a[0] != b[0] {
        a[0] < b[0]
    } else {
        bytes_le(a.drop_first(), b.drop_first())
    }
}

/// The order of keys: integers first, by value, then names, by their bytes.
pub open spec fn key_le(a: Key, b: Key) -> bool {
    match (a, b) {
        (Key::Index(x), Key::Index(y)) => x <= y,
        (Key::Index(_), Key::Name(_)) => true,
        (Key::Name(_), Key::Index(_)) => false,
        (Key::Name(s), Key::Name(t)) => bytes_le(name_bytes(s), name_bytes(t)),
    }
}

/// The order of cells: empty and dead cells first, then live ones by key.
pub open spec fn cell_le<V>(a: Option<AssocItem<V>>, b: Option<AssocItem<V>>) -> bool {
    match (a, b) {
        (Some(AssocItem::Live { key: x, .. }), Some(AssocItem::Live { key: y, .. })) => key_le(x, y),
        (Some(AssocItem::Live { .. }), _) => false,
        _ => true,
    }
}

pub proof fn lemma_bytes_le_total(a: Seq<u8>, b: Seq<u8>)
    ensures
        bytes_le(a, b) || bytes_le(b, a),
    decreases a.len(),
{
    if a.len() > 0 && b.len() > 0 && a[0] == b[0] {
        lemma_bytes_le_total(a.drop_first(), b.drop_first());
    }
}

pub proof fn lemma_bytes_le_trans(a: Seq<u8>, b: Seq<u8>, c: Seq<u8>)
    requires
        bytes_le(a, b),
        bytes_le(b, c),
    ensures
        bytes_le(a, c),
    decreases a.len(),
{
    if a.len() > 0 && b.len() > 0 && c.len() > 0 && a[0] == b[0] && b[0] == c[0] {
        lemma_bytes_le_trans(a.drop_first(), b.drop_first(), c.drop_first());
    }
}

pub proof fn lemma_cell_le_total<V>(a: Option<AssocItem<V>>, b: Option<AssocItem<V>>)
    ensures
        cell_le(a, b) || cell_le(b, a),
{
    if let (Some(AssocItem::Live { key: Key::Name(s), .. }), Some(AssocItem::Live { key: Key::Name(t), .. })) = (a, b) {
        lemma_bytes_le_total(name_bytes(s), name_bytes(t));
    }
}

pub proof fn lemma_cell_le_trans<V>(a: Option<AssocItem<V>>, b: Option<AssocItem<V>>, c: Option<AssocItem<V>>)
    requires
        cell_le(a, b),
        cell_le(b, c),
    ensures
        cell_le(a, c),
{
    if let (Some(AssocItem::Live { key: Key::Name(x), .. }), Some(AssocItem::Live { key: Key::Name(y), .. }), Some(AssocItem::Live { key: Key::Name(z), .. })) = (a, b, c) {
        lemma_bytes_le_trans(name_bytes(x), name_bytes(y), name_bytes(z));
    }
}

/// Compares two byte strings in lexicographic order.
fn bytes_less_eq(a: &[u8], b: &[u8]) -> (r: bool)
    ensures
        r == bytes_le(a@, b@),
{
    let mut i: usize = 0;
    assert(a@.skip(0) =~= a@);
    assert(b@.skip(0) =~= b@);
    while i < a.len() && i < b.len() && a[i] == b[i]
        invariant
            i <= a@.len(),
            i <= b@.len(),
            bytes_le(a@, b@) == bytes_le(a@.skip(i as int), b@.skip(i as int)),
        decreases a@.len() - i,
    {
        proof {
            assert(a@.skip(i as int).drop_first() =~= a@.skip(i + 1));
            assert(b@.skip(i as int).drop_first() =~= b@.skip(i + 1));
        }
        i = i + 1;
    }
    if i == a.len() {
        true
    } else if i == b.len() {
        false
    } else {
        a[i] < b[i]
    }
}

/// Compares two cells in the order of `cell_le`.
fn cell_less_eq<V>(a: &Option<AssocItem<V>>, b: &Option<AssocItem<V>>) -> (r: bool)
    ensures
        r == cell_le(*a, *b),
{
    match (a, b) {
        (Some(AssocItem::Live { key: x, .. }), Some(AssocItem::Live { key: y, .. })) => match (x, y) {
            (Key::Index(i), Key::Index(j)) => *i <= *j,
            (Key::Index(_), Key::Name(_)) => true,
            (Key::Name(_), Key::Index(_)) => false,
            (Key::Name(s), Key::Name(t)) => bytes_less_eq(s.as_str().as_bytes(), t.as_str().as_bytes()),
        },
        (Some(AssocItem::Live { .. }), _) => false,
        _ => true,
    }
}

impl<V> Table<V> {
    /// The cell indices in key order: empty and dead cells first, then
    /// live cells by key; cells that compare equal keep their natural order.
    pub fn sorted_iter(&self) -> (r: Vec<usize>)
        ensures
            r@.len() == self.cells().len(),
            r@.no_duplicates(),
            forall|k: int| 0 <= k < r@.len() ==> #[trigger] r@[k] < self.cells().len(),
            forall|a: int, b: int| 0 <= a < b < r@.len()
                ==> cell_le(self.cells()[#[trigger] r@[a] as int], self.cells()[#[trigger] r@[b] as int]),
            forall|a: int, b: int| 0 <= a < b < r@.len()
                && cell_le(self.cells()[#[trigger] r@[b] as int], self.cells()[#[trigger] r@[a] as int])
                ==> r@[a] < r@[b],
    {
        let ghost cells = self.items@;
        let mut r: Vec<usize> = Vec::new();
        let mut k: usize = 0;
        while k < self.items.len()
            invariant
                cells == self.items@,
                k <= cells.len(),
                r@.len() == k,
                r@.no_duplicates(),
                forall|j: int| 0 <= j < r@.len() ==> #[trigger] r@[j] < k,
                forall|a: int, b: int| 0 <= a < b < r@.len()
                    ==> cell_le(cells[#[trigger] r@[a] as int], cells[#[trigger] r@[b] as int]),
                forall|a: int, b: int| 0 <= a < b < r@.len()
                    && cell_le(cells[#[trigger] r@[b] as int], cells[#[trigger] r@[a] as int])
                    ==> r@[a] < r@[b],
            decreases cells.len() - k,
        {
            let mut p: usize = 0;
            while p < r.len() && cell_less_eq(&self.items[r[p]], &self.items[k])
                invariant
                    cells == self.items@,
                    k < cells.len(),
                    p <= r@.len(),
                    forall|j: int| 0 <= j < r@.len() ==> #[trigger] r@[j] < k,
                    forall|q: int| 0 <= q < p ==> cell_le(cells[#[trigger] r@[q] as int], cells[k as int]),
                decreases r@.len() - p,
            {
                p = p + 1;
            }
            let ghost old_r = r@;
            proof {
                if p < old_r.len() {
                    lemma_cell_le_total(cells[old_r[p as int] as int], cells[k as int]);
                }
            }
            r.insert(p, k);
            proof {
                let nr = r@;
                assert(nr =~= old_r.insert(p as int, k));
                assert forall|a: int, b: int| 0 <= a < b < nr.len() implies cell_le(
                    cells[#[trigger] nr[a] as int],
                    cells[#[trigger] nr[b] as int],
                ) by {
                    if b == p {
                        assert(nr[a] == old_r[a]);
                    } else if a == p {
                        assert(nr[b] == old_r[b - 1]);
                        if b - 1 > p {
                            lemma_cell_le_trans(cells[k as int], cells[old_r[p as int] as int], cells[old_r[b - 1] as int]);
                        }
                    } else {
                        let oa = if a < p { a } else { a - 1 };
                        let ob = if b < p { b } else { b - 1 };
                        assert(nr[a] == old_r[oa]);
                        assert(nr[b] == old_r[ob]);
                    }
                }
                assert forall|a: int, b: int| 0 <= a < b < nr.len()
                    && cell_le(cells[#[trigger] nr[b] as int], cells[#[trigger] nr[a] as int])
                    implies nr[a] < nr[b] by {
                    if b == p {
                        assert(nr[a] == old_r[a]);
                    } else if a == p {
                        assert(nr[b] == old_r[b - 1]);
                        if b - 1 > p {
                            if cell_le(cells[old_r[b - 1] as int], cells[k as int]) {
                                lemma_cell_le_trans(cells[old_r[p as int] as int], cells[old_r[b - 1] as int], cells[k as int]);
                            }
                        }
                    } else {
                        let oa = if a < p { a } else { a - 1 };
                        let ob = if b < p { b } else { b - 1 };
                        assert(nr[a] == old_r[oa]);
                        assert(nr[b] == old_r[ob]);
                    }
                }
                assert forall|x: int, y: int| 0 <= x < nr.len() && 0 <= y < nr.len() && x != y
                    implies nr[x] != nr[y] by {
                    if x != p && y != p {
                        let ox = if x < p { x } else { x - 1 };
                        let oy = if y < p { y } else { y - 1 };
                        assert(nr[x] == old_r[ox]);
                        assert(nr[y] == old_r[oy]);
                    } else if x == p {
                        let oy = if y < p { y } else { y - 1 };
                        assert(nr[y] == old_r[oy]);
                    } else {
                        let ox = if x < p { x } else { x - 1 };
                        assert(nr[x] == old_r[ox]);
                    }
                }
                assert forall|j: int| 0 <= j < nr.len() implies #[trigger] nr[j] < k + 1 by {
                    if j != p {
                        let oj = if j < p { j } else { j - 1 };
                        assert(nr[j] == old_r[oj]);
                    }
                }
            }
            k = k + 1;
        }
        r
    }
}

} // verus!
