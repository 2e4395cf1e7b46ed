//! The fixed-width cell grid that backs a land: header cells and chunk
//! bitmap rows live side by side in one linear memory, addressed either as
//! `(column, row)` pairs or as flat addresses through `linearize`.

use vstd::prelude::*;
use vstd::pervasive::VecAdditionalExecFns;

verus! {

/// Width in cells of one store row.
pub const STORE_ROW_WIDTH: i32 = 240;

/// Number of rows in the store.
pub const STORE_ROWS: i32 = 136;

/// Total number of cells: `STORE_ROW_WIDTH * STORE_ROWS`.
pub const STORE_CAPACITY: i32 = 32640;

/// The linear memory shared by the land header and the chunk bitmaps.
/// A cell at `(x, y)` stands at flat address `y * STORE_ROW_WIDTH + x`.
pub struct LandStore {
    pub cells: Vec<u8>,
}

/// Flat address of the cell at `(x, y)`.
pub open spec fn flat_addr(x: int, y: int) -> int {
    y * (STORE_ROW_WIDTH as int) + x
}

impl View for LandStore {
    type V = Seq<u8>;

    open spec fn view(&self) -> Seq<u8> {
        self.cells@
    }
}

impl LandStore {
    pub open spec fn wf(&self) -> bool {
        self.cells@.len() == STORE_CAPACITY as int
    }

    /// A store of the full capacity, all cells zero.
    pub fn new() -> (s: Self)
        ensures
            s.wf(),
            forall|a: int| 0 <= a < STORE_CAPACITY as int ==> s@[a] == 0u8,
    {
        let cells: Vec<u8> = vec![0u8; 32640];
        LandStore { cells }
    }

    /// Read the cell at `(x, y)`.
    pub fn get(&self, x: i32, y: i32) -> (v: u8)
        requires
            self.wf(),
            0 <= x < STORE_ROW_WIDTH as int,
            0 <= y < STORE_ROWS as int,
        ensures
            v == self@[flat_addr(x as int, y as int)],
    {
        let idx: usize = (y * STORE_ROW_WIDTH + x) as usize;
        self.cells[idx]
    }

    /// Write the cell at `(x, y)`.
    pub fn set(&mut self, x: i32, y: i32, v: u8)
        requires
            old(self).wf(),
            0 <= x < STORE_ROW_WIDTH as int,
            0 <= y < STORE_ROWS as int,
        ensures
            final(self).wf(),
            final(self)@ == old(self)@.update(flat_addr(x as int, y as int), v),
            final(self)@.len() == old(self)@.len(),
            final(self)@[flat_addr(x as int, y as int)] == v,
            forall|a: int|
                0 <= a < old(self)@.len() && a != flat_addr(x as int, y as int)
                    ==> final(self)@[a] == old(self)@[a],
    {
        let idx: usize = (y * STORE_ROW_WIDTH + x) as usize;
        self.cells.set(idx, v);
    }
}

/// Translate a flat address into the store's `(column, row)` pair.
/// The store is a fixed-width grid repurposed as flat memory, so data that
/// spans a row boundary simply continues on the next row.
pub fn linearize(addr: i32) -> (r: (i32, i32))
    requires
        0 <= addr < STORE_CAPACITY as int,
    ensures
        r.0 == addr as int % (STORE_ROW_WIDTH as int),
        r.1 == addr as int / (STORE_ROW_WIDTH as int),
        flat_addr(r.0 as int, r.1 as int) == addr as int,
        0 <= r.0 < STORE_ROW_WIDTH as int,
        0 <= r.1 < STORE_ROWS as int,
{
    let col = addr % STORE_ROW_WIDTH;
    let row = addr / STORE_ROW_WIDTH;
    proof {
        vstd::arithmetic::div_mod::lemma_fundamental_div_mod(addr as int, STORE_ROW_WIDTH as int);
    }
    (col, row)
}

} // verus!
