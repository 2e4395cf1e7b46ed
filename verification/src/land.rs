//! The terrain core: 8x8 bit-packed chunks addressed inside the shared
//! store, the tiling texture lookup, and the land grid with its pixel
//! queries, circular mutation, generation, rendering and persistence.

use crate::store::{LandStore, STORE_CAPACITY, STORE_ROWS, STORE_ROW_WIDTH, flat_addr, linearize};
use vstd::arithmetic::div_mod::{lemma_fundamental_div_mod, lemma_div_is_ordered, lemma_mod_multiples_basic};
use vstd::prelude::*;

verus! {

/// Bit `x` of one stored chunk row.
pub open spec fn row_bit(b: u8, x: u8) -> bool {
    ((b >> x) & 1) == 1
}

/// The row byte after forcing bit `x` to `state`.
pub open spec fn set_row_bit(b: u8, x: u8, state: bool) -> u8 {
    if state {
        b | (1u8 << x)
    } else {
        b & (!(1u8 << x))
    }
}

/// The pixel at `(x, y)` of the chunk whose rows start at flat address
/// `base`: bit `x` of the row byte at `base + y`.
pub open spec fn chunk_pixel(s: Seq<u8>, base: int, x: int, y: int) -> bool {
    row_bit(s[base + y], x as u8)
}

/// The 64-bit mask accumulated from the first `i` row bytes, first row
/// ending up in the most significant byte.
pub open spec fn mask_prefix(s: Seq<u8>, base: int, i: int) -> u64
    decreases i,
{
    if i <= 0 {
        0u64
    } else {
        (mask_prefix(s, base, i - 1) << 8u64) | (s[base + i - 1] as u64)
    }
}

/// The full 64-bit mask of the chunk at `base`: 8 row bytes, row-major,
/// most significant byte = first row.
pub open spec fn mask_of(s: Seq<u8>, base: int) -> u64 {
    mask_prefix(s, base, 8)
}

/// Row byte `i` of a 64-bit mask, counting the most significant byte as
/// row 0.
pub open spec fn mask_byte(mask: u64, i: int) -> u8 {
    ((mask >> ((56 - 8 * i) as u64)) & 0xff) as u8
}

proof fn lemma_set_row_bit_effect(b: u8, x: u8, state: bool)
    by (bit_vector)
    requires
        x < 8,
    ensures
        row_bit(set_row_bit(b, x, state), x) == state,
        forall|x2: u8| x2 < 8 && x2 != x ==> #[trigger] row_bit(set_row_bit(b, x, state), x2) == row_bit(b, x2),
{
}

proof fn lemma_row_bit_zero(b: u8, x: u8)
    by (bit_vector)
    requires
        b == 0,
    ensures
        !row_bit(b, x),
{
}

proof fn lemma_mask_byte_zero(i: int)
    requires
        0 <= i < 8,
    ensures
        mask_byte(0u64, i) == 0u8,
{
    let amt = (56 - 8 * i) as u64;
    assert(((0u64 >> amt) & 0xff) as u8 == 0) by (bit_vector);
}

/// Recombining the 8 row bytes of `mask` yields `mask` again.
proof fn lemma_mask_of_mask_bytes(s: Seq<u8>, base: int, mask: u64)
    requires
        0 <= base,
        base + 8 <= s.len(),
        forall|i: int| 0 <= i < 8 ==> s[base + i] == mask_byte(mask, i),
    ensures
        mask_of(s, base) == mask,
{
    assert(s[base + 0] == mask_byte(mask, 0));
    assert(s[base + 1] == mask_byte(mask, 1));
    assert(s[base + 2] == mask_byte(mask, 2));
    assert(s[base + 3] == mask_byte(mask, 3));
    assert(s[base + 4] == mask_byte(mask, 4));
    assert(s[base + 5] == mask_byte(mask, 5));
    assert(s[base + 6] == mask_byte(mask, 6));
    assert(s[base + 7] == mask_byte(mask, 7));
    assert((56 - 8 * 0) as u64 == 56u64);
    assert((56 - 8 * 1) as u64 == 48u64);
    assert((56 - 8 * 2) as u64 == 40u64);
    assert((56 - 8 * 3) as u64 == 32u64);
    assert((56 - 8 * 4) as u64 == 24u64);
    assert((56 - 8 * 5) as u64 == 16u64);
    assert((56 - 8 * 6) as u64 == 8u64);
    assert((56 - 8 * 7) as u64 == 0u64);
    let b0 = s[base + 0];
    let b1 = s[base + 1];
    let b2 = s[base + 2];
    let b3 = s[base + 3];
    let b4 = s[base + 4];
    let b5 = s[base + 5];
    let b6 = s[base + 6];
    let b7 = s[base + 7];
    let m0 = mask_prefix(s, base, 0);
    let m1 = mask_prefix(s, base, 1);
    let m2 = mask_prefix(s, base, 2);
    let m3 = mask_prefix(s, base, 3);
    let m4 = mask_prefix(s, base, 4);
    let m5 = mask_prefix(s, base, 5);
    let m6 = mask_prefix(s, base, 6);
    let m7 = mask_prefix(s, base, 7);
    let m8 = mask_prefix(s, base, 8);
    assert(m0 == 0u64);
    assert(m1 == (m0 << 8u64) | (b0 as u64));
    assert(m2 == (m1 << 8u64) | (b1 as u64));
    assert(m3 == (m2 << 8u64) | (b2 as u64));
    assert(m4 == (m3 << 8u64) | (b3 as u64));
    assert(m5 == (m4 << 8u64) | (b4 as u64));
    assert(m6 == (m5 << 8u64) | (b5 as u64));
    assert(m7 == (m6 << 8u64) | (b6 as u64));
    assert(m8 == (m7 << 8u64) | (b7 as u64));
    assert(m8 == mask) by (bit_vector)
        requires
            b0 == ((mask >> 56u64) & 0xff) as u8,
            b1 == ((mask >> 48u64) & 0xff) as u8,
            b2 == ((mask >> 40u64) & 0xff) as u8,
            b3 == ((mask >> 32u64) & 0xff) as u8,
            b4 == ((mask >> 24u64) & 0xff) as u8,
            b5 == ((mask >> 16u64) & 0xff) as u8,
            b6 == ((mask >> 8u64) & 0xff) as u8,
            b7 == ((mask >> 0u64) & 0xff) as u8,
            m8 == (((((((((((((((0u64 << 8u64) | (b0 as u64)) << 8u64) | (b1 as u64)) << 8u64) | (b2
                as u64)) << 8u64) | (b3 as u64)) << 8u64) | (b4 as u64)) << 8u64) | (b5 as u64))
                << 8u64) | (b6 as u64)) << 8u64) | (b7 as u64),
    ;
}

/// A view of one 8x8 pixel block: 8 consecutive store cells starting at
/// `(map_x, map_y)`, one byte per row. A chunk owns no pixel data of its
/// own; it is an address into the shared store.
pub struct LandChunk {
    pub map_x: i32,
    pub map_y: i32,
}

impl LandChunk {
    /// The chunk's rows fit inside one store row and inside the store.
    pub open spec fn wf(&self) -> bool {
        &&& 0 <= self.map_x as int
        &&& self.map_x as int + 8 <= STORE_ROW_WIDTH as int
        &&& 0 <= self.map_y as int
        &&& (self.map_y as int) < STORE_ROWS as int
    }

    /// Flat address of the chunk's first row byte.
    pub open spec fn base(&self) -> int {
        flat_addr(self.map_x as int, self.map_y as int)
    }

    pub fn new(map_x: i32, map_y: i32) -> (r: Self)
        ensures
            r.map_x == map_x,
            r.map_y == map_y,
    {
        LandChunk { map_x, map_y }
    }

    /// Read the pixel at `(x, y)` of this chunk.
    pub fn get(&self, store: &LandStore, x: i32, y: i32) -> (r: bool)
        requires
            self.wf(),
            store.wf(),
            0 <= x < 8,
            0 <= y < 8,
        ensures
            r == chunk_pixel(store@, self.base(), x as int, y as int),
    {
        let val = store.get(self.map_x + y, self.map_y);
        ((val >> (x as u8)) & 1) == 1
    }

    /// Fill or empty the pixel at `(x, y)`, leaving the other 63 pixels
    /// of the chunk and every other store cell untouched.
    pub fn set(&self, store: &mut LandStore, x: i32, y: i32, state: bool)
        requires
            self.wf(),
            old(store).wf(),
            0 <= x < 8,
            0 <= y < 8,
        ensures
            final(store).wf(),
            final(store)@.len() == old(store)@.len(),
            final(store)@ == old(store)@.update(
                self.base() + y,
                set_row_bit(old(store)@[self.base() + y], x as u8, state),
            ),
            forall|a: int|
                0 <= a < old(store)@.len() && a != self.base() + y
                    ==> final(store)@[a] == old(store)@[a],
            chunk_pixel(final(store)@, self.base(), x as int, y as int) == state,
            forall|x2: int, y2: int|
                0 <= x2 < 8 && 0 <= y2 < 8 && !(x2 == x as int && y2 == y as int)
                    ==> chunk_pixel(final(store)@, self.base(), x2, y2)
                        == chunk_pixel(old(store)@, self.base(), x2, y2),
    {
        let mut val = store.get(self.map_x + y, self.map_y);
        val = if state {
            val | (1u8 << (x as u8))
        } else {
            val & (!(1u8 << (x as u8)))
        };
        store.set(self.map_x + y, self.map_y, val);
        proof {
            let s0 = old(store)@;
            let s1 = store@;
            lemma_set_row_bit_effect(s0[self.base() + y], x as u8, state);
            assert forall|x2: int, y2: int|
                0 <= x2 < 8 && 0 <= y2 < 8 && !(x2 == x as int && y2 == y as int) implies
                chunk_pixel(s1, self.base(), x2, y2) == chunk_pixel(s0, self.base(), x2, y2) by {
                if y2 == y as int {
                    assert(x2 as u8 != x as u8);
                } else {
                    assert(s1[self.base() + y2] == s0[self.base() + y2]);
                }
            }
        }
    }

    /// Read the full 64-bit mask of the chunk.
    pub fn get_mask(&self, store: &LandStore) -> (mask: u64)
        requires
            self.wf(),
            store.wf(),
        ensures
            mask == mask_of(store@, self.base()),
    {
        let mut mask: u64 = 0;
        let mut i: i32 = 0;
        while i < 8
            invariant
                self.wf(),
                store.wf(),
                0 <= i <= 8,
                mask == mask_prefix(store@, self.base(), i as int),
            decreases 8 - i,
        {
            let val = store.get(self.map_x + i, self.map_y) as u64;
            mask = (mask << 8u64) | val;
            i = i + 1;
        }
        mask
    }

    /// Write the full 64-bit mask of the chunk, so that reading it back
    /// yields the same mask.
    pub fn set_mask(&self, store: &mut LandStore, mask: u64)
        requires
            self.wf(),
            old(store).wf(),
        ensures
            final(store).wf(),
            final(store)@.len() == old(store)@.len(),
            forall|i: int| 0 <= i < 8 ==> final(store)@[self.base() + i] == mask_byte(mask, i),
            forall|a: int|
                0 <= a < old(store)@.len() && !(self.base() <= a < self.base() + 8)
                    ==> final(store)@[a] == old(store)@[a],
            mask_of(final(store)@, self.base()) == mask,
    {
        let mut i: i32 = 0;
        while i < 8
            invariant
                self.wf(),
                store.wf(),
                0 <= i <= 8,
                store@.len() == old(store)@.len(),
                forall|k: int| 0 <= k < i as int ==> store@[self.base() + k] == mask_byte(mask, k),
                forall|a: int|
                    0 <= a < old(store)@.len() && !(self.base() <= a < self.base() + i as int)
                        ==> store@[a] == old(store)@[a],
            decreases 8 - i,
        {
            let val = ((mask >> ((56 - 8 * i) as u64)) & 0xff) as u8;
            store.set(self.map_x + i, self.map_y, val);
            i = i + 1;
        }
        proof {
            lemma_mask_of_mask_bytes(store@, self.base(), mask);
        }
    }

    /// True when every pixel of the chunk is empty.
    pub fn empty(&self, store: &LandStore) -> (r: bool)
        requires
            self.wf(),
            store.wf(),
        ensures
            r == (mask_of(store@, self.base()) == 0u64),
    {
        self.get_mask(store) == 0u64
    }

    /// True when every pixel of the chunk is full.
    pub fn full(&self, store: &LandStore) -> (r: bool)
        requires
            self.wf(),
            store.wf(),
        ensures
            r == (mask_of(store@, self.base()) == 0xffff_ffff_ffff_ffffu64),
    {
        proof {
            assert(!0u64 == 0xffff_ffff_ffff_ffffu64) by (bit_vector);
        }
        self.get_mask(store) == !0u64
    }

    /// Append the chunk's rendering commands at screen position
    /// `(where_x, where_y)`: nothing when empty, one sprite blit when
    /// full, else one sampled square per set pixel.
    pub fn draw(
        &self,
        store: &LandStore,
        where_x: i32,
        where_y: i32,
        tile: i32,
        scale: i32,
        out: &mut Vec<DrawCmd>,
    )
        requires
            self.wf(),
            store.wf(),
            0 <= scale,
            7 * (scale as int) <= i32::MAX as int,
            where_x as int + 7 * (scale as int) <= i32::MAX as int,
            where_y as int + 7 * (scale as int) <= i32::MAX as int,
        ensures
            final(out)@ == old(out)@ + chunk_cmds(
                store@,
                self.base(),
                where_x as int,
                where_y as int,
                tile as int,
                scale as int,
            ),
    {
        if !self.empty(store) {
            if self.full(store) {
                out.push(DrawCmd::Sprite { tile, x: where_x, y: where_y, scale });
                proof {
                    assert(out@ =~= old(out)@ + chunk_cmds(
                        store@,
                        self.base(),
                        where_x as int,
                        where_y as int,
                        tile as int,
                        scale as int,
                    ));
                }
            } else {
                let mut x: i32 = 0;
                while x < 8
                    invariant
                        self.wf(),
                        store.wf(),
                        0 <= x <= 8,
                        0 <= scale,
                        7 * (scale as int) <= i32::MAX as int,
                        where_x as int + 7 * (scale as int) <= i32::MAX as int,
                        where_y as int + 7 * (scale as int) <= i32::MAX as int,
                        out@ == old(out)@ + pixel_cmds_upto(
                            store@,
                            self.base(),
                            where_x as int,
                            where_y as int,
                            tile as int,
                            scale as int,
                            8 * x as int,
                        ),
                    decreases 8 - x,
                {
                    let mut y: i32 = 0;
                    while y < 8
                        invariant
                            self.wf(),
                            store.wf(),
                            0 <= x < 8,
                            0 <= y <= 8,
                            0 <= scale,
                            7 * (scale as int) <= i32::MAX as int,
                            where_x as int + 7 * (scale as int) <= i32::MAX as int,
                            where_y as int + 7 * (scale as int) <= i32::MAX as int,
                            out@ == old(out)@ + pixel_cmds_upto(
                                store@,
                                self.base(),
                                where_x as int,
                                where_y as int,
                                tile as int,
                                scale as int,
                                8 * x as int + y as int,
                            ),
                        decreases 8 - y,
                    {
                        proof {
                            assert(x as int * scale as int <= 7 * (scale as int) && 0 <= x as int
                                * scale as int && y as int * scale as int <= 7 * (scale as int) && 0
                                <= y as int * scale as int) by (nonlinear_arith)
                                requires
                                    0 <= x as int <= 7,
                                    0 <= y as int <= 7,
                                    0 <= scale as int,
                            ;
                        }
                        if self.get(store, x, y) {
                            out.push(
                                DrawCmd::TexelRect {
                                    tile,
                                    tex_x: x,
                                    tex_y: y,
                                    x: where_x + x * scale,
                                    y: where_y + y * scale,
                                    size: scale,
                                },
                            );
                        }
                        proof {
                            let k = 8 * x as int + y as int + 1;
                            vstd::arithmetic::div_mod::lemma_fundamental_div_mod_converse(
                                k - 1,
                                8,
                                x as int,
                                y as int,
                            );
                            assert(out@ =~= old(out)@ + pixel_cmds_upto(
                                store@,
                                self.base(),
                                where_x as int,
                                where_y as int,
                                tile as int,
                                scale as int,
                                k,
                            ));
                        }
                        y = y + 1;
                    }
                    x = x + 1;
                }
            }
        } else {
            proof {
                assert(out@ =~= old(out)@ + Seq::<DrawCmd>::empty());
            }
        }
    }
}

/// One rendering operation produced by the draw path and executed by the
/// host surface.
#[derive(Clone, Copy, PartialEq, Eq, Structural, Debug)]
pub enum DrawCmd {
    /// Blit the whole source tile at `(x, y)`, scaled.
    Sprite { tile: i32, x: i32, y: i32, scale: i32 },
    /// Fill a `size x size` square at `(x, y)` with the color sampled
    /// from texel `(tex_x, tex_y)` of the source tile.
    TexelRect { tile: i32, tex_x: i32, tex_y: i32, x: i32, y: i32, size: i32 },
    /// Fill a `w x h` rectangle at `(x, y)` with a palette color.
    Bar { x: i32, y: i32, w: i32, h: i32, color: u8 },
}

/// The per-pixel commands for the first `k` of the 64 chunk positions,
/// visited column by column: position `k` is pixel `(k / 8, k % 8)`.
/// Only set pixels emit a command.
pub open spec fn pixel_cmds_upto(
    s: Seq<u8>,
    base: int,
    wx: int,
    wy: int,
    tile: int,
    scale: int,
    k: int,
) -> Seq<DrawCmd>
    decreases k,
{
    if k <= 0 {
        Seq::empty()
    } else {
        let x = (k - 1) / 8;
        let y = (k - 1) % 8;
        pixel_cmds_upto(s, base, wx, wy, tile, scale, k - 1) + (if chunk_pixel(s, base, x, y) {
            seq![
                DrawCmd::TexelRect {
                    tile: tile as i32,
                    tex_x: x as i32,
                    tex_y: y as i32,
                    x: (wx + x * scale) as i32,
                    y: (wy + y * scale) as i32,
                    size: scale as i32,
                },
            ]
        } else {
            Seq::empty()
        })
    }
}

/// The commands one chunk contributes: nothing when empty, a single
/// scaled sprite blit when full, otherwise one sampled square per set
/// pixel.
pub open spec fn chunk_cmds(s: Seq<u8>, base: int, wx: int, wy: int, tile: int, scale: int) -> Seq<
    DrawCmd,
> {
    if mask_of(s, base) == 0u64 {
        Seq::empty()
    } else if mask_of(s, base) == 0xffff_ffff_ffff_ffffu64 {
        seq![
            DrawCmd::Sprite { tile: tile as i32, x: wx as i32, y: wy as i32, scale: scale as i32 },
        ]
    } else {
        pixel_cmds_upto(s, base, wx, wy, tile, scale, 64)
    }
}

/// Truncated remainder, the semantics of Rust's `%` on signed integers:
/// the result carries the sign of the dividend.
pub open spec fn trunc_mod(a: int, m: int) -> int {
    if a >= 0 {
        a % m
    } else {
        -((-a) % m)
    }
}

/// The tiling texture of a land: a block of `width * height` source-art
/// tiles starting at `spr_id`, in a sheet 16 tiles wide, repeated over
/// the chunk grid.
#[derive(Clone, Copy, PartialEq, Eq, Structural, Debug)]
pub struct LandTexture {
    pub spr_id: i32,
    pub width: i32,
    pub height: i32,
}

impl LandTexture {
    /// The texture must survive the packed header: the tile id fits one
    /// cell and each dimension fits one nibble.
    pub open spec fn wf(&self) -> bool {
        &&& 0 <= self.spr_id as int
        &&& (self.spr_id as int) < 256
        &&& 0 < self.width as int
        &&& (self.width as int) < 16
        &&& 0 < self.height as int
        &&& (self.height as int) < 16
    }

    /// Tile id shown at chunk grid position `(x, y)`.
    pub open spec fn tile_spec(&self, x: int, y: int) -> int {
        self.spr_id as int + trunc_mod(y, self.height as int) * 16 + trunc_mod(x, self.width as int)
    }

    /// Map a chunk grid coordinate to its source-art tile, wrapping over
    /// the texture's width and height.
    pub fn tile(&self, x: i32, y: i32) -> (t: i32)
        requires
            self.wf(),
        ensures
            t as int == self.tile_spec(x as int, y as int),
    {
        self.spr_id + (y % self.height) * 16 + (x % self.width)
    }
}

/// First flat address usable for chunk rows; the cells below it hold the
/// persisted header.
pub const CHUNK_ADDR_RESERVE: i32 = 16;

/// Distinct chunk grid coordinates give distinct chunk indices.
proof fn lemma_chunk_index_distinct(w: int, h: int, cx1: int, cy1: int, cx2: int, cy2: int)
    by (nonlinear_arith)
    requires
        0 <= cx1 < w,
        0 <= cy1 < h,
        0 <= cx2 < w,
        0 <= cy2 < h,
        !(cx1 == cx2 && cy1 == cy2),
    ensures
        cy1 * w + cx1 != cy2 * w + cx2,
{
}

/// A chunk index within the grid stays within the reserved chunk area.
proof fn lemma_chunk_index_in_area(w: int, h: int, cx: int, cy: int)
    by (nonlinear_arith)
    requires
        0 <= cx < w,
        0 <= cy < h,
    ensures
        0 <= cy * w + cx,
        cy * w + cx < w * h,
{
}

/// A flat address that is a positive multiple of 8 splits into a store
/// column that leaves room for 8 consecutive cells in its row.
proof fn lemma_aligned_addr_shape(addr: int)
    requires
        0 <= addr,
        addr % 8 == 0,
        addr + 8 <= STORE_CAPACITY as int,
    ensures
        addr % (STORE_ROW_WIDTH as int) + 8 <= STORE_ROW_WIDTH as int,
        addr / (STORE_ROW_WIDTH as int) < STORE_ROWS as int,
        0 <= addr % (STORE_ROW_WIDTH as int),
        0 <= addr / (STORE_ROW_WIDTH as int),
{
    let q = addr / 240;
    let r = addr % 240;
    lemma_fundamental_div_mod(addr, 240);
    lemma_fundamental_div_mod(addr, 8);
    let k = addr / 8;
    assert(addr == 8 * k);
    assert(r == 8 * k - 240 * q);
    assert(r == (k - 30 * q) * 8);
    lemma_mod_multiples_basic(k - 30 * q, 8);
    assert(r % 8 == 0);
    lemma_fundamental_div_mod(r, 8);
    let t = r / 8;
    assert(r == 8 * t);
    assert(t < 30);
    assert(r <= 232);
    lemma_div_is_ordered(addr, 32632, 240);
    assert(32632int / 240 == 135);
}

/// Whether offset `(di, dj)` belongs to the filled disc of radius `r`
/// swept by `set_circle`: inside the bounding square `[-r, r) x [-r, r)`
/// and within squared distance `r * r`.
pub open spec fn in_circle(di: int, dj: int, r: int) -> bool {
    &&& -r <= di < r
    &&& -r <= dj < r
    &&& di * di + dj * dj <= r * r
}

/// The part of the disc already visited when the sweep stands at offset
/// `(i, j)`: offsets strictly before it in column-major order.
pub open spec fn in_circle_before(di: int, dj: int, r: int, i: int, j: int) -> bool {
    &&& in_circle(di, dj, r)
    &&& (di < i || (di == i && dj < j))
}

/// Header byte `i` (0 = most significant) of the 32-bit seed: the seed
/// is persisted big-endian across four header cells.
pub open spec fn seed_byte(seed: u32, i: int) -> u8 {
    ((seed >> ((24 - 8 * i) as u32)) & 0xff) as u8
}

/// Width in chunks recorded in the persisted header.
pub open spec fn header_width(s: Seq<u8>) -> int {
    s[0] as int
}

/// Height in chunks recorded in the persisted header.
pub open spec fn header_height(s: Seq<u8>) -> int {
    s[1] as int
}

/// The seed recorded in the persisted header, big-endian over cells 2..6.
pub open spec fn header_seed(s: Seq<u8>) -> u32 {
    ((s[2] as u32) << 24u32) | ((s[3] as u32) << 16u32) | ((s[4] as u32) << 8u32) | (s[5] as u32)
}

/// A persisted header that decodes into a well-formed land: the recorded
/// dimensions honour the store budget and both texture nibbles are
/// nonzero.
pub open spec fn header_wf(s: Seq<u8>) -> bool {
    &&& header_width(s) * header_height(s) * 8 + (CHUNK_ADDR_RESERVE as int)
        <= STORE_CAPACITY as int
    &&& 0 < (s[7] >> 4u8) as int
    &&& 0 < (s[7] & 0x0f) as int
}

/// The land described by the persisted header cells of `s`.
pub open spec fn decode_land(s: Seq<u8>) -> Land {
    Land {
        width: s[0] as i32,
        height: s[1] as i32,
        seed: header_seed(s),
        covered: (s[8] & 1) == 1,
        texture: LandTexture {
            spr_id: s[6] as i32,
            width: (s[7] >> 4u8) as i32,
            height: (s[7] & 0x0f) as i32,
        },
        water_height: ((s[1] as int) * 8 - 8) as i32,
    }
}

/// The land grid: dimensions in chunks, the generation seed, the
/// out-of-bounds fill flag, the texture, and the derived water line. The
/// pixel data itself lives in the shared store, chunk by chunk, behind
/// the reserved header cells.
#[derive(Clone, Copy, PartialEq, Eq, Structural, Debug)]
pub struct Land {
    pub width: i32,
    pub height: i32,
    pub seed: u32,
    pub covered: bool,
    pub texture: LandTexture,
    pub water_height: i32,
}

impl Land {
    /// The grid honours the store budget and the derived water line.
    pub open spec fn wf(&self) -> bool {
        &&& 0 <= self.width as int
        &&& (self.width as int) <= 4080
        &&& 0 <= self.height as int
        &&& (self.height as int) <= 4080
        &&& (self.width as int) * (self.height as int) * 8 + (CHUNK_ADDR_RESERVE as int)
            <= STORE_CAPACITY as int
        &&& self.water_height as int == (self.height as int) * 8 - 8
        &&& self.texture.wf()
    }

    /// Land width in pixels.
    pub open spec fn pixel_width(&self) -> int {
        (self.width as int) * 8
    }

    /// Land height in pixels.
    pub open spec fn pixel_height(&self) -> int {
        (self.height as int) * 8
    }

    pub open spec fn in_bounds_spec(&self, x: int, y: int) -> bool {
        &&& 0 <= x < self.pixel_width()
        &&& 0 <= y < self.pixel_height()
    }

    /// Flat store address of the first row byte of the chunk at grid
    /// position `(cx, cy)`.
    pub open spec fn chunk_base(&self, cx: int, cy: int) -> int {
        (CHUNK_ADDR_RESERVE as int) + 8 * (cy * (self.width as int) + cx)
    }

    /// One past the last flat address used by this land's chunks.
    pub open spec fn chunk_area_end(&self) -> int {
        (CHUNK_ADDR_RESERVE as int) + 8 * ((self.width as int) * (self.height as int))
    }

    /// Whether flat address `a` holds chunk data of this land.
    pub open spec fn is_chunk_addr(&self, a: int) -> bool {
        (CHUNK_ADDR_RESERVE as int) <= a < self.chunk_area_end()
    }

    /// Flat store address of the row byte holding pixel `(x, y)`.
    pub open spec fn pixel_byte_addr(&self, x: int, y: int) -> int {
        self.chunk_base(x / 8, y / 8) + y % 8
    }

    /// The store contents after writing pixel `(x, y)`: one bit of one
    /// chunk row byte changes for an in-bounds point, nothing otherwise.
    pub open spec fn set_spec(&self, s: Seq<u8>, x: int, y: int, state: bool) -> Seq<u8> {
        if self.in_bounds_spec(x, y) {
            s.update(
                self.pixel_byte_addr(x, y),
                set_row_bit(s[self.pixel_byte_addr(x, y)], (x % 8) as u8, state),
            )
        } else {
            s
        }
    }

    /// The state of pixel `(x, y)` in store contents `s`: the chunk bit
    /// for coordinates within bounds, the covered flag outside.
    pub open spec fn pixel(&self, s: Seq<u8>, x: int, y: int) -> bool {
        if self.in_bounds_spec(x, y) {
            chunk_pixel(s, self.chunk_base(x / 8, y / 8), x % 8, y % 8)
        } else {
            self.covered
        }
    }

    /// The packed texture-size header byte: width nibble high, height
    /// nibble low.
    pub open spec fn texture_size_byte(&self) -> u8 {
        ((self.texture.width as u8) << 4u8) | (self.texture.height as u8)
    }

    /// The store after writing this land's header: width and height in
    /// one cell each, the seed big-endian over four cells, the texture
    /// tile and packed size, and the flags byte carrying the covered
    /// flag. Chunk data is untouched.
    pub open spec fn save_spec(&self, s: Seq<u8>) -> Seq<u8> {
        s.update(0, (self.width & 0xff) as u8).update(1, (self.height & 0xff) as u8).update(
            2,
            seed_byte(self.seed, 0),
        ).update(3, seed_byte(self.seed, 1)).update(4, seed_byte(self.seed, 2)).update(
            5,
            seed_byte(self.seed, 3),
        ).update(6, self.texture.spr_id as u8).update(7, self.texture_size_byte()).update(
            8,
            if self.covered {
                1u8
            } else {
                0u8
            },
        )
    }

    /// Write this land's parameters into the header cells of the store.
    pub fn save_in_map(&self, store: &mut LandStore)
        requires
            self.wf(),
            old(store).wf(),
        ensures
            final(store).wf(),
            final(store)@.len() == old(store)@.len(),
            final(store)@ == self.save_spec(old(store)@),
            forall|a: int| 9 <= a < old(store)@.len() ==> final(store)@[a] == old(store)@[a],
    {
        store.set(0, 0, (self.width & 0xff) as u8);
        store.set(1, 0, (self.height & 0xff) as u8);
        store.set(2, 0, ((self.seed >> 24u32) & 0xff) as u8);
        store.set(3, 0, ((self.seed >> 16u32) & 0xff) as u8);
        store.set(4, 0, ((self.seed >> 8u32) & 0xff) as u8);
        store.set(5, 0, ((self.seed >> 0u32) & 0xff) as u8);
        store.set(6, 0, self.texture.spr_id as u8);
        store.set(7, 0, ((self.texture.width as u8) << 4u8) | (self.texture.height as u8));
        store.set(
            8,
            0,
            if self.covered {
                1u8
            } else {
                0u8
            },
        );
    }

    /// Read a land back from the persisted header. The chunk bits stay
    /// in the store and are read lazily by address; nothing is copied.
    pub fn from_map(store: &LandStore) -> (r: Land)
        requires
            store.wf(),
            header_wf(store@),
        ensures
            r == decode_land(store@),
            r.wf(),
    {
        let width = store.get(0, 0) as i32;
        let height = store.get(1, 0) as i32;
        let c2 = store.get(2, 0);
        let c3 = store.get(3, 0);
        let c4 = store.get(4, 0);
        let c5 = store.get(5, 0);
        let seed = ((c2 as u32) << 24u32) | ((c3 as u32) << 16u32) | ((c4 as u32) << 8u32) | (
        c5 as u32);
        let c7 = store.get(7, 0);
        let texture = LandTexture { spr_id: store.get(6, 0) as i32, width: (c7 >> 4u8) as i32, height: (
            c7 & 0x0f) as i32 };
        let water_height = height * 8 - 8;
        let c8 = store.get(8, 0);
        let covered = (c8 & 0x01) != 0;
        proof {
            let b7 = store@[7];
            let b8 = store@[8];
            assert((b7 >> 4u8) < 16 && (b7 & 0x0f) < 16) by (bit_vector);
            assert(((b8 & 0x01) != 0) == ((b8 & 1) == 1)) by (bit_vector);
        }
        Land { width, height, seed, covered, texture, water_height }
    }

    /// Construct a land from the persisted header unless its dimensions
    /// read as zero — the sentinel for "no valid save" — in which case a
    /// fresh land is built from the given arguments and its header is
    /// written out.
    pub fn from_map_or_new(width: i32, height: i32, texture: LandTexture, store: &mut LandStore)
        -> (r: Land)
        requires
            old(store).wf(),
            0 <= width,
            width <= 4080,
            0 <= height,
            height <= 4080,
            (width as int) * (height as int) * 8 + (CHUNK_ADDR_RESERVE as int)
                <= STORE_CAPACITY as int,
            texture.wf(),
            header_width(old(store)@) != 0 && header_height(old(store)@) != 0 ==> header_wf(
                old(store)@,
            ),
        ensures
            r.wf(),
            final(store).wf(),
            final(store)@.len() == old(store)@.len(),
            header_width(old(store)@) == 0 || header_height(old(store)@) == 0 ==> r == (Land {
                width,
                height,
                seed: 0,
                covered: false,
                texture,
                water_height: ((height as int) * 8 - 8) as i32,
            }) && final(store)@ == r.save_spec(old(store)@),
            header_width(old(store)@) != 0 && header_height(old(store)@) != 0 ==> r == decode_land(
                old(store)@,
            ) && final(store)@ == old(store)@,
    {
        let map_width = store.get(0, 0);
        let map_height = store.get(1, 0);
        if map_width == 0 || map_height == 0 {
            Self::new(width, height, texture, store)
        } else {
            Self::from_map(store)
        }
    }

    /// Build a fresh land — zero seed, not covered — and write its
    /// header out at once. The dimensions must honour the store budget.
    pub fn new(width: i32, height: i32, texture: LandTexture, store: &mut LandStore) -> (r: Land)
        requires
            old(store).wf(),
            0 <= width,
            width <= 4080,
            0 <= height,
            height <= 4080,
            (width as int) * (height as int) * 8 + (CHUNK_ADDR_RESERVE as int)
                <= STORE_CAPACITY as int,
            texture.wf(),
        ensures
            r.wf(),
            r == (Land {
                width,
                height,
                seed: 0,
                covered: false,
                texture,
                water_height: ((height as int) * 8 - 8) as i32,
            }),
            final(store).wf(),
            final(store)@.len() == old(store)@.len(),
            final(store)@ == r.save_spec(old(store)@),
            forall|a: int| 9 <= a < old(store)@.len() ==> final(store)@[a] == old(store)@[a],
    {
        let water_height = height * 8 - 8;
        let land = Land { width, height, texture, water_height, seed: 0, covered: false };
        land.save_in_map(store);
        land
    }

    /// The first set row of pixel column `px` under the height profile
    /// `hs`: the profile entry, capped at the bottom pixel row.
    pub open spec fn column_start(&self, hs: Seq<i32>, px: int) -> int {
        if (hs[px] as int) < self.pixel_height() - 1 {
            hs[px] as int
        } else {
            self.pixel_height() - 1
        }
    }

    /// The state of in-bounds pixel `(px, py)` after generating from the
    /// height profile `hs`.
    pub open spec fn gen_pixel(&self, hs: Seq<i32>, px: int, py: int) -> bool {
        py >= self.column_start(hs, px)
    }

    /// Return size of the land in pixels.
    pub fn size(&self) -> (r: (i32, i32))
        requires
            self.wf(),
        ensures
            r.0 as int == self.pixel_width(),
            r.1 as int == self.pixel_height(),
    {
        (self.width * 8, self.height * 8)
    }

    /// The water line: 8 pixels above the bottom of the land.
    pub fn water_height(&self) -> (r: i32)
        ensures
            r == self.water_height,
    {
        self.water_height
    }

    /// The generation seed; zero means "never generated".
    pub fn seed(&self) -> (r: u32)
        ensures
            r == self.seed,
    {
        self.seed
    }

    pub fn set_seed(&mut self, seed: u32)
        ensures
            *final(self) == (Land { seed, ..*old(self) }),
    {
        self.seed = seed;
    }

    /// Check if point (x, y) is in the land boundaries.
    pub fn in_bounds(&self, x: i32, y: i32) -> (r: bool)
        requires
            self.wf(),
        ensures
            r == self.in_bounds_spec(x as int, y as int),
    {
        (x >= 0 && x < self.width * 8) && (y >= 0 && y < self.height * 8)
    }

    /// Resolve the pixel point `(x, y)` to the chunk owning it, or
    /// nothing when the point is out of bounds.
    pub fn chunk(&self, x: i32, y: i32) -> (r: Option<LandChunk>)
        requires
            self.wf(),
        ensures
            r is Some <==> self.in_bounds_spec(x as int, y as int),
            r is Some ==> (r->Some_0).wf() && (r->Some_0).base() == self.chunk_base(
                x as int / 8,
                y as int / 8,
            ),
    {
        if self.in_bounds(x, y) {
            let chunk_x = x / 8;
            let chunk_y = y / 8;
            proof {
                lemma_fundamental_div_mod(x as int, 8);
                lemma_fundamental_div_mod(y as int, 8);
                lemma_chunk_index_in_area(
                    self.width as int,
                    self.height as int,
                    x as int / 8,
                    y as int / 8,
                );
            }
            let idx = chunk_y * self.width + chunk_x;
            let addr = CHUNK_ADDR_RESERVE + idx * 8;
            proof {
                lemma_mod_multiples_basic(2 + idx as int, 8);
                assert(addr as int == (2 + idx as int) * 8);
                lemma_aligned_addr_shape(addr as int);
            }
            let (col, row) = linearize(addr);
            Some(LandChunk::new(col, row))
        } else {
            None
        }
    }

    /// Read pixel `(x, y)`; out-of-bounds points read as the covered
    /// flag, as if the land continued uniformly beyond its borders.
    pub fn get(&self, store: &LandStore, x: i32, y: i32) -> (r: bool)
        requires
            self.wf(),
            store.wf(),
        ensures
            r == self.pixel(store@, x as int, y as int),
    {
        let chunk = self.chunk(x, y);
        match chunk {
            Some(ch) => ch.get(store, x % 8, y % 8),
            None => self.covered,
        }
    }

    /// Fill or empty pixel `(x, y)`; a point out of bounds is silently
    /// ignored. Every other pixel and every non-chunk cell keeps its
    /// value.
    pub fn set(&self, store: &mut LandStore, x: i32, y: i32, state: bool)
        requires
            self.wf(),
            old(store).wf(),
        ensures
            final(store).wf(),
            final(store)@.len() == old(store)@.len(),
            final(store)@ == self.set_spec(old(store)@, x as int, y as int, state),
            forall|a: int|
                0 <= a < old(store)@.len() && !self.is_chunk_addr(a)
                    ==> final(store)@[a] == old(store)@[a],
            forall|x2: int, y2: int|
                self.in_bounds_spec(x2, y2) ==> self.pixel(final(store)@, x2, y2) == (if x2
                    == x as int && y2 == y as int {
                    state
                } else {
                    self.pixel(old(store)@, x2, y2)
                }),
    {
        let chunk = self.chunk(x, y);
        if let Some(ch) = chunk {
            ch.set(store, x % 8, y % 8, state);
            proof {
                self.lemma_set_effect(old(store)@, store@, x as int, y as int, state);
            }
        }
    }

    /// Set the state of pixels inside a circle: every offset `(i, j)` of
    /// the bounding square `[-r, r) x [-r, r)` whose squared distance
    /// stays within `r * r` is written; everything else keeps its value.
    pub fn set_circle(&self, store: &mut LandStore, x: i32, y: i32, r: i32, state: bool)
        requires
            self.wf(),
            old(store).wf(),
            0 <= r,
            r <= 32767,
            i32::MIN as int <= x as int - r as int,
            x as int + r as int <= i32::MAX as int,
            i32::MIN as int <= y as int - r as int,
            y as int + r as int <= i32::MAX as int,
        ensures
            final(store).wf(),
            final(store)@.len() == old(store)@.len(),
            forall|a: int|
                0 <= a < old(store)@.len() && !self.is_chunk_addr(a)
                    ==> final(store)@[a] == old(store)@[a],
            forall|px: int, py: int|
                self.in_bounds_spec(px, py) ==> self.pixel(final(store)@, px, py) == (if in_circle(
                    px - x as int,
                    py - y as int,
                    r as int,
                ) {
                    state
                } else {
                    self.pixel(old(store)@, px, py)
                }),
    {
        proof {
            assert(r as int * r as int <= 32767 * 32767) by (nonlinear_arith)
                requires
                    0 <= r as int <= 32767,
            ;
        }
        let r2 = r * r;
        let mut i = -r;
        while i < r
            invariant
                self.wf(),
                store.wf(),
                store@.len() == old(store)@.len(),
                0 <= r,
                r <= 32767,
                r2 == r * r,
                i32::MIN as int <= x as int - r as int,
                x as int + r as int <= i32::MAX as int,
                i32::MIN as int <= y as int - r as int,
                y as int + r as int <= i32::MAX as int,
                -r <= i <= r,
                forall|a: int|
                    0 <= a < old(store)@.len() && !self.is_chunk_addr(a)
                        ==> store@[a] == old(store)@[a],
                forall|px: int, py: int|
                    self.in_bounds_spec(px, py) ==> self.pixel(store@, px, py) == (
                    if in_circle_before(px - x as int, py - y as int, r as int, i as int, -r as int) {
                        state
                    } else {
                        self.pixel(old(store)@, px, py)
                    }),
            decreases r - i,
        {
            let mut j = -r;
            while j < r
                invariant
                    self.wf(),
                    store.wf(),
                    store@.len() == old(store)@.len(),
                    0 <= r,
                    r <= 32767,
                    r2 == r * r,
                    i32::MIN as int <= x as int - r as int,
                    x as int + r as int <= i32::MAX as int,
                    i32::MIN as int <= y as int - r as int,
                    y as int + r as int <= i32::MAX as int,
                    -r <= i < r,
                    -r <= j <= r,
                    forall|a: int|
                        0 <= a < old(store)@.len() && !self.is_chunk_addr(a)
                            ==> store@[a] == old(store)@[a],
                    forall|px: int, py: int|
                        self.in_bounds_spec(px, py) ==> self.pixel(store@, px, py) == (
                        if in_circle_before(
                            px - x as int,
                            py - y as int,
                            r as int,
                            i as int,
                            j as int,
                        ) {
                            state
                        } else {
                            self.pixel(old(store)@, px, py)
                        }),
                decreases r - j,
            {
                let ghost s_pre = store@;
                proof {
                    assert(i as int * i as int <= r as int * r as int && j as int * j as int
                        <= r as int * r as int && 0 <= i as int * i as int && 0 <= j as int
                        * j as int) by (nonlinear_arith)
                        requires
                            -(r as int) <= i as int <= r as int,
                            -(r as int) <= j as int <= r as int,
                    ;
                    assert(r as int * r as int <= 32767 * 32767) by (nonlinear_arith)
                        requires
                            0 <= r as int <= 32767,
                    ;
                }
                let hit = i * i + j * j <= r2;
                if hit {
                    self.set(store, x + i, y + j, state);
                }
                proof {
                    assert forall|px: int, py: int| self.in_bounds_spec(px, py) implies self.pixel(
                        store@,
                        px,
                        py,
                    ) == (if in_circle_before(
                        px - x as int,
                        py - y as int,
                        r as int,
                        i as int,
                        j as int + 1,
                    ) {
                        state
                    } else {
                        self.pixel(old(store)@, px, py)
                    }) by {
                        let di = px - x as int;
                        let dj = py - y as int;
                        if di == i as int && dj == j as int {
                            assert(px == x as int + i as int && py == y as int + j as int);
                            assert(hit == in_circle(di, dj, r as int));
                        } else {
                            assert(self.pixel(store@, px, py) == self.pixel(s_pre, px, py));
                            assert(in_circle_before(di, dj, r as int, i as int, j as int + 1)
                                == in_circle_before(di, dj, r as int, i as int, j as int));
                        }
                    }
                }
                j = j + 1;
            }
            i = i + 1;
            proof {
                assert forall|px: int, py: int| self.in_bounds_spec(px, py) implies in_circle_before(
                    px - x as int,
                    py - y as int,
                    r as int,
                    i as int,
                    -r as int,
                ) == in_circle_before(
                    px - x as int,
                    py - y as int,
                    r as int,
                    i as int - 1,
                    r as int,
                ) by {}
            }
        }
    }

    /// Clear the entire land: every chunk byte becomes zero, so every
    /// in-bounds pixel reads empty; header cells and cells beyond the
    /// chunk area keep their values.
    pub fn clear(&self, store: &mut LandStore)
        requires
            self.wf(),
            old(store).wf(),
        ensures
            final(store).wf(),
            final(store)@.len() == old(store)@.len(),
            forall|a: int|
                0 <= a < old(store)@.len() && self.is_chunk_addr(a) ==> final(store)@[a] == 0u8,
            forall|a: int|
                0 <= a < old(store)@.len() && !self.is_chunk_addr(a)
                    ==> final(store)@[a] == old(store)@[a],
            forall|px: int, py: int|
                self.in_bounds_spec(px, py) ==> !self.pixel(final(store)@, px, py),
    {
        let n = self.width * self.height;
        let mut k: i32 = 0;
        while k < n
            invariant
                self.wf(),
                store.wf(),
                store@.len() == old(store)@.len(),
                n as int == (self.width as int) * (self.height as int),
                0 <= k <= n,
                forall|a: int|
                    (CHUNK_ADDR_RESERVE as int) <= a < (CHUNK_ADDR_RESERVE as int) + 8 * k as int
                        ==> store@[a] == 0u8,
                forall|a: int|
                    0 <= a < old(store)@.len() && !((CHUNK_ADDR_RESERVE as int) <= a < (
                    CHUNK_ADDR_RESERVE as int) + 8 * k as int) ==> store@[a] == old(store)@[a],
            decreases n - k,
        {
            proof {
                assert(0 < self.width as int) by (nonlinear_arith)
                    requires
                        0 <= k as int,
                        (k as int) < (self.width as int) * (self.height as int),
                        0 <= self.width as int,
                ;
            }
            let cx = k % self.width;
            let cy = k / self.width;
            proof {
                lemma_fundamental_div_mod(k as int, self.width as int);
                vstd::arithmetic::div_mod::lemma_div_multiples_vanish(cx as int, 8);
                vstd::arithmetic::div_mod::lemma_div_multiples_vanish(cy as int, 8);
                assert((cy as int) < self.height as int) by (nonlinear_arith)
                    requires
                        (k as int) < (self.width as int) * (self.height as int),
                        k as int == (self.width as int) * (cy as int) + cx as int,
                        0 <= cx as int,
                        (cx as int) < self.width as int,
                        0 <= cy as int,
                        0 < self.width as int,
                ;
            }
            let chunk = self.chunk(cx * 8, cy * 8);
            if let Some(ch) = chunk {
                proof {
                    assert((cx as int * 8) / 8 == cx as int);
                    assert((cy as int * 8) / 8 == cy as int);
                    assert(k as int == (cy as int) * (self.width as int) + cx as int);
                    assert(ch.base() == (CHUNK_ADDR_RESERVE as int) + 8 * (k as int));
                }
                ch.set_mask(store, 0);
                proof {
                    assert forall|a: int| ch.base() <= a < ch.base() + 8 implies #[trigger] store@[a]
                        == 0u8 by {
                        let d = a - ch.base();
                        lemma_mask_byte_zero(d);
                        assert(store@[ch.base() + d] == mask_byte(0u64, d));
                    }
                }
            } else {
                proof {
                    assert(false);
                }
            }
            k = k + 1;
        }
        proof {
            assert forall|px: int, py: int| self.in_bounds_spec(px, py) implies !self.pixel(
                store@,
                px,
                py,
            ) by {
                lemma_fundamental_div_mod(px, 8);
                lemma_fundamental_div_mod(py, 8);
                lemma_chunk_index_in_area(self.width as int, self.height as int, px / 8, py / 8);
                let addr = self.pixel_byte_addr(px, py);
                assert(store@[addr] == 0u8);
                lemma_row_bit_zero(store@[addr], (px % 8) as u8);
            }
        }
    }

    /// All chunk-aligned pixel origins covering the grid, stepping by 8,
    /// column by column.
    pub fn chunk_coordinates(&self) -> (r: Vec<(i32, i32)>)
        requires
            self.wf(),
        ensures
            r@.len() == (self.width as int) * (self.height as int),
            forall|k: int|
                0 <= k < r@.len() ==> (#[trigger] r@[k]).0 as int == 8 * (k / (self.height as int))
                    && r@[k].1 as int == 8 * (k % (self.height as int)),
    {
        let mut v: Vec<(i32, i32)> = Vec::new();
        let mut xi: i32 = 0;
        while xi < self.width
            invariant
                self.wf(),
                0 <= xi <= self.width,
                v@.len() == (xi as int) * (self.height as int),
                forall|k: int|
                    0 <= k < v@.len() ==> (#[trigger] v@[k]).0 as int == 8 * (k / (
                    self.height as int)) && v@[k].1 as int == 8 * (k % (self.height as int)),
            decreases self.width - xi,
        {
            let mut yi: i32 = 0;
            while yi < self.height
                invariant
                    self.wf(),
                    0 <= xi < self.width,
                    0 <= yi <= self.height,
                    v@.len() == (xi as int) * (self.height as int) + yi as int,
                    forall|k: int|
                        0 <= k < v@.len() ==> (#[trigger] v@[k]).0 as int == 8 * (k / (
                        self.height as int)) && v@[k].1 as int == 8 * (k % (self.height as int)),
                decreases self.height - yi,
            {
                proof {
                    vstd::arithmetic::div_mod::lemma_fundamental_div_mod_converse(
                        (xi as int) * (self.height as int) + yi as int,
                        self.height as int,
                        xi as int,
                        yi as int,
                    );
                    assert((xi as int) * (self.height as int) + 8 <= 4080 * 4080 + 8)
                        by (nonlinear_arith)
                        requires
                            0 <= xi as int <= 4080,
                            0 < self.height as int <= 4080,
                    ;
                }
                v.push((xi * 8, yi * 8));
                yi = yi + 1;
            }
            proof {
                assert((xi as int + 1) * (self.height as int) == (xi as int) * (self.height as int)
                    + self.height as int) by (nonlinear_arith);
            }
            xi = xi + 1;
        }
        v
    }

    /// Fill the land column by column from a height profile: pixel
    /// `(x, y)` ends up set exactly when `y` lies at or below the
    /// column's start, itself capped at the bottom row. The profile has
    /// one entry per pixel column.
    pub fn generate(&self, store: &mut LandStore, heights: &Vec<i32>)
        requires
            self.wf(),
            old(store).wf(),
            heights@.len() == self.pixel_width(),
        ensures
            final(store).wf(),
            final(store)@.len() == old(store)@.len(),
            forall|a: int|
                0 <= a < old(store)@.len() && !self.is_chunk_addr(a)
                    ==> final(store)@[a] == old(store)@[a],
            forall|px: int, py: int|
                self.in_bounds_spec(px, py) ==> self.pixel(final(store)@, px, py)
                    == self.gen_pixel(heights@, px, py),
    {
        self.clear(store);
        let land_w = self.width * 8;
        let land_h = self.height * 8;
        let mut x: i32 = 0;
        while x < land_w
            invariant
                self.wf(),
                store.wf(),
                store@.len() == old(store)@.len(),
                heights@.len() == self.pixel_width(),
                land_w as int == self.pixel_width(),
                land_h as int == self.pixel_height(),
                0 <= x <= land_w,
                forall|a: int|
                    0 <= a < old(store)@.len() && !self.is_chunk_addr(a)
                        ==> store@[a] == old(store)@[a],
                forall|px: int, py: int|
                    self.in_bounds_spec(px, py) ==> self.pixel(store@, px, py) == (if px < x as int {
                        self.gen_pixel(heights@, px, py)
                    } else {
                        false
                    }),
            decreases land_w - x,
        {
            let h0 = heights[x as usize];
            let y_start = if h0 < land_h - 1 {
                h0
            } else {
                land_h - 1
            };
            assert(y_start as int == self.column_start(heights@, x as int));
            let mut y = y_start;
            while y < land_h
                invariant
                    self.wf(),
                    store.wf(),
                    store@.len() == old(store)@.len(),
                    heights@.len() == self.pixel_width(),
                    land_w as int == self.pixel_width(),
                    land_h as int == self.pixel_height(),
                    0 <= x < land_w,
                    y_start as int == self.column_start(heights@, x as int),
                    y_start <= y,
                    (y_start as int) < land_h as int,
                    y as int <= land_h as int,
                    forall|a: int|
                        0 <= a < old(store)@.len() && !self.is_chunk_addr(a)
                            ==> store@[a] == old(store)@[a],
                    forall|px: int, py: int|
                        self.in_bounds_spec(px, py) ==> self.pixel(store@, px, py) == (if px
                            < x as int {
                            self.gen_pixel(heights@, px, py)
                        } else if px == x as int {
                            y_start as int <= py < y as int
                        } else {
                            false
                        }),
                decreases land_h - y,
            {
                self.set(store, x, y, true);
                y = y + 1;
            }
            x = x + 1;
        }
    }

    /// The commands of the first `k` chunks, visited column by column:
    /// chunk `k` sits at grid position `(k / height, k % height)`.
    pub open spec fn chunks_cmds_upto(
        &self,
        s: Seq<u8>,
        ox: int,
        oy: int,
        scale: int,
        k: int,
    ) -> Seq<DrawCmd>
        decreases k,
    {
        if k <= 0 {
            Seq::empty()
        } else {
            let xi = (k - 1) / (self.height as int);
            let yi = (k - 1) % (self.height as int);
            self.chunks_cmds_upto(s, ox, oy, scale, k - 1) + chunk_cmds(
                s,
                self.chunk_base(xi, yi),
                ox + 8 * xi * scale,
                oy + 8 * yi * scale,
                self.texture.tile_spec(xi, yi),
                scale,
            )
        }
    }

    /// The water band: after the land, a full-width bar from the offset
    /// water line down to the bottom of the visible area, if visible.
    pub open spec fn water_cmds(&self, oy: int) -> Seq<DrawCmd> {
        if oy + (self.water_height as int) < 137 {
            seq![
                DrawCmd::Bar {
                    x: 0,
                    y: (oy + self.water_height as int) as i32,
                    w: 240,
                    h: (137 - (oy + self.water_height as int)) as i32,
                    color: 10,
                },
            ]
        } else {
            Seq::empty()
        }
    }

    /// Everything one frame draws: all chunks in order, then the water.
    pub open spec fn draw_cmds(&self, s: Seq<u8>, ox: int, oy: int, scale: int) -> Seq<DrawCmd> {
        self.chunks_cmds_upto(s, ox, oy, scale, (self.width as int) * (self.height as int))
            + self.water_cmds(oy)
    }

    /// Append the commands that render the land and its water band at
    /// the given screen offset and scale.
    pub fn draw(
        &self,
        store: &LandStore,
        offset_x: i32,
        offset_y: i32,
        scale: i32,
        out: &mut Vec<DrawCmd>,
    )
        requires
            self.wf(),
            store.wf(),
            0 <= scale,
            (self.width as int) * 8 * (scale as int) <= i32::MAX as int,
            (self.height as int) * 8 * (scale as int) <= i32::MAX as int,
            offset_x as int + (self.width as int) * 8 * (scale as int) <= i32::MAX as int,
            offset_y as int + (self.height as int) * 8 * (scale as int) <= i32::MAX as int,
            offset_y as int + self.water_height as int <= i32::MAX as int,
            i32::MIN as int + 138 <= offset_y as int + self.water_height as int,
        ensures
            final(out)@ == old(out)@ + self.draw_cmds(
                store@,
                offset_x as int,
                offset_y as int,
                scale as int,
            ),
    {
        let mut xi: i32 = 0;
        while xi < self.width
            invariant
                self.wf(),
                store.wf(),
                0 <= xi <= self.width,
                0 <= scale,
                (self.width as int) * 8 * (scale as int) <= i32::MAX as int,
                (self.height as int) * 8 * (scale as int) <= i32::MAX as int,
                offset_x as int + (self.width as int) * 8 * (scale as int) <= i32::MAX as int,
                offset_y as int + (self.height as int) * 8 * (scale as int) <= i32::MAX as int,
                out@ == old(out)@ + self.chunks_cmds_upto(
                    store@,
                    offset_x as int,
                    offset_y as int,
                    scale as int,
                    (xi as int) * (self.height as int),
                ),
            decreases self.width - xi,
        {
            let mut yi: i32 = 0;
            while yi < self.height
                invariant
                    self.wf(),
                    store.wf(),
                    0 <= xi < self.width,
                    0 <= yi <= self.height,
                    0 <= scale,
                    (self.width as int) * 8 * (scale as int) <= i32::MAX as int,
                    (self.height as int) * 8 * (scale as int) <= i32::MAX as int,
                    offset_x as int + (self.width as int) * 8 * (scale as int) <= i32::MAX as int,
                    offset_y as int + (self.height as int) * 8 * (scale as int)
                        <= i32::MAX as int,
                    out@ == old(out)@ + self.chunks_cmds_upto(
                        store@,
                        offset_x as int,
                        offset_y as int,
                        scale as int,
                        (xi as int) * (self.height as int) + yi as int,
                    ),
                decreases self.height - yi,
            {
                let x = xi * 8;
                let y = yi * 8;
                proof {
                    assert((x as int) * (scale as int) + 7 * (scale as int) <= (
                    self.width as int) * 8 * (scale as int) && 0 <= (x as int) * (scale as int)
                        && (y as int) * (scale as int) + 7 * (scale as int) <= (
                    self.height as int) * 8 * (scale as int) && 0 <= (y as int) * (
                    scale as int)) by (nonlinear_arith)
                        requires
                            x as int == (xi as int) * 8,
                            y as int == (yi as int) * 8,
                            0 <= xi as int,
                            (xi as int) < self.width as int,
                            0 <= yi as int,
                            (yi as int) < self.height as int,
                            0 <= scale as int,
                    ;
                    vstd::arithmetic::div_mod::lemma_div_multiples_vanish(xi as int, 8);
                    vstd::arithmetic::div_mod::lemma_div_multiples_vanish(yi as int, 8);
                }
                let chunk = self.chunk(x, y);
                if let Some(ch) = chunk {
                    let where_x = offset_x + x * scale;
                    let where_y = offset_y + y * scale;
                    let tile = self.texture.tile(xi, yi);
                    let ghost k = (xi as int) * (self.height as int) + yi as int;
                    proof {
                        vstd::arithmetic::div_mod::lemma_fundamental_div_mod_converse(
                            k,
                            self.height as int,
                            xi as int,
                            yi as int,
                        );
                    }
                    ch.draw(store, where_x, where_y, tile, scale, out);
                    proof {
                        assert(out@ =~= old(out)@ + self.chunks_cmds_upto(
                            store@,
                            offset_x as int,
                            offset_y as int,
                            scale as int,
                            k + 1,
                        ));
                    }
                } else {
                    proof {
                        assert(false);
                    }
                }
                yi = yi + 1;
            }
            proof {
                assert((xi as int + 1) * (self.height as int) == (xi as int) * (self.height as int)
                    + self.height as int) by (nonlinear_arith);
            }
            xi = xi + 1;
        }
        let water_height = offset_y + self.water_height;
        if water_height < 137 {
            out.push(
                DrawCmd::Bar { x: 0, y: water_height, w: 240, h: 137 - water_height, color: 10 },
            );
        }
        proof {
            assert(out@ =~= old(out)@ + self.draw_cmds(
                store@,
                offset_x as int,
                offset_y as int,
                scale as int,
            ));
        }
    }

    /// The byte touched by an in-bounds pixel write is a chunk byte, and
    /// every other in-bounds pixel keeps its value.
    proof fn lemma_set_effect(&self, s0: Seq<u8>, s1: Seq<u8>, x: int, y: int, state: bool)
        requires
            self.wf(),
            self.in_bounds_spec(x, y),
            s0.len() == STORE_CAPACITY as int,
            s1 == s0.update(
                self.pixel_byte_addr(x, y),
                set_row_bit(s0[self.pixel_byte_addr(x, y)], (x % 8) as u8, state),
            ),
        ensures
            forall|a: int|
                0 <= a < s0.len() && !self.is_chunk_addr(a) ==> s1[a] == s0[a],
            forall|x2: int, y2: int|
                self.in_bounds_spec(x2, y2) ==> self.pixel(s1, x2, y2) == (if x2 == x && y2 == y {
                    state
                } else {
                    self.pixel(s0, x2, y2)
                }),
    {
        let w = self.width as int;
        let h = self.height as int;
        let cx = x / 8;
        let cy = y / 8;
        let addr = self.pixel_byte_addr(x, y);
        lemma_fundamental_div_mod(x, 8);
        lemma_fundamental_div_mod(y, 8);
        lemma_chunk_index_in_area(w, h, cx, cy);
        assert(self.is_chunk_addr(addr));
        lemma_set_row_bit_effect(s0[addr], (x % 8) as u8, state);
        assert forall|x2: int, y2: int| self.in_bounds_spec(x2, y2) implies self.pixel(s1, x2, y2)
            == (if x2 == x && y2 == y {
            state
        } else {
            self.pixel(s0, x2, y2)
        }) by {
            let cx2 = x2 / 8;
            let cy2 = y2 / 8;
            lemma_fundamental_div_mod(x2, 8);
            lemma_fundamental_div_mod(y2, 8);
            lemma_chunk_index_in_area(w, h, cx2, cy2);
            if x2 == x && y2 == y {
                assert(self.pixel(s1, x2, y2) == state);
            } else if cx2 == cx && cy2 == cy {
                if y2 % 8 == y % 8 {
                    assert(y2 == y);
                    assert(x2 % 8 != x % 8);
                    assert((x2 % 8) as u8 != (x % 8) as u8);
                    assert(s1[addr] == set_row_bit(s0[addr], (x % 8) as u8, state));
                } else {
                    assert(self.pixel_byte_addr(x2, y2) != addr);
                    assert(s1[self.pixel_byte_addr(x2, y2)] == s0[self.pixel_byte_addr(x2, y2)]);
                }
            } else {
                lemma_chunk_index_distinct(w, h, cx2, cy2, cx, cy);
                assert(self.pixel_byte_addr(x2, y2) != addr);
                assert(s1[self.pixel_byte_addr(x2, y2)] == s0[self.pixel_byte_addr(x2, y2)]);
            }
        }
    }
}

proof fn lemma_set_row_bit_commutes(b: u8, xa: u8, sa: bool, xb: u8, sb: bool)
    by (bit_vector)
    requires
        xa != xb,
    ensures
        set_row_bit(set_row_bit(b, xa, sa), xb, sb) == set_row_bit(set_row_bit(b, xb, sb), xa, sa),
{
}

proof fn lemma_set_row_bit_idempotent(b: u8, x: u8, state: bool)
    by (bit_vector)
    ensures
        set_row_bit(set_row_bit(b, x, state), x, state) == set_row_bit(b, x, state),
{
}

/// The row byte of an in-bounds pixel lies inside the land's chunk area.
proof fn lemma_pixel_addr_range(land: Land, x: int, y: int)
    requires
        land.wf(),
        land.in_bounds_spec(x, y),
    ensures
        (CHUNK_ADDR_RESERVE as int) <= land.pixel_byte_addr(x, y),
        land.pixel_byte_addr(x, y) < land.chunk_area_end(),
        land.chunk_area_end() <= STORE_CAPACITY as int,
{
    lemma_fundamental_div_mod(x, 8);
    lemma_fundamental_div_mod(y, 8);
    lemma_chunk_index_in_area(land.width as int, land.height as int, x / 8, y / 8);
}

/// Distinct in-bounds pixels touch either different chunk row bytes or
/// different bits of the same byte.
proof fn lemma_pixel_addr(land: Land, x1: int, y1: int, x2: int, y2: int)
    requires
        land.wf(),
        land.in_bounds_spec(x1, y1),
        land.in_bounds_spec(x2, y2),
        !(x1 == x2 && y1 == y2),
    ensures
        land.pixel_byte_addr(x1, y1) == land.pixel_byte_addr(x2, y2) ==> (x1 % 8) != (x2 % 8),
{
    let w = land.width as int;
    let h = land.height as int;
    lemma_fundamental_div_mod(x1, 8);
    lemma_fundamental_div_mod(y1, 8);
    lemma_fundamental_div_mod(x2, 8);
    lemma_fundamental_div_mod(y2, 8);
    lemma_chunk_index_in_area(w, h, x1 / 8, y1 / 8);
    lemma_chunk_index_in_area(w, h, x2 / 8, y2 / 8);
    if land.pixel_byte_addr(x1, y1) == land.pixel_byte_addr(x2, y2) {
        if !(x1 / 8 == x2 / 8 && y1 / 8 == y2 / 8) {
            lemma_chunk_index_distinct(w, h, x1 / 8, y1 / 8, x2 / 8, y2 / 8);
            assert(false);
        }
    }
}

/// Law: writing an in-bounds pixel makes that pixel read back exactly as
/// written, and every other in-bounds pixel keeps its value — writes at
/// different coordinates do not disturb one another.
pub proof fn lemma_set_then_get(land: Land, s: Seq<u8>, x: int, y: int, state: bool)
    requires
        land.wf(),
        s.len() == STORE_CAPACITY as int,
        land.in_bounds_spec(x, y),
    ensures
        land.pixel(land.set_spec(s, x, y, state), x, y) == state,
        forall|x2: int, y2: int|
            land.in_bounds_spec(x2, y2) && !(x2 == x && y2 == y)
                ==> land.pixel(land.set_spec(s, x, y, state), x2, y2) == land.pixel(s, x2, y2),
{
    land.lemma_set_effect(s, land.set_spec(s, x, y, state), x, y, state);
}

/// Law: a pixel write changes nothing outside its own pixel, so two
/// writes at distinct coordinates land in the same store whichever comes
/// first.
pub proof fn lemma_set_commutes(
    land: Land,
    s: Seq<u8>,
    x1: int,
    y1: int,
    st1: bool,
    x2: int,
    y2: int,
    st2: bool,
)
    requires
        land.wf(),
        s.len() == STORE_CAPACITY as int,
        !(x1 == x2 && y1 == y2),
    ensures
        land.set_spec(land.set_spec(s, x1, y1, st1), x2, y2, st2) == land.set_spec(
            land.set_spec(s, x2, y2, st2),
            x1,
            y1,
            st1,
        ),
{
    if land.in_bounds_spec(x1, y1) {
        lemma_pixel_addr_range(land, x1, y1);
    }
    if land.in_bounds_spec(x2, y2) {
        lemma_pixel_addr_range(land, x2, y2);
    }
    if land.in_bounds_spec(x1, y1) && land.in_bounds_spec(x2, y2) {
        let a1 = land.pixel_byte_addr(x1, y1);
        let a2 = land.pixel_byte_addr(x2, y2);
        lemma_pixel_addr(land, x1, y1, x2, y2);
        if a1 == a2 {
            assert((x1 % 8) as u8 != (x2 % 8) as u8);
            lemma_set_row_bit_commutes(s[a1], (x1 % 8) as u8, st1, (x2 % 8) as u8, st2);
            assert(land.set_spec(land.set_spec(s, x1, y1, st1), x2, y2, st2) =~= land.set_spec(
                land.set_spec(s, x2, y2, st2),
                x1,
                y1,
                st1,
            ));
        } else {
            assert(land.set_spec(land.set_spec(s, x1, y1, st1), x2, y2, st2) =~= land.set_spec(
                land.set_spec(s, x2, y2, st2),
                x1,
                y1,
                st1,
            ));
        }
    } else {
        assert(land.set_spec(land.set_spec(s, x1, y1, st1), x2, y2, st2) =~= land.set_spec(
            land.set_spec(s, x2, y2, st2),
            x1,
            y1,
            st1,
        ));
    }
}

/// Law: writing the same pixel twice with the same state is the same as
/// writing it once.
pub proof fn lemma_set_idempotent(land: Land, s: Seq<u8>, x: int, y: int, state: bool)
    requires
        land.wf(),
        s.len() == STORE_CAPACITY as int,
    ensures
        land.set_spec(land.set_spec(s, x, y, state), x, y, state) == land.set_spec(
            s,
            x,
            y,
            state,
        ),
{
    if land.in_bounds_spec(x, y) {
        let a = land.pixel_byte_addr(x, y);
        lemma_pixel_addr_range(land, x, y);
        lemma_set_row_bit_idempotent(s[a], (x % 8) as u8, state);
        assert(land.set_spec(land.set_spec(s, x, y, state), x, y, state) =~= land.set_spec(
            s,
            x,
            y,
            state,
        ));
    }
}

/// Law: distinct chunk grid positions resolve to disjoint 8-byte store
/// spans — no two chunks of one land ever alias.
pub proof fn lemma_chunk_addresses_distinct(land: Land, cx1: int, cy1: int, cx2: int, cy2: int)
    requires
        land.wf(),
        0 <= cx1,
        cx1 < land.width as int,
        0 <= cy1,
        cy1 < land.height as int,
        0 <= cx2,
        cx2 < land.width as int,
        0 <= cy2,
        cy2 < land.height as int,
        !(cx1 == cx2 && cy1 == cy2),
    ensures
        land.chunk_base(cx1, cy1) + 8 <= land.chunk_base(cx2, cy2) || land.chunk_base(cx2, cy2) + 8
            <= land.chunk_base(cx1, cy1),
{
    lemma_chunk_index_distinct(land.width as int, land.height as int, cx1, cy1, cx2, cy2);
}

/// Law: generation is a function of the grid dimensions and the height
/// profile alone — two lands of equal size generated from the same
/// profile hold bit-identical pixel content.
pub proof fn lemma_generate_deterministic(
    land1: Land,
    land2: Land,
    hs: Seq<i32>,
    t1: Seq<u8>,
    t2: Seq<u8>,
)
    requires
        land1.wf(),
        land2.wf(),
        land1.width == land2.width,
        land1.height == land2.height,
        forall|px: int, py: int|
            land1.in_bounds_spec(px, py) ==> land1.pixel(t1, px, py) == land1.gen_pixel(
                hs,
                px,
                py,
            ),
        forall|px: int, py: int|
            land2.in_bounds_spec(px, py) ==> land2.pixel(t2, px, py) == land2.gen_pixel(
                hs,
                px,
                py,
            ),
    ensures
        forall|px: int, py: int|
            land1.in_bounds_spec(px, py) ==> land1.pixel(t1, px, py) == land2.pixel(t2, px, py),
{
    assert forall|px: int, py: int| land1.in_bounds_spec(px, py) implies land1.pixel(t1, px, py)
        == land2.pixel(t2, px, py) by {
        assert(land2.in_bounds_spec(px, py));
        assert(land1.gen_pixel(hs, px, py) == land2.gen_pixel(hs, px, py));
    }
}

/// Law: a saved header decodes back into the very land that wrote it —
/// for dimensions that fit their header cells — and saving touches no
/// chunk data, so every in-bounds pixel reads the same before and after.
pub proof fn lemma_save_load_roundtrip(land: Land, s: Seq<u8>)
    requires
        land.wf(),
        s.len() == STORE_CAPACITY as int,
        (land.width as int) < 256,
        (land.height as int) < 256,
    ensures
        header_wf(land.save_spec(s)),
        decode_land(land.save_spec(s)) == land,
        forall|x: int, y: int|
            land.in_bounds_spec(x, y) ==> land.pixel(land.save_spec(s), x, y) == land.pixel(
                s,
                x,
                y,
            ),
{
    let s2 = land.save_spec(s);
    let w = land.width;
    let h = land.height;
    assert(((w & 0xff) as u8) as i32 == w) by (bit_vector)
        requires
            0 <= w < 256,
    ;
    assert(((h & 0xff) as u8) as i32 == h) by (bit_vector)
        requires
            0 <= h < 256,
    ;
    let seed = land.seed;
    let b2 = seed_byte(seed, 0);
    let b3 = seed_byte(seed, 1);
    let b4 = seed_byte(seed, 2);
    let b5 = seed_byte(seed, 3);
    assert((24 - 8 * 0) as u32 == 24u32);
    assert((24 - 8 * 1) as u32 == 16u32);
    assert((24 - 8 * 2) as u32 == 8u32);
    assert((24 - 8 * 3) as u32 == 0u32);
    assert(((b2 as u32) << 24u32) | ((b3 as u32) << 16u32) | ((b4 as u32) << 8u32) | (b5 as u32)
        == seed) by (bit_vector)
        requires
            b2 == ((seed >> 24u32) & 0xff) as u8,
            b3 == ((seed >> 16u32) & 0xff) as u8,
            b4 == ((seed >> 8u32) & 0xff) as u8,
            b5 == ((seed >> 0u32) & 0xff) as u8,
    ;
    assert(header_seed(s2) == seed);
    let spr = land.texture.spr_id;
    assert(((spr as u8) as i32) == spr) by (bit_vector)
        requires
            0 <= spr < 256,
    ;
    let tw = land.texture.width;
    let th = land.texture.height;
    let t7 = land.texture_size_byte();
    assert((t7 >> 4u8) == (tw as u8) && (t7 & 0x0f) == (th as u8)) by (bit_vector)
        requires
            t7 == ((tw as u8) << 4u8) | (th as u8),
            0 < tw < 16,
            0 < th < 16,
    ;
    assert(((tw as u8) as i32) == tw) by (bit_vector)
        requires
            0 < tw < 16,
    ;
    assert(((th as u8) as i32) == th) by (bit_vector)
        requires
            0 < th < 16,
    ;
    assert((1u8 & 1) == 1 && (0u8 & 1) == 0) by (bit_vector);
    assert(decode_land(s2).covered == land.covered);
    assert(decode_land(s2) == land);
    lemma_save_preserves_pixels(land, s);
}

/// Law: writing the header touches no chunk byte, so every in-bounds
/// pixel reads the same before and after a save.
pub proof fn lemma_save_preserves_pixels(land: Land, s: Seq<u8>)
    requires
        land.wf(),
        s.len() == STORE_CAPACITY as int,
    ensures
        forall|x: int, y: int|
            land.in_bounds_spec(x, y) ==> land.pixel(land.save_spec(s), x, y) == land.pixel(
                s,
                x,
                y,
            ),
{
    let s2 = land.save_spec(s);
    assert forall|x: int, y: int| land.in_bounds_spec(x, y) implies land.pixel(s2, x, y)
        == land.pixel(s, x, y) by {
        lemma_fundamental_div_mod(x, 8);
        lemma_fundamental_div_mod(y, 8);
        lemma_chunk_index_in_area(land.width as int, land.height as int, x / 8, y / 8);
        assert(s2[land.pixel_byte_addr(x, y)] == s[land.pixel_byte_addr(x, y)]);
    }
}

} // verus!
