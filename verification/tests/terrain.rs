use landcore::land::{DrawCmd, Land, LandTexture};
use landcore::store::LandStore;

fn texture() -> LandTexture {
    LandTexture { spr_id: 1, width: 2, height: 2 }
}

#[test]
fn one_chunk_scenario() {
    let mut store = LandStore::new();
    let land = Land::new(1, 1, texture(), &mut store);
    assert_eq!(land.get(&store, 0, 0), false);
    assert_eq!(land.get(&store, 8, 8), false);
    land.set_circle(&mut store, 4, 4, 2, true);
    assert_eq!(land.get(&store, 4, 4), true);
    assert_eq!(land.get(&store, 0, 0), false);
}

#[test]
fn set_then_get() {
    let mut store = LandStore::new();
    let land = Land::new(4, 3, texture(), &mut store);
    land.set(&mut store, 3, 5, true);
    assert_eq!(land.get(&store, 3, 5), true);
    assert_eq!(land.get(&store, 2, 5), false);
    assert_eq!(land.get(&store, 3, 4), false);
    land.set(&mut store, 3, 5, false);
    assert_eq!(land.get(&store, 3, 5), false);
}

#[test]
fn set_order_independent() {
    let mut store_a = LandStore::new();
    let mut store_b = LandStore::new();
    let land = Land::new(2, 2, texture(), &mut store_a);
    land.save_in_map(&mut store_b);
    land.set(&mut store_a, 1, 2, true);
    land.set(&mut store_a, 9, 12, true);
    land.set(&mut store_b, 9, 12, true);
    land.set(&mut store_b, 1, 2, true);
    for x in 0..16 {
        for y in 0..16 {
            assert_eq!(land.get(&store_a, x, y), land.get(&store_b, x, y));
        }
    }
}

#[test]
fn out_of_bounds_reads_covered_flag() {
    let mut store = LandStore::new();
    let land = Land::new(2, 1, texture(), &mut store);
    assert_eq!(land.get(&store, -1, 0), false);
    assert_eq!(land.get(&store, 16, 0), false);
    assert_eq!(land.get(&store, 0, 8), false);

    // A covered land: write a header by hand and decode it.
    let mut store2 = LandStore::new();
    store2.set(0, 0, 2);
    store2.set(1, 0, 1);
    store2.set(7, 0, 0x22);
    store2.set(8, 0, 1);
    let covered_land = Land::from_map(&store2);
    assert_eq!(covered_land.get(&store2, -1, 0), true);
    assert_eq!(covered_land.get(&store2, 0, -1), true);
    assert_eq!(covered_land.get(&store2, 0, 0), false);
}

#[test]
fn out_of_bounds_set_is_ignored() {
    let mut store = LandStore::new();
    let land = Land::new(2, 1, texture(), &mut store);
    land.set(&mut store, 5, 3, true);
    land.set(&mut store, -1, 0, true);
    land.set(&mut store, 16, 0, true);
    land.set(&mut store, 0, 8, true);
    for x in 0..16 {
        for y in 0..8 {
            assert_eq!(land.get(&store, x, y), x == 5 && y == 3);
        }
    }
}

#[test]
fn mask_round_trip() {
    let mut store = LandStore::new();
    let land = Land::new(2, 2, texture(), &mut store);
    let chunk = land.chunk(8, 8).unwrap();
    for mask in [0u64, 1, 0x0123_4567_89ab_cdef, u64::MAX, 0x8000_0000_0000_0000] {
        chunk.set_mask(&mut store, mask);
        assert_eq!(chunk.get_mask(&store), mask);
    }
}

#[test]
fn empty_and_full_track_the_mask() {
    let mut store = LandStore::new();
    let land = Land::new(1, 1, texture(), &mut store);
    let chunk = land.chunk(0, 0).unwrap();
    chunk.set_mask(&mut store, 0);
    assert!(chunk.empty(&store));
    assert!(!chunk.full(&store));
    chunk.set_mask(&mut store, u64::MAX);
    assert!(!chunk.empty(&store));
    assert!(chunk.full(&store));
    chunk.set_mask(&mut store, 1);
    assert!(!chunk.empty(&store));
    assert!(!chunk.full(&store));
}

#[test]
fn mask_rows_are_big_endian() {
    let mut store = LandStore::new();
    let land = Land::new(1, 1, texture(), &mut store);
    let chunk = land.chunk(0, 0).unwrap();
    // Bit 0 of the first row is the most significant byte's lowest bit.
    chunk.set_mask(&mut store, 1u64 << 56);
    assert_eq!(chunk.get(&store, 0, 0), true);
    assert_eq!(chunk.get(&store, 1, 0), false);
    assert_eq!(chunk.get(&store, 0, 1), false);
    // Bit 7 of the last row is bit 7 of the least significant byte.
    chunk.set_mask(&mut store, 1u64 << 7);
    assert_eq!(chunk.get(&store, 7, 7), true);
    assert_eq!(chunk.get(&store, 6, 7), false);
    assert_eq!(chunk.get(&store, 7, 6), false);
}

#[test]
fn chunk_bit_set_leaves_row_neighbours() {
    let mut store = LandStore::new();
    let land = Land::new(1, 1, texture(), &mut store);
    let chunk = land.chunk(0, 0).unwrap();
    chunk.set_mask(&mut store, u64::MAX);
    chunk.set(&mut store, 3, 2, false);
    assert_eq!(chunk.get(&store, 3, 2), false);
    assert_eq!(chunk.get(&store, 2, 2), true);
    assert_eq!(chunk.get(&store, 4, 2), true);
    assert_eq!(chunk.get(&store, 3, 1), true);
    assert_eq!(chunk.get(&store, 3, 3), true);
}

#[test]
fn clear_empties_every_pixel() {
    let mut store = LandStore::new();
    let land = Land::new(3, 2, texture(), &mut store);
    land.set_circle(&mut store, 10, 8, 5, true);
    land.clear(&mut store);
    let (w, h) = land.size();
    for x in 0..w {
        for y in 0..h {
            assert_eq!(land.get(&store, x, y), false);
        }
    }
}

#[test]
fn set_circle_fills_the_disc() {
    let mut store = LandStore::new();
    let land = Land::new(4, 4, texture(), &mut store);
    let (cx, cy, r) = (16, 16, 5);
    land.set_circle(&mut store, cx, cy, r, true);
    for i in -r..r {
        for j in -r..r {
            let expected = i * i + j * j <= r * r;
            assert_eq!(land.get(&store, cx + i, cy + j), expected);
        }
    }
    // Points outside the bounding square stay untouched.
    assert_eq!(land.get(&store, cx + r, cy), false);
    assert_eq!(land.get(&store, cx, cy + r), false);
    assert_eq!(land.get(&store, cx - r - 1, cy), false);
}

#[test]
fn set_circle_carves() {
    let mut store = LandStore::new();
    let land = Land::new(2, 2, texture(), &mut store);
    let chunk = land.chunk(0, 0).unwrap();
    chunk.set_mask(&mut store, u64::MAX);
    land.set_circle(&mut store, 4, 4, 2, false);
    assert_eq!(land.get(&store, 4, 4), false);
    assert_eq!(land.get(&store, 3, 4), false);
    assert_eq!(land.get(&store, 7, 7), true);
    assert_eq!(land.get(&store, 0, 0), true);
}

#[test]
fn chunk_addresses_are_distinct() {
    let mut store = LandStore::new();
    let land = Land::new(45, 24, texture(), &mut store);
    let mut bases = Vec::new();
    for coord in land.chunk_coordinates() {
        let chunk = land.chunk(coord.0, coord.1).unwrap();
        let base = chunk.map_y * 240 + chunk.map_x;
        bases.push(base);
    }
    assert_eq!(bases.len(), 45 * 24);
    let mut sorted = bases.clone();
    sorted.sort();
    for pair in sorted.windows(2) {
        assert!(pair[0] + 8 <= pair[1]);
    }
}

#[test]
fn chunk_addressing_wraps_store_rows() {
    assert_eq!(landcore::store::linearize(0), (0, 0));
    assert_eq!(landcore::store::linearize(239), (239, 0));
    assert_eq!(landcore::store::linearize(241), (1, 1));

    let mut store = LandStore::new();
    let land = Land::new(45, 24, texture(), &mut store);
    // the chunk body starts right after the 16 reserved header cells
    let first = land.chunk(0, 0).unwrap();
    assert_eq!((first.map_x, first.map_y), (16, 0));
    // chunk 27 fills the end of store row 0, chunk 28 starts store row 1
    let last_in_row = land.chunk(27 * 8, 0).unwrap();
    assert_eq!((last_in_row.map_x, last_in_row.map_y), (232, 0));
    let wrapped = land.chunk(28 * 8, 0).unwrap();
    assert_eq!((wrapped.map_x, wrapped.map_y), (0, 1));
    // its mask rows land in the cells of store row 1
    wrapped.set_mask(&mut store, 0x0102_0304_0506_0708);
    for i in 0..8 {
        assert_eq!(store.get(i, 1), (i + 1) as u8);
    }
}

#[test]
fn chunk_coordinates_order() {
    let mut store = LandStore::new();
    let wide = Land::new(2, 1, texture(), &mut store);
    assert_eq!(wide.chunk_coordinates(), vec![(0, 0), (8, 0)]);
    let tall = Land::new(1, 2, texture(), &mut store);
    assert_eq!(tall.chunk_coordinates(), vec![(0, 0), (0, 8)]);
}

#[test]
fn generate_shapes_columns() {
    let mut store = LandStore::new();
    let land = Land::new(2, 2, texture(), &mut store);
    let (w, h) = land.size();
    let mut heights = Vec::new();
    for x in 0..w {
        heights.push(x);
    }
    heights[3] = -4; // starts above the top: whole column fills
    heights[5] = 100; // below the bottom: capped at the last row
    land.generate(&mut store, &heights);
    for x in 0..w {
        let start = heights[x as usize].min(h - 1);
        for y in 0..h {
            assert_eq!(land.get(&store, x, y), y >= start, "pixel ({x},{y})");
        }
    }
}

#[test]
fn generate_is_deterministic() {
    let mut store_a = LandStore::new();
    let mut store_b = LandStore::new();
    let land_a = Land::new(3, 2, texture(), &mut store_a);
    let land_b = Land::new(3, 2, texture(), &mut store_b);
    let heights: Vec<i32> = (0..24).map(|x| (x * 7) % 16 - 3).collect();
    land_a.generate(&mut store_a, &heights);
    land_b.generate(&mut store_b, &heights);
    let (w, h) = land_a.size();
    for x in 0..w {
        for y in 0..h {
            assert_eq!(land_a.get(&store_a, x, y), land_b.get(&store_b, x, y));
        }
    }
}

#[test]
fn header_layout() {
    let mut store = LandStore::new();
    let mut land = Land::new(45, 24, LandTexture { spr_id: 7, width: 3, height: 2 }, &mut store);
    land.set_seed(0x0102_a3b4);
    land.save_in_map(&mut store);
    assert_eq!(store.get(0, 0), 45);
    assert_eq!(store.get(1, 0), 24);
    assert_eq!(store.get(2, 0), 0x01);
    assert_eq!(store.get(3, 0), 0x02);
    assert_eq!(store.get(4, 0), 0xa3);
    assert_eq!(store.get(5, 0), 0xb4);
    assert_eq!(store.get(6, 0), 7);
    assert_eq!(store.get(7, 0), 0x32);
    assert_eq!(store.get(8, 0), 0);
}

#[test]
fn save_load_round_trip() {
    let mut store = LandStore::new();
    let mut land = Land::new(5, 3, LandTexture { spr_id: 9, width: 4, height: 2 }, &mut store);
    land.set_seed(0xdead_beef);
    land.set_circle(&mut store, 20, 10, 6, true);
    land.set(&mut store, 1, 1, true);
    land.save_in_map(&mut store);
    let loaded = Land::from_map(&store);
    assert_eq!(loaded, land);
    let (w, h) = land.size();
    for x in 0..w {
        for y in 0..h {
            assert_eq!(loaded.get(&store, x, y), land.get(&store, x, y));
        }
    }
}

#[test]
fn from_map_or_new_falls_back_on_empty_header() {
    let mut store = LandStore::new();
    let land = Land::from_map_or_new(45, 24, texture(), &mut store);
    assert_eq!(land.width, 45);
    assert_eq!(land.height, 24);
    assert_eq!(land.seed, 0);
    assert_eq!(land.covered, false);
    assert_eq!(store.get(0, 0), 45);
}

#[test]
fn from_map_or_new_prefers_a_valid_save() {
    let mut store = LandStore::new();
    let mut saved = Land::new(6, 4, LandTexture { spr_id: 2, width: 1, height: 1 }, &mut store);
    saved.set_seed(99);
    saved.save_in_map(&mut store);
    let land = Land::from_map_or_new(45, 24, texture(), &mut store);
    assert_eq!(land, saved);
}

#[test]
fn size_water_and_bounds() {
    let mut store = LandStore::new();
    let land = Land::new(45, 24, texture(), &mut store);
    assert_eq!(land.size(), (360, 192));
    assert_eq!(land.water_height(), 184);
    assert!(land.in_bounds(0, 0));
    assert!(land.in_bounds(359, 191));
    assert!(!land.in_bounds(360, 0));
    assert!(!land.in_bounds(0, 192));
    assert!(!land.in_bounds(-1, 5));
}

#[test]
fn tile_wraps_over_the_texture() {
    let t = LandTexture { spr_id: 1, width: 2, height: 2 };
    assert_eq!(t.tile(0, 0), 1);
    assert_eq!(t.tile(1, 0), 2);
    assert_eq!(t.tile(2, 0), 1);
    assert_eq!(t.tile(0, 1), 17);
    assert_eq!(t.tile(3, 5), 18);
    // Negative coordinates wrap with the sign of the dividend, as `%` does.
    assert_eq!(t.tile(-1, 0), 0);
    assert_eq!(t.tile(0, -1), -15);
}

#[test]
fn draw_skips_empty_chunks() {
    let mut store = LandStore::new();
    let land = Land::new(1, 1, texture(), &mut store);
    let mut cmds = Vec::new();
    land.draw(&store, 0, 0, 1, &mut cmds);
    assert_eq!(cmds, vec![DrawCmd::Bar { x: 0, y: 0, w: 240, h: 137, color: 10 }]);
}

#[test]
fn draw_blits_full_chunks() {
    let mut store = LandStore::new();
    let land = Land::new(1, 1, texture(), &mut store);
    land.chunk(0, 0).unwrap().set_mask(&mut store, u64::MAX);
    let mut cmds = Vec::new();
    land.draw(&store, 3, 4, 2, &mut cmds);
    assert_eq!(
        cmds,
        vec![
            DrawCmd::Sprite { tile: 1, x: 3, y: 4, scale: 2 },
            DrawCmd::Bar { x: 0, y: 4, w: 240, h: 133, color: 10 },
        ]
    );
}

#[test]
fn draw_samples_partial_chunks() {
    let mut store = LandStore::new();
    let land = Land::new(1, 1, texture(), &mut store);
    land.set(&mut store, 2, 6, true);
    land.set(&mut store, 7, 0, true);
    let mut cmds = Vec::new();
    land.draw(&store, 10, 20, 3, &mut cmds);
    assert_eq!(
        cmds,
        vec![
            DrawCmd::TexelRect { tile: 1, tex_x: 2, tex_y: 6, x: 16, y: 38, size: 3 },
            DrawCmd::TexelRect { tile: 1, tex_x: 7, tex_y: 0, x: 31, y: 20, size: 3 },
            DrawCmd::Bar { x: 0, y: 20, w: 240, h: 117, color: 10 },
        ]
    );
}

#[test]
fn draw_hides_water_below_the_view() {
    let mut store = LandStore::new();
    let land = Land::new(2, 2, texture(), &mut store);
    // water line at 8; shifted down by 140 it leaves the visible area
    let mut cmds = Vec::new();
    land.draw(&store, 0, 137 - 8, 1, &mut cmds);
    assert_eq!(cmds, vec![]);
    let mut visible = Vec::new();
    land.draw(&store, 0, 100, 1, &mut visible);
    assert_eq!(visible, vec![DrawCmd::Bar { x: 0, y: 108, w: 240, h: 29, color: 10 }]);
}

#[test]
fn draw_tiles_texture_per_chunk() {
    let mut store = LandStore::new();
    let land = Land::new(3, 1, LandTexture { spr_id: 5, width: 2, height: 2 }, &mut store);
    for coord in land.chunk_coordinates() {
        land.chunk(coord.0, coord.1).unwrap().set_mask(&mut store, u64::MAX);
    }
    let mut cmds = Vec::new();
    land.draw(&store, 0, 200, 1, &mut cmds);
    // chunks 0..3 wrap over the 2-wide texture: tiles 5, 6, 5
    assert_eq!(
        cmds,
        vec![
            DrawCmd::Sprite { tile: 5, x: 0, y: 200, scale: 1 },
            DrawCmd::Sprite { tile: 6, x: 8, y: 200, scale: 1 },
            DrawCmd::Sprite { tile: 5, x: 16, y: 200, scale: 1 },
        ]
    );
}
