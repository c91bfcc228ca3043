use ritematica::packing::{bits_for_len, read_cell, widen, words_needed, write_cell};
use ritematica::{
    BlockState, BlockStateBuilder, Coordinates, Region, RegionError, ResourceLocation,
};

fn state(name: &str) -> BlockState {
    BlockStateBuilder::new(ResourceLocation::parse(name).unwrap()).build()
}

fn at(x: i32, y: i32, z: i32) -> Coordinates {
    Coordinates::from((x, y, z))
}

fn empty_region(size: (i32, i32, i32)) -> Region {
    let s = at(size.0, size.1, size.2);
    let volume = (size.0.unsigned_abs() * size.1.unsigned_abs() * size.2.unsigned_abs()) as u64;
    let words = vec![0u64; words_needed(volume, 2)];
    Region::from_parts(at(0, 0, 0), s, vec![state("air")], words).unwrap()
}

fn name_at(region: &Region, p: Coordinates) -> String {
    region.get_block(p).unwrap().get_name().to_string()
}

#[test]
fn get_3d_index() {
    let region = empty_region((31, 9, 29));

    assert_eq!(region.get_3d_index(at(0, 0, 0)), Ok(0));
    assert_eq!(region.get_3d_index(at(30, 0, 0)), Ok(30));
    assert_eq!(region.get_3d_index(at(0, 8, 0)), Ok(31 * 29 * 8));
}

#[test]
fn index_order_is_y_then_z_then_x() {
    let region = empty_region((3, 2, 4));
    assert_eq!(region.get_3d_index(at(1, 0, 0)), Ok(1));
    assert_eq!(region.get_3d_index(at(0, 0, 1)), Ok(3));
    assert_eq!(region.get_3d_index(at(0, 1, 0)), Ok(12));
    assert_eq!(region.get_3d_index(at(2, 1, 3)), Ok(12 + 9 + 2));
    assert_eq!(region.calc_volume(), 24);
}

#[test]
fn out_of_bounds_is_reported() {
    let mut region = empty_region((2, 2, 2));
    assert_eq!(region.get_3d_index(at(2, 0, 0)), Err(RegionError::OutOfBounds));
    assert_eq!(region.get_3d_index(at(0, -1, 0)), Err(RegionError::OutOfBounds));
    assert!(matches!(region.get_block(at(0, 0, 2)), Err(RegionError::OutOfBounds)));
    assert_eq!(region.set_block(at(5, 0, 0), state("stone")), Err(RegionError::OutOfBounds));
    assert_eq!(region.palette().len(), 1);
    assert_eq!(region.block_states(), &vec![0u64]);
}

#[test]
fn negative_size_gives_orientation_only() {
    let mut region = empty_region((-2, 1, -3));
    assert_eq!(region.calc_volume(), 6);
    assert_eq!(region.get_3d_index(at(1, 0, 2)), Ok(5));
    region.set_block(at(1, 0, 2), state("stone")).unwrap();
    assert_eq!(name_at(&region, at(1, 0, 2)), "minecraft:stone");
    assert_eq!(region.get_block(at(-1, 0, 0)).err(), Some(RegionError::OutOfBounds));
}

#[test]
fn minimal_region() {
    let mut region =
        Region::from_parts(at(0, 0, 0), at(1, 1, 1), vec![state("air")], vec![0]).unwrap();
    assert_eq!(region.bits_per_cell(), 2);
    assert_eq!(name_at(&region, at(0, 0, 0)), "minecraft:air");

    region.set_block(at(0, 0, 0), state("stone")).unwrap();
    assert_eq!(region.palette().len(), 2);
    assert!(region.palette()[1].same_state(&state("stone")));
    assert_eq!(region.bits_per_cell(), 2);
    assert_eq!(region.block_states()[0] & 3, 1);
    assert_eq!(name_at(&region, at(0, 0, 0)), "minecraft:stone");
}

#[test]
fn widening_at_fifth_entry() {
    let palette = vec![state("a"), state("b"), state("c"), state("d")];
    // cells 0..3 hold palette indices 0, 1, 2, 3 at 2 bits each
    let word: u64 = 0 | (1 << 2) | (2 << 4) | (3 << 6);
    let mut region = Region::from_parts(at(0, 0, 0), at(2, 1, 2), palette, vec![word]).unwrap();
    assert_eq!(region.bits_per_cell(), 2);

    region.set_block(at(0, 0, 0), state("e")).unwrap();
    assert_eq!(region.palette().len(), 5);
    assert_eq!(region.bits_per_cell(), 3);
    assert_eq!(region.block_states().len(), 1);
    assert_eq!(region.get_palette_index(0), 4);
    assert_eq!(region.block_states()[0], 4 | (1 << 3) | (2 << 6) | (3 << 9));
    assert_eq!(name_at(&region, at(0, 0, 0)), "minecraft:e");
    assert_eq!(name_at(&region, at(1, 0, 0)), "minecraft:b");
    assert_eq!(name_at(&region, at(0, 0, 1)), "minecraft:c");
    assert_eq!(name_at(&region, at(1, 0, 1)), "minecraft:d");
}

#[test]
fn bits_grow_on_fifth_and_ninth_entry() {
    let mut region = empty_region((4, 1, 5));
    let mut widths = vec![region.bits_per_cell()];
    for k in 1..17 {
        region
            .set_block(at(k % 4, 0, k / 4), state(&format!("s{}", k)))
            .unwrap();
        widths.push(region.bits_per_cell());
    }
    // palette sizes 1..=17
    assert_eq!(widths, vec![2, 2, 2, 2, 3, 3, 3, 3, 4, 4, 4, 4, 4, 4, 4, 4, 5]);
    assert_eq!(region.block_states().len(), (20 * 5 + 63) / 64);
    for k in 1..17 {
        assert_eq!(name_at(&region, at(k % 4, 0, k / 4)), format!("minecraft:s{}", k));
    }
    assert_eq!(name_at(&region, at(0, 0, 0)), "minecraft:air");
}

#[test]
fn bits_for_palette_sizes() {
    let expected = [(0, 2), (1, 2), (4, 2), (5, 3), (8, 3), (9, 4), (16, 4), (17, 5), (1 << 20, 20)];
    for (len, bits) in expected {
        assert_eq!(bits_for_len(len), bits);
    }
    assert_eq!(bits_for_len((1 << 20) + 1), 21);
}

#[test]
fn straddling_write() {
    let mut words = vec![0u64; 2];
    // cell 21 at 3 bits starts at bit 63: one bit in word 0, two in word 1
    write_cell(&mut words, 21, 7, 3);
    assert_eq!(words[0], 1 << 63);
    assert_eq!(words[1], 0b11);
    assert_eq!(read_cell(&words, 21, 3), 7);
    assert_eq!(read_cell(&words, 20, 3), 0);
    assert_eq!(read_cell(&words, 22, 3), 0);
}

#[test]
fn straddling_write_keeps_neighbouring_bits() {
    // 5 bits per cell: cell 12 spans bits 60..65
    let mut words = vec![u64::MAX, u64::MAX];
    write_cell(&mut words, 12, 0, 5);
    assert_eq!(words[0], u64::MAX >> 4);
    assert_eq!(words[1], u64::MAX << 1);
    assert_eq!(read_cell(&words, 12, 5), 0);
    assert_eq!(read_cell(&words, 11, 5), 31);
    assert_eq!(read_cell(&words, 13, 5), 31);
    write_cell(&mut words, 12, 0b10110, 5);
    assert_eq!(read_cell(&words, 12, 5), 0b10110);
    assert_eq!(words[0] >> 60, 0b0110);
    assert_eq!(words[1], (u64::MAX << 1) | 1);
}

#[test]
fn write_masks_value_to_width() {
    let mut words = vec![0u64];
    write_cell(&mut words, 1, 0xff, 3);
    assert_eq!(words[0], 7 << 3);
}

#[test]
fn widen_repacks_every_cell() {
    let mut words = vec![0u64; words_needed(40, 3)];
    for i in 0..40u64 {
        write_cell(&mut words, i, i % 8, 3);
    }
    let wider = widen(&words, 40, 3, 4);
    assert_eq!(wider.len(), words_needed(40, 4));
    assert_eq!(wider.len(), 3);
    for i in 0..40u64 {
        assert_eq!(read_cell(&wider, i, 4), i % 8);
    }
    // bits past the last cell are zero
    assert_eq!(wider[2] >> 32, 0);
}

#[test]
fn pattern_search_ordering() {
    let mut region = empty_region((3, 2, 3));
    region.set_block(at(2, 1, 2), state("stone")).unwrap();
    let found = region.find_block_positions(&state("stone"));
    assert_eq!(found, vec![at(2, 1, 2)]);

    let all = empty_region((3, 2, 3)).find_block_positions(&state("air"));
    let mut expected = Vec::new();
    for y in 0..2 {
        for z in 0..3 {
            for x in 0..3 {
                expected.push(at(x, y, z));
            }
        }
    }
    assert_eq!(all, expected);
}

#[test]
fn pattern_search_with_predicate() {
    let mut region = empty_region((2, 2, 1));
    region.set_block(at(1, 0, 0), state("oak_log")).unwrap();
    region.set_block(at(0, 1, 0), state("birch_log")).unwrap();
    let logs = region.find_block_positions(&|b: &BlockState| b.get_name().get_path().ends_with("_log"));
    assert_eq!(logs, vec![at(1, 0, 0), at(0, 1, 0)]);
    assert!(region.find_block_positions(&state("stone")).is_empty());
}

#[test]
fn get_after_set_returns_the_state() {
    let mut region = empty_region((3, 3, 3));
    let lamp = BlockStateBuilder::new(ResourceLocation::minecraft("redstone_lamp").unwrap())
        .properties(&[("lit", "true")])
        .build();
    region.set_block(at(1, 2, 0), lamp.clone()).unwrap();
    assert!(region.get_block(at(1, 2, 0)).unwrap().same_state(&lamp));
}

#[test]
fn set_leaves_other_cells_alone() {
    let mut region = empty_region((3, 1, 3));
    region.set_block(at(0, 0, 0), state("stone")).unwrap();
    region.set_block(at(2, 0, 2), state("dirt")).unwrap();
    region.set_block(at(0, 0, 0), state("dirt")).unwrap();
    assert_eq!(name_at(&region, at(2, 0, 2)), "minecraft:dirt");
    assert_eq!(name_at(&region, at(0, 0, 0)), "minecraft:dirt");
    assert_eq!(name_at(&region, at(1, 0, 1)), "minecraft:air");
    assert_eq!(region.palette().len(), 3);
}

#[test]
fn setting_the_shown_state_changes_nothing() {
    let mut region = empty_region((2, 2, 2));
    region.set_block(at(1, 1, 1), state("stone")).unwrap();
    let words = region.block_states().clone();
    let shown = region.get_block(at(1, 1, 1)).unwrap().clone();
    region.set_block(at(1, 1, 1), shown).unwrap();
    assert_eq!(region.block_states(), &words);
    assert_eq!(region.palette().len(), 2);
}

#[test]
fn from_parts_rejects_what_does_not_fit() {
    let air = || vec![state("air")];
    // wrong number of words
    assert_eq!(
        Region::from_parts(at(0, 0, 0), at(4, 4, 4), air(), vec![0]).err(),
        Some(RegionError::Malformed)
    );
    // a cell points past the palette
    assert_eq!(
        Region::from_parts(at(0, 0, 0), at(1, 1, 1), air(), vec![1]).err(),
        Some(RegionError::Malformed)
    );
    // a palette entry appears twice
    assert_eq!(
        Region::from_parts(at(0, 0, 0), at(1, 1, 1), vec![state("air"), state("air")], vec![0]).err(),
        Some(RegionError::Malformed)
    );
    // too many cells
    assert_eq!(
        Region::from_parts(at(0, 0, 0), at(i32::MAX, i32::MAX, 2), air(), vec![]).err(),
        Some(RegionError::Malformed)
    );
    // an empty region with an empty palette
    assert!(Region::from_parts(at(0, 0, 0), at(0, 5, 5), vec![], vec![]).is_ok());
    // a region of 64 cells at 2 bits
    let region = Region::from_parts(at(1, 2, 3), at(4, 4, 4), air(), vec![0, 0]).unwrap();
    assert_eq!(region.position(), at(1, 2, 3));
    assert_eq!(region.size(), at(4, 4, 4));
}

#[test]
fn rewriting_every_cell_rebuilds_the_same_words() {
    let mut region = empty_region((5, 3, 4));
    let names = ["stone", "dirt", "oak_planks", "glass", "sand", "gravel"];
    for i in 0..60i32 {
        let name = names[(i * 7 % 6) as usize];
        region.set_block(at(i % 5, i / 20, (i / 5) % 4), state(name)).unwrap();
    }
    let cells: Vec<BlockState> = (0..60i32)
        .map(|i| region.get_block(at(i % 5, i / 20, (i / 5) % 4)).unwrap().clone())
        .collect();
    let palette = region.palette().clone();
    let cleared = vec![0u64; region.block_states().len()];
    let mut rebuilt = Region::from_parts(region.position(), region.size(), palette, cleared).unwrap();
    for (i, cell) in cells.into_iter().enumerate() {
        let i = i as i32;
        rebuilt.set_block(at(i % 5, i / 20, (i / 5) % 4), cell).unwrap();
    }
    assert_eq!(rebuilt.block_states(), region.block_states());
}

#[test]
fn editing_a_palette_entry_changes_every_cell_showing_it() {
    let mut region = empty_region((2, 1, 2));
    region.set_block(at(1, 0, 1), state("stone")).unwrap();
    region
        .get_block_mut(at(0, 0, 0))
        .unwrap()
        .set_name(ResourceLocation::minecraft("cave_air").unwrap());
    assert_eq!(name_at(&region, at(0, 0, 0)), "minecraft:cave_air");
    assert_eq!(name_at(&region, at(1, 0, 0)), "minecraft:cave_air");
    assert_eq!(name_at(&region, at(0, 0, 1)), "minecraft:cave_air");
    assert_eq!(name_at(&region, at(1, 0, 1)), "minecraft:stone");
    assert!(matches!(region.get_block_mut(at(2, 0, 0)), Err(RegionError::OutOfBounds)));
}
