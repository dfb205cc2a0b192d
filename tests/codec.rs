use anvil_region::bits::{get_data, set_data};
use anvil_region::palette::Palette;
use anvil_region::section::Section;
use anvil_region::types::BlockType;
use anvil_region::util::{div_round_up, round_up_to};

#[test]
fn num_data_bits() {
    assert_eq!(4, anvil_region::bits::num_data_bits(1));
    assert_eq!(4, anvil_region::bits::num_data_bits(2));
    assert_eq!(4, anvil_region::bits::num_data_bits(3));
    assert_eq!(4, anvil_region::bits::num_data_bits(4));
    assert_eq!(4, anvil_region::bits::num_data_bits(5));
    assert_eq!(4, anvil_region::bits::num_data_bits(8));
    assert_eq!(4, anvil_region::bits::num_data_bits(9));
    assert_eq!(4, anvil_region::bits::num_data_bits(16));
    assert_eq!(5, anvil_region::bits::num_data_bits(17));
}

#[test]
fn widths_for_every_small_palette() {
    for n in 1..=16 {
        assert_eq!(anvil_region::bits::num_data_bits(n), 4);
    }
    for n in 17..=32 {
        assert_eq!(anvil_region::bits::num_data_bits(n), 5);
    }
    assert_eq!(anvil_region::bits::num_data_bits(0), 4);
    assert_eq!(anvil_region::bits::num_data_bits(33), 6);
    assert_eq!(anvil_region::bits::num_data_bits(4096), 12);
    assert_eq!(anvil_region::bits::num_data_bits(4097), 13);
    assert_eq!(anvil_region::bits::num_data_bits(65536), 16);
    let mut last = 0;
    for n in 0..5000 {
        let b = anvil_region::bits::num_data_bits(n);
        assert!(b >= last);
        last = b;
    }
}

fn pattern(i: usize, limit: u32) -> u16 {
    ((i as u32).wrapping_mul(2654435761u32) % limit) as u16
}

#[test]
fn packed_fields_round_trip_at_every_width() {
    for bits in 4u32..=16 {
        let per_word = (64 / bits) as usize;
        let words = (4096 + per_word - 1) / per_word;
        let mut data = vec![0i64; words];
        let limit = 1u32 << bits;
        for i in 0..4096usize {
            let v = pattern(i, limit);
            set_data(bits, &mut data, i, v);
        }
        for i in 0..4096usize {
            let v = pattern(i, limit);
            assert_eq!(get_data(bits, &data, i), v);
        }
        let top = (limit - 1) as u16;
        set_data(bits, &mut data, 7, top);
        assert_eq!(get_data(bits, &data, 7), top);
        assert_eq!(get_data(bits, &data, 6), pattern(6, limit));
        assert_eq!(get_data(bits, &data, 8), pattern(8, limit));
    }
}

#[test]
fn packed_layout_is_low_bits_first() {
    let mut data = vec![0i64; 2];
    set_data(4, &mut data, 0, 0xA);
    set_data(4, &mut data, 1, 0x3);
    set_data(4, &mut data, 16, 0x5);
    assert_eq!(data[0], 0x3A);
    assert_eq!(data[1], 0x5);
    let mut wide = vec![0i64; 2];
    set_data(5, &mut wide, 12, 1);
    assert_eq!(wide[1], 1);
    assert_eq!(wide[0], 0);
}

#[test]
fn palette_deduplicates() {
    let stone = BlockType::new("minecraft:stone");
    let dirt = BlockType::new("minecraft:dirt");
    let mut p = Palette::new();
    for _ in 0..5 {
        assert_eq!(p.inc_block(&stone), 0);
    }
    assert_eq!(p.entries[0].ref_cnt, 5);
    assert_eq!(p.inc_block(&dirt), 1);
    assert_eq!(p.inc_block(&BlockType::new("minecraft:sand")), 2);
    assert_eq!(p.inc_block(&stone), 0);
    assert_eq!(p.entries[0].ref_cnt, 6);
    p.dec_block(1);
    assert_eq!(p.entries[1].ref_cnt, 0);
    assert_eq!(p.len(), 3);
    assert_eq!(p.inc_block(&dirt), 1);
}

#[test]
fn property_order_does_not_matter() {
    let a = BlockType::new("minecraft:oak_log").with_property("axis", "y").with_property("lit", "false");
    let b = BlockType::new("minecraft:oak_log").with_property("lit", "false").with_property("axis", "y");
    let c = BlockType::new("minecraft:oak_log").with_property("axis", "x").with_property("lit", "false");
    assert!(a == b);
    assert!(a != c);
    let replaced = c.clone().with_property("axis", "y");
    assert!(replaced == a);
    assert_eq!(replaced.properties.len(), 2);
    let mut p = Palette::new();
    assert_eq!(p.inc_block(&a), 0);
    assert_eq!(p.inc_block(&b), 0);
    assert_eq!(p.inc_block(&c), 1);
}

#[test]
fn new_section_is_air() {
    let s = Section::new();
    assert!(s.blocks.is_none());
    assert_eq!(s.palette.len(), 1);
    assert_eq!(s.palette.entries[0].ref_cnt, 4096);
    assert!(s.block_at(3, 4, 5) == BlockType::new("minecraft:air"));
    let stored = s.to_nbt(-4);
    let states = stored.block_states.as_ref().unwrap();
    assert!(states.data.is_none());
    assert_eq!(states.palette.len(), 1);
    assert_eq!(stored.y, -4);
}

#[test]
fn section_round_trip() {
    let kinds = [
        BlockType::new("minecraft:stone"),
        BlockType::new("minecraft:dirt"),
        BlockType::new("minecraft:glass"),
        BlockType::new("minecraft:oak_log").with_property("axis", "z"),
    ];
    let mut s = Section::new();
    for y in 0..16 {
        for z in 0..16 {
            for x in 0..16 {
                let k = &kinds[((x * 7 + y * 3 + z) % 4) as usize];
                s.set_block(x, y, z, k);
            }
        }
    }
    let expect: Vec<BlockType> = (0..4096).map(|i| {
        let x = i % 16;
        let z = (i / 16) % 16;
        let y = i / 256;
        s.block_at(x, y, z)
    }).collect();
    let stored = s.to_nbt(3);
    assert_eq!(stored.y, 3);
    let data = stored.block_states.as_ref().unwrap().data.as_ref().unwrap();
    // the palette holds air, no longer used, and the four kinds: 5 entries at 4 bits
    assert_eq!(stored.block_states.as_ref().unwrap().palette.len(), 5);
    assert_eq!(data.len(), 256);
    let back = Section::from_data(&stored).unwrap();
    for i in 0..4096 {
        let x = i % 16;
        let z = (i / 16) % 16;
        let y = i / 256;
        assert!(back.block_at(x, y, z) == expect[i as usize]);
    }
    // cells that no coordinate reaches stay air
    assert_eq!(back.palette.len(), 5);
}

#[test]
fn section_cell_layout_scales_y_by_64() {
    let mut s = Section::new();
    let gold = BlockType::new("minecraft:gold_block");
    s.set_block(0, 1, 0, &gold);
    assert!(s.block_at(0, 0, 4) == gold);
    assert!(s.block_at(0, 0, 3) == BlockType::new("minecraft:air"));
    assert_eq!(s.palette.entries[0].ref_cnt, 4095);
    assert_eq!(s.palette.entries[1].ref_cnt, 1);
    s.set_block(0, 0, 4, &BlockType::new("minecraft:air"));
    assert_eq!(s.palette.entries[0].ref_cnt, 4096);
    assert_eq!(s.palette.entries[1].ref_cnt, 0);
    assert_eq!(s.palette.len(), 2);
}

#[test]
fn malformed_sections_are_rejected() {
    let mut s = Section::new();
    s.set_block(1, 2, 3, &BlockType::new("minecraft:stone"));
    let mut stored = s.to_nbt(0);
    // a field that names no palette entry
    stored.block_states.as_mut().unwrap().palette.truncate(1);
    let data = stored.block_states.as_mut().unwrap().data.as_mut().unwrap();
    data[0] = 0xF;
    assert!(Section::from_data(&stored).is_none());
    // too few words
    let mut short = s.to_nbt(0);
    short.block_states.as_mut().unwrap().data.as_mut().unwrap().pop();
    assert!(Section::from_data(&short).is_none());
    // no packed cells: uniform first entry
    let mut uniform = s.to_nbt(0);
    uniform.block_states.as_mut().unwrap().data = None;
    let u = Section::from_data(&uniform).unwrap();
    assert!(u.block_at(1, 2, 3) == BlockType::new("minecraft:air"));
}

#[test]
fn rounding_helpers() {
    assert_eq!(round_up_to(0, 4096), 0);
    assert_eq!(round_up_to(1, 4096), 4096);
    assert_eq!(round_up_to(4096, 4096), 4096);
    assert_eq!(round_up_to(4097, 4096), 8192);
    assert_eq!(div_round_up(4096, 12), 342);
    assert_eq!(div_round_up(4096, 16), 256);
    assert_eq!(div_round_up(1, 4096), 1);
    assert_eq!(div_round_up(0, 4096), 0);
}

#[test]
fn decoded_palette_follows_first_use() {
    let stone = BlockType::new("minecraft:stone");
    let dirt = BlockType::new("minecraft:dirt");
    let mut s = Section::new();
    s.set_block(0, 0, 0, &stone);
    s.set_block(1, 0, 0, &dirt);
    let stored = s.to_nbt(0);
    let states = stored.block_states.as_ref().unwrap();
    assert!(states.palette[0] == BlockType::new("minecraft:air"));
    assert!(states.palette[1] == stone);
    assert!(states.palette[2] == dirt);
    assert!(stored.sky_light.is_none());
    assert_eq!(stored.biomes.palette, vec!["minecraft:plains".to_string()]);
    let back = Section::from_data(&stored).unwrap();
    assert!(back.palette.entries[0].ty == stone);
    assert!(back.palette.entries[1].ty == dirt);
    assert!(back.palette.entries[2].ty == BlockType::new("minecraft:air"));
    assert_eq!(back.palette.entries[0].ref_cnt, 1);
    assert_eq!(back.palette.entries[1].ref_cnt, 1);
    assert_eq!(back.palette.entries[2].ref_cnt, 4094);
    assert_eq!(back.biomes, vec!["minecraft:plains".to_string()]);
}

#[test]
fn unused_bits_are_zero() {
    let mut s = Section::new();
    for k in 0..16 {
        s.set_block(k, 0, 0, &BlockType::new(&format!("minecraft:block_{}", k)));
    }
    // 17 entries with air: 5 bits, 12 fields per word, 4 spare bits
    let stored = s.to_nbt(0);
    let data = stored.block_states.as_ref().unwrap().data.as_ref().unwrap();
    assert_eq!(data.len(), 342);
    for w in data.iter() {
        assert_eq!((*w as u64) >> 60, 0);
    }
    // the last word holds the last 4 cells only
    assert_eq!((data[341] as u64) >> 20, 0);
}

#[test]
fn rounding_a_rounded_value_near_the_top() {
    let top = (u64::MAX / 4096) * 4096;
    assert_eq!(round_up_to(top, 4096), top);
    assert_eq!(round_up_to(round_up_to(5000, 4096), 4096), 8192);
}
