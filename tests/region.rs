use anvil_region::chunk::{Chunk, ChunkError};
use anvil_region::region::{
    load_chunk, read_locations, read_payloads, write_region, ChunkLocation, Region, RegionError,
};
use anvil_region::types::BlockType;
use std::io::Write;

fn be32(b: &[u8], at: usize) -> u32 {
    u32::from_be_bytes([b[at], b[at + 1], b[at + 2], b[at + 3]])
}

#[test]
fn new_chunk_is_all_air() {
    let c = Chunk::new(0, 0);
    assert_eq!(c.sections.len(), 24);
    assert_eq!(c.data.sections.len(), 24);
    assert_eq!(c.data.y_pos, -4);
    assert_eq!(c.data.status, "full");
    assert_eq!(c.data.data_version, 2865);
    let air = BlockType::new("minecraft:air");
    for (i, s) in c.sections.iter().enumerate() {
        assert_eq!(c.data.sections[i].y, -4 + i as i8);
        assert_eq!(s.palette.len(), 1);
        assert_eq!(anvil_region::bits::num_data_bits(s.palette.len()), 4);
        for y in 0..16 {
            for z in 0..16 {
                for x in 0..16 {
                    assert!(s.block_at(x, y, z) == air);
                }
            }
        }
    }
}

#[test]
fn chunk_set_block_uses_world_height() {
    let mut c = Chunk::new(3, 4);
    let stone = BlockType::new("minecraft:stone");
    c.set_block(1, -64, 2, &stone);
    assert!(c.get_block(1, -64, 2) == stone);
    assert!(c.sections[0].block_at(1, 0, 2) == stone);
    c.set_block(5, 100, 6, &stone);
    // local height 164: section 10, height 4 in the section
    assert!(c.sections[10].block_at(5, 4, 6) == stone);
    let record = c.to_nbt();
    assert_eq!(record.sections.len(), 24);
    assert_eq!(record.sections[10].y, 6);
    assert_eq!(record.x_pos, 3);
    let back = Chunk::from_data(record).unwrap();
    assert!(back.get_block(5, 100, 6) == stone);
    assert!(back.get_block(1, -64, 2) == stone);
    assert!(back.get_block(1, -63, 2) == BlockType::new("minecraft:air"));
}

#[test]
fn chunk_record_with_wrong_section_count_is_rejected() {
    let mut record = Chunk::new(0, 0).to_nbt();
    record.sections.pop();
    assert_eq!(Chunk::from_data(record).err(), Some(ChunkError::WrongSectionCount));
    let mut record = Chunk::new(0, 0).to_nbt();
    let mut c = Chunk::new(0, 0);
    c.set_block(0, 0, 0, &BlockType::new("minecraft:stone"));
    record.sections[4] = c.to_nbt().sections[4].clone();
    record.sections[4].block_states.as_mut().unwrap().palette.truncate(1);
    assert_eq!(Chunk::from_data(record).err(), Some(ChunkError::MalformedSection(4)));
}

#[test]
fn region_blocks_survive_records() {
    let mut region = Region::new(0, 0);
    let planks = BlockType::new("minecraft:jungle_planks");
    let glass = BlockType::new("minecraft:glass").with_property("tint", "none");
    region.set_block(0, 0, 0, &planks);
    region.set_block(40, 70, 300, &glass);
    region.set_block(512, -10, 512, &planks);
    assert!(region.chunks[0].is_some());
    // x % 32 = 8, z % 32 = 12
    assert!(region.chunks[8 + 12 * 32].is_some());
    assert!(region.get_block(40, 70, 300).unwrap() == glass);
    assert!(region.get_block(0, 0, 0).unwrap() == planks);
    assert!(region.get_block(0, 1, 0).unwrap() == BlockType::new("minecraft:air"));
    assert!(region.get_block(1, 0, 0).is_none());
    assert!(region.get_block(3, 0, 3).is_none());
    let records = region.to_records();
    let back = Region::from_records(0, 0, records).unwrap();
    assert!(back.get_block(40, 70, 300).unwrap() == glass);
    assert!(back.get_block(0, 0, 0).unwrap() == planks);
    assert!(back.get_block(512, -10, 512).unwrap() == planks);
    assert!(back.get_block(3, 0, 3).is_none());
}

#[test]
fn region_new_chunk_coordinates() {
    let mut region = Region::new(1, -1);
    region.set_block(64, 0, 96, &BlockType::new("minecraft:stone"));
    let c = region.chunks[0].as_ref().unwrap();
    assert_eq!(c.data.x_pos, (512 + 64) / 32);
    assert_eq!(c.data.z_pos, (-512 + 96) / 32);
    // z goes to in-chunk column 96 % 15 = 6
    assert!(c.get_block(0, 0, 6) == BlockType::new("minecraft:stone"));
}

fn sample_payloads() -> Vec<Option<Vec<u8>>> {
    let mut payloads: Vec<Option<Vec<u8>>> = vec![None; 1024];
    payloads[0] = Some(b"first record".to_vec());
    payloads[5] = Some((0..20000u32).map(|i| (i * 7919 % 251) as u8).collect());
    payloads[1023] = Some(Vec::new());
    payloads
}

#[test]
fn container_round_trip() {
    let payloads = sample_payloads();
    let bytes = write_region(&payloads, 1234567).unwrap();
    assert_eq!(bytes.len() % 4096, 0);
    let back: Vec<Option<Vec<u8>>> = read_payloads(&bytes)
        .unwrap()
        .into_iter()
        .map(|slot| slot.map(|loaded| loaded.unwrap()))
        .collect();
    assert_eq!(back, payloads);
}

#[test]
fn container_sector_accounting() {
    let payloads = sample_payloads();
    let bytes = write_region(&payloads, 99).unwrap();
    let locations = read_locations(&bytes).unwrap();
    assert_eq!(locations.len(), 1024);
    let mut used: Vec<(u64, u64)> = Vec::new();
    for (i, loc) in locations.iter().enumerate() {
        assert_eq!(be32(&bytes, 4096 + 4 * i), 99);
        if payloads[i].is_none() {
            assert_eq!(*loc, ChunkLocation { offset: 0, size: 0 });
            continue;
        }
        assert_eq!(loc.offset % 4096, 0);
        assert!(loc.offset >= 8192);
        let len = be32(&bytes, loc.offset as usize) as u64;
        assert_eq!(bytes[loc.offset as usize + 4], 2);
        assert!(len + 4 <= loc.size);
        assert!(loc.size < len + 4 + 4096);
        assert_eq!(loc.size % 4096, 0);
        used.push((loc.offset, loc.offset + loc.size));
    }
    assert_eq!(locations[0].offset, 8192);
    for a in 0..used.len() {
        for b in a + 1..used.len() {
            assert!(used[a].1 <= used[b].0 || used[b].1 <= used[a].0);
        }
    }
    let payload = load_chunk(&bytes, 5, &locations[5]).unwrap();
    assert_eq!(Some(payload), payloads[5]);
}

#[test]
fn container_errors() {
    assert_eq!(read_payloads(&vec![0u8; 100]), Err(RegionError::Truncated(0)));
    let empty = vec![0u8; 8192];
    assert_eq!(read_payloads(&empty).unwrap().iter().filter(|p| p.is_some()).count(), 0);

    let mut payloads: Vec<Option<Vec<u8>>> = vec![None; 1024];
    payloads[3] = Some(b"abc".to_vec());
    let good = write_region(&payloads, 0).unwrap();
    let loc = read_locations(&good).unwrap()[3];
    let at = loc.offset as usize;

    let mut gzip = good.clone();
    gzip[at + 4] = 1;
    assert_eq!(read_payloads(&gzip).unwrap()[3], Some(Err(RegionError::UnsupportedCompression(3, 1))));
    let mut raw = good.clone();
    raw[at + 4] = 3;
    assert_eq!(read_payloads(&raw).unwrap()[3], Some(Err(RegionError::UnsupportedCompression(3, 3))));
    let mut unknown = good.clone();
    unknown[at + 4] = 9;
    assert_eq!(read_payloads(&unknown).unwrap()[3], Some(Err(RegionError::UnknownCompression(3, 9))));
    let mut oversized = good.clone();
    oversized[at..at + 4].copy_from_slice(&5000u32.to_be_bytes());
    assert_eq!(read_payloads(&oversized).unwrap()[3], Some(Err(RegionError::InconsistentSize(3))));
    let mut garbled = good.clone();
    garbled[at + 5] ^= 0xFF;
    garbled[at + 6] ^= 0xFF;
    assert_eq!(read_payloads(&garbled).unwrap()[3], Some(Err(RegionError::Decompression(3))));
    // a fault in one chunk leaves the others readable
    let mut two = payloads.clone();
    two[7] = Some(b"seven".to_vec());
    let mut mixed = write_region(&two, 0).unwrap();
    let bad = read_locations(&mixed).unwrap()[3].offset as usize;
    mixed[bad + 4] = 9;
    let slots = read_payloads(&mixed).unwrap();
    assert_eq!(slots[3], Some(Err(RegionError::UnknownCompression(3, 9))));
    assert_eq!(slots[7], Some(Ok(b"seven".to_vec())));
    let cut = good[..at + 2].to_vec();
    assert_eq!(read_payloads(&cut).unwrap()[3], Some(Err(RegionError::Truncated(3))));
}

#[test]
fn stored_payloads_are_zlib_streams() {
    let mut payloads: Vec<Option<Vec<u8>>> = vec![None; 1024];
    payloads[2] = Some(vec![0u8; 10000]);
    let bytes = write_region(&payloads, 0).unwrap();
    let loc = read_locations(&bytes).unwrap()[2];
    let at = loc.offset as usize;
    let len = be32(&bytes, at) as usize;
    assert_eq!(loc.size, 4096);
    assert!(len - 1 < 10000);
    assert_eq!(bytes[at + 5], 0x78);
    assert_eq!(bytes.len(), 3 * 4096);
}

#[test]
fn load_chunk_inflates_the_payload() {
    let record = b"a record that is stored compressed, a record that is stored compressed".to_vec();
    let mut encoder = flate2::write::ZlibEncoder::new(Vec::new(), flate2::Compression::default());
    encoder.write_all(&record).unwrap();
    let stream = encoder.finish().unwrap();
    let mut bytes = vec![0u8; 3 * 4096];
    bytes[0..4].copy_from_slice(&[0, 0, 2, 1]);
    let length = (stream.len() + 1) as u32;
    bytes[8192..8196].copy_from_slice(&length.to_be_bytes());
    bytes[8196] = 2;
    bytes[8197..8197 + stream.len()].copy_from_slice(&stream);
    let loc = read_locations(&bytes).unwrap()[0];
    assert_eq!(loc, ChunkLocation { offset: 8192, size: 4096 });
    assert_eq!(load_chunk(&bytes, 0, &loc).unwrap(), record);
    let all = read_payloads(&bytes).unwrap();
    assert_eq!(all[0], Some(Ok(record)));
}

#[test]
fn oversized_chunk_is_rejected() {
    let mut payloads: Vec<Option<Vec<u8>>> = vec![None; 1024];
    payloads[1] = Some(b"small".to_vec());
    let mut state: u64 = 0x9E3779B97F4A7C15;
    let noise: Vec<u8> = (0..1_200_000)
        .map(|_| {
            state ^= state << 13;
            state ^= state >> 7;
            state ^= state << 17;
            (state >> 24) as u8
        })
        .collect();
    payloads[9] = Some(noise);
    assert_eq!(write_region(&payloads, 0), Err(RegionError::ChunkTooLarge(9)));
}

#[test]
fn chunk_record_survives_decode_and_encode() {
    let mut c = Chunk::new(7, -3);
    c.data.last_update = 99;
    c.data.inhabitied_time = Some(12);
    c.data.height_maps.insert("WORLD_SURFACE".to_string(), vec![1, 2, 3]);
    c.data.block_entities.push(nbt::Value::Int(5));
    c.data.post_processing[2].push(nbt::Value::Short(4));
    c.set_block(3, 10, 4, &BlockType::new("minecraft:stone"));
    let record = c.to_nbt();
    assert_eq!(record.post_processing.len(), 24);
    assert_eq!(record.post_processing[2], vec![nbt::Value::Short(4)]);
    let back = Chunk::from_data(record.clone()).unwrap();
    let again = back.to_nbt();
    assert_eq!(again.last_update, 99);
    assert_eq!(again.inhabitied_time, Some(12));
    assert_eq!(again.height_maps, record.height_maps);
    assert_eq!(again.block_entities, record.block_entities);
    assert_eq!(again.post_processing, record.post_processing);
    assert_eq!(again.status, "full");
    assert_eq!((again.x_pos, again.y_pos, again.z_pos), (7, -4, -3));
    assert!(back.get_block(3, 10, 4) == BlockType::new("minecraft:stone"));
}
