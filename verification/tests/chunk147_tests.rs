use convert_world::chunk147::{Block, Chunk, Level, Section};
use convert_world::conversion::ConversionMap;
use std::collections::HashMap;

fn section(blocks: Vec<i8>, add: Option<Vec<i8>>, data: Option<Vec<i8>>) -> Section {
    Section { blocks, add, y: 3, data, other: HashMap::new() }
}

#[test]
fn block_bytes() {
    let b = Block::new(0x1A5, Some(3));
    assert_eq!(b.to_i8(), 0xA5u8 as i8);
    assert_eq!(b.add_to_i8(), 1);
    assert_eq!(b.id(), 0x1A5);
    assert_eq!(b.data(), Some(3));
    assert!(b.has_data());
    assert!(!Block::new(1, None).has_data());
    // a negative id keeps its high byte, sign and all
    assert_eq!(Block::new(-256, None).add_to_i8(), -1);
}

#[test]
fn from_i8_reads_unsigned() {
    assert_eq!(Block::from_i8(-1), Block::new(255, None));
    assert_eq!(Block::from_i8(-128), Block::new(128, None));
    assert_eq!(Block::from_i8(35), Block::new(35, None));
    for b in i8::MIN..=i8::MAX {
        assert_eq!(Block::from_i8(b).to_i8(), b);
    }
}

#[test]
fn id_split_law() {
    for id in [0, 1, 255, 256, 4095, 0x1234, 65535] {
        let b = Block::new(id, None);
        let back = (b.to_i8() as u8 as i32) + (b.add_to_i8() as u8 as i32) * 256;
        assert_eq!(back, id);
    }
}

#[test]
fn block_reads_add_and_data() {
    let mut blocks = vec![0i8; 4096];
    blocks[1] = 7;
    blocks[256] = -2;
    let mut add = vec![0i8; 2048];
    add[0] = 0x20; // position 1 (odd): high nibble 2
    add[128] = 0x05; // position 256 (even): the whole byte counts
    let mut data = vec![0i8; 2048];
    data[0] = 0x90u8 as i8; // position 1: 9
    data[128] = 0x0C; // position 256: 12
    let s = section(blocks, Some(add), Some(data));
    assert_eq!(s.block(1, 0, 0), Block::new(7 + 2 * 256, Some(9)));
    assert_eq!(s.block(0, 1, 0), Block::new(-2 + 5 * 256, Some(12)));
    assert_eq!(s.block(2, 0, 0), Block::new(0, Some(0)));
    let plain = section(vec![5i8; 4096], None, None);
    assert_eq!(plain.block(15, 15, 15), Block::new(5, None));
}

#[test]
fn replace_block_writes_nibbles() {
    let mut s = section(vec![0i8; 8], Some(vec![0x31, 0, 0, 0]), Some(vec![0x7F, 0, 0, 0]));
    s.replace_block(1, &Block::new(0x2AB, Some(4)));
    assert_eq!(s.blocks[1], 0xABu8 as i8);
    assert_eq!(s.add.as_ref().unwrap()[0], 0x21); // low nibble kept, high nibble 2
    assert_eq!(s.data.as_ref().unwrap()[0], 0x4F); // low nibble kept, high nibble 4
    s.replace_block(0, &Block::new(0x305, Some(6)));
    assert_eq!(s.blocks[0], 5);
    assert_eq!(s.add.as_ref().unwrap()[0], 0x23);
    assert_eq!(s.data.as_ref().unwrap()[0], 0x46);
    // without a data value the data array stays
    s.replace_block(2, &Block::new(1, None));
    assert_eq!(s.data.as_ref().unwrap()[1], 0);
    assert_eq!(s.blocks[2], 1);
}

#[test]
fn replace_block_read_back_law() {
    let mut s = section(vec![9i8; 16], Some(vec![0x55; 8]), Some(vec![0x66; 8]));
    for (idx, id, d) in [(3usize, 0xFFF, 15i8), (4, 0x100, 0), (7, 42, 9)] {
        s.replace_block(idx, &Block::new(id, Some(d)));
        let b = s.block(idx as i32, 0, 0);
        // `block` reads the add byte signed, so compare through the nibble arrays directly
        let nib = |a: &Vec<i8>| if idx % 2 == 0 { a[idx / 2] & 0x0F } else { (a[idx / 2] >> 4) & 0x0F };
        assert_eq!((s.blocks[idx] as u8 as i32) + (nib(s.add.as_ref().unwrap()) as i32) * 256, id);
        assert_eq!(nib(s.data.as_ref().unwrap()), d);
        assert_eq!(b.data(), Some(d));
    }
}

#[test]
fn replace_all_selects_by_id_and_data() {
    // positions: 0 -> id 1 data 2, 1 -> id 1 data 3, 2 -> id 257 data 2, 3 -> id 1 data 2
    let mut s = section(vec![1, 1, 1, 1], Some(vec![0x00, 0x00]), Some(vec![0x32, 0x22]));
    s.add.as_mut().unwrap()[1] = 0x01; // position 2 gets add nibble 1
    s.replace_all(&Block::new(1, Some(2)), &Block::new(20, Some(5)));
    assert_eq!(s.blocks, vec![20, 1, 1, 20]);
    assert_eq!(s.data.as_ref().unwrap()[0] & 0x0F, 5);
    assert_eq!((s.data.as_ref().unwrap()[0] >> 4) & 0x0F, 3);
    assert_eq!((s.data.as_ref().unwrap()[1] >> 4) & 0x0F, 5);
    assert_eq!(s.y, 3);
}

#[test]
fn replace_all_without_data_matches_every_data_value() {
    let mut s = section(vec![7, 7, 8, 7], None, Some(vec![0x10, 0x20]));
    s.replace_all(&Block::new(7, None), &Block::new(9, None));
    assert_eq!(s.blocks, vec![9, 9, 8, 9]);
    assert_eq!(s.data, Some(vec![0x10, 0x20]));
}

#[test]
fn replace_all_high_ids_need_the_add_nibble() {
    let mut s = section(vec![1, 1], Some(vec![0x10]), None);
    s.replace_all(&Block::new(0x101, None), &Block::new(3, None));
    // position 0 has add nibble 0 (id 1), position 1 has add nibble 1 (id 257)
    assert_eq!(s.blocks, vec![1, 3]);
    assert_eq!(s.add, Some(vec![0x00]));
}

#[test]
fn replace_all_blocks_uses_the_table() {
    let mut map = ConversionMap::new();
    map.insert(Block::new(1, Some(2)), Block::new(50, Some(1)));
    map.insert(Block::new(4, None), Block::new(60, None));
    let mut s = section(vec![1, 1, 4, 5], None, Some(vec![0x32, 0x71]));
    let changed = s.replace_all_blocks(&map);
    assert!(changed);
    // position 0: (1, 2) found; position 1: (1, 3) and (1, none) not found;
    // position 2: (4, 1) not found, (4, none) found; position 3: nothing
    assert_eq!(s.blocks, vec![50, 1, 60, 5]);
    assert_eq!(s.data.as_ref().unwrap()[0], 0x31);
    let mut untouched = section(vec![9, 9], None, None);
    assert!(!untouched.replace_all_blocks(&map));
    assert_eq!(untouched.blocks, vec![9, 9]);
}

#[test]
fn conversion_map_insert_get() {
    let mut map: ConversionMap<i32> = ConversionMap::new();
    assert!(map.get(&Block::new(1, None)).is_none());
    map.insert(Block::new(1, None), 10);
    map.insert(Block::new(1, Some(0)), 11);
    map.insert(Block::new(-1, Some(-1)), 12);
    map.insert(Block::new(1, None), 13);
    assert_eq!(map.get(&Block::new(1, None)), Some(&13));
    assert_eq!(map.get(&Block::new(1, Some(0))), Some(&11));
    assert_eq!(map.get(&Block::new(-1, Some(-1))), Some(&12));
    assert!(map.get(&Block::new(-1, None)).is_none());
}

#[test]
fn level_accessors() {
    let mut chunk = Chunk {
        level: Level {
            biomes: Some(vec![1, 2]),
            tile_entities: vec![],
            height_map: vec![4; 256],
            sections: vec![section(vec![0; 4], None, None)],
            last_update: 77,
            x_pos: -3,
            z_pos: 40,
            other: HashMap::new(),
        },
    };
    assert_eq!(chunk.level().last_update(), 77);
    assert_eq!(chunk.level().x_pos(), -3);
    assert_eq!(chunk.level().z_pos(), 40);
    assert_eq!(chunk.level().biomes(), Some(&vec![1, 2]));
    assert_eq!(chunk.level().height_map().len(), 256);
    assert_eq!(chunk.level().sections()[0].y(), 3);
    chunk.mut_level().mut_sections()[0].replace_block(0, &Block::new(2, None));
    assert_eq!(chunk.level().sections()[0].blocks()[0], 2);
    chunk.mut_level().set_tile_entities(vec![]);
    assert!(chunk.level().tile_entities().is_empty());
    assert!(chunk.level().other().is_empty());
    assert!(chunk.level().sections()[0].add().is_none());
    assert!(chunk.level().sections()[0].other().is_empty());
}

#[test]
fn replace_all_by_itself_changes_nothing() {
    let blocks: Vec<i8> = (0..64).map(|i| (i % 5) as i8).collect();
    let add = Some((0..32).map(|i| (i % 3) as i8 * 0x11).collect::<Vec<i8>>());
    let data = Some((0..32).map(|i| (i * 7 % 128) as i8).collect::<Vec<i8>>());
    let mut s = section(blocks, add, data);
    let before = (s.blocks.clone(), s.add.clone(), s.data.clone());
    for b in [Block::new(2, None), Block::new(0x102, Some(7)), Block::new(4, Some(0)), Block::new(3, Some(15))] {
        assert!(s.can_replace_all(&b, &b));
        s.replace_all(&b, &b);
        assert_eq!((s.blocks.clone(), s.add.clone(), s.data.clone()), before);
    }
}

#[test]
fn replace_all_twice_is_replace_all_once() {
    let blocks: Vec<i8> = (0..64).map(|i| (i % 4) as i8).collect();
    let add = Some(vec![0i8; 32]);
    let data = Some((0..32).map(|i| (i % 16) as i8).collect::<Vec<i8>>());
    for (old, new) in [
        (Block::new(1, None), Block::new(0x203, Some(9))),
        (Block::new(2, Some(2)), Block::new(2, Some(5))),
        (Block::new(3, None), Block::new(1, None)),
    ] {
        let mut s = section(blocks.clone(), add.clone(), data.clone());
        s.replace_all(&old, &new);
        let once = (s.blocks.clone(), s.add.clone(), s.data.clone());
        assert!(s.can_replace_all(&old, &new));
        s.replace_all(&old, &new);
        assert_eq!((s.blocks.clone(), s.add.clone(), s.data.clone()), once);
    }
}

#[test]
fn replace_block_read_back_without_add_or_data() {
    let mut s = section(vec![0; 4], None, None);
    s.replace_block(1, &Block::new(0x1C8, Some(4)));
    let mut map = ConversionMap::new();
    // without Add only the low byte is stored; without Data no data value is read
    map.insert(Block::new(0xC8, None), Block::new(1, None));
    assert!(s.replace_all_blocks(&map));
    assert_eq!(s.blocks[1], 1);
}

#[test]
fn block_reads_back_without_add() {
    let mut s = section(vec![0; 4096], None, Some(vec![0; 2048]));
    let pos = 2 * 256 + 3 * 16 + 4;
    s.replace_block(pos, &Block::new(100, Some(6)));
    assert_eq!(s.block(4, 2, 3), Block::new(100, Some(6)));
    let mut plain = section(vec![0; 4096], None, None);
    plain.replace_block(pos + 1, &Block::new(127, Some(6)));
    assert_eq!(plain.block(5, 2, 3), Block::new(127, None));
}
