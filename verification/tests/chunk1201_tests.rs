use convert_world::chunk1201::{Block, BlockStates, Chunk, Section};
use convert_world::chunk147;
use convert_world::conversion::ConversionMap;
use std::collections::HashMap;

fn named(n: &str) -> Block {
    Block::new(n.to_string(), None)
}

#[test]
fn new_block_states() {
    let single = BlockStates::new(vec![named("minecraft:air")]);
    assert!(single.data().is_none());
    assert_eq!(single.block(3, 4, 5).name(), "minecraft:air");
    // 2 entries: 4 bits, 16 per word, 4096 / 16 = 256 words
    let two = BlockStates::new(vec![named("a"), named("b")]);
    assert_eq!(two.data().unwrap().len(), 256);
    assert!(two.data().unwrap().iter().all(|w| *w == 0));
    // 17 entries: 5 bits, 12 per word, 4095 / 12 + 1 = 342 words
    let many: Vec<Block> = (0..17).map(|i| named(&format!("b{i}"))).collect();
    assert_eq!(BlockStates::new(many).data().unwrap().len(), 342);
    // 300 entries: 9 bits, 7 per word, 4095 / 7 + 1 = 586 words
    let more: Vec<Block> = (0..300).map(|i| named(&format!("b{i}"))).collect();
    assert_eq!(BlockStates::new(more).data().unwrap().len(), 586);
}

#[test]
fn palette_search_and_growth() {
    let mut bs = BlockStates::new(vec![named("a"), named("b"), named("b")]);
    assert_eq!(bs.palette_contains(&named("b")), 1);
    assert_eq!(bs.palette_contains(&named("c")), -1);
    let with_props = Block::new("b".to_string(), Some(fastnbt::Value::Byte(1)));
    assert_eq!(bs.palette_contains(&with_props), -1);
    assert_eq!(bs.add_to_palette(with_props.clone()), 3);
    assert_eq!(bs.palette_contains(&with_props), 3);
    assert_eq!(bs.palette().len(), 4);
}

#[test]
fn set_block_then_read_back() {
    let mut bs = BlockStates::new(vec![named("a"), named("b")]);
    bs.set_block(&named("b"), 1, 2, 3);
    bs.set_block(&named("c"), 15, 15, 15);
    bs.set_block(&named("a"), 0, 0, 0);
    assert_eq!(bs.block(1, 2, 3).name(), "b");
    assert_eq!(bs.block(15, 15, 15).name(), "c");
    assert_eq!(bs.block(0, 0, 0).name(), "a");
    assert_eq!(bs.block(2, 2, 3).name(), "a");
    assert_eq!(bs.palette().len(), 3);
    // position 2*256 + 3*16 + 1 = 561, word 561 / 16 = 35, slot 1: index 1 in bits 4..8
    assert_eq!(bs.data().unwrap()[35], 1 << 4);
}

#[test]
fn set_block_without_packed_array_only_grows_palette() {
    let mut bs = BlockStates::new(vec![named("minecraft:air")]);
    bs.set_block(&named("stone"), 0, 0, 0);
    assert!(bs.data().is_none());
    assert_eq!(bs.palette().len(), 2);
    assert_eq!(bs.block(0, 0, 0).name(), "minecraft:air");
}

#[test]
fn set_block_extends_short_array() {
    let mut bs = BlockStates { palette: vec![named("a"), named("b")], data: Some(vec![]) };
    bs.set_block(&named("b"), 0, 1, 0);
    let data = bs.data().unwrap();
    assert_eq!(data.len(), 17);
    assert_eq!(data[16], 1);
    assert_eq!(bs.block(0, 1, 0).name(), "b");
}

#[test]
fn block_clone_and_equality() {
    let b = Block::new("x".to_string(), Some(fastnbt::Value::Int(5)));
    let c = b.clone();
    assert_eq!(b, c);
    assert_eq!(c.name(), "x");
}

fn old_section(ids: &dyn Fn(usize) -> i8, add: Option<Vec<i8>>) -> chunk147::Section {
    chunk147::Section {
        blocks: (0..4096).map(ids).collect(),
        add,
        y: 5,
        data: None,
        other: HashMap::new(),
    }
}

#[test]
fn convert_section_with_add() {
    let mut map = ConversionMap::new();
    map.insert(chunk147::Block::new(1, None), "minecraft:stone".to_string());
    map.insert(chunk147::Block::new(2, None), "minecraft:dirt".to_string());
    let old = old_section(&|i| if i % 3 == 0 { 1 } else if i % 3 == 1 { 2 } else { 9 }, Some(vec![0; 2048]));
    let new = Section::convert_old(&old, &map);
    assert_eq!(new.y, 5);
    assert!(new.biomes.is_none());
    let bs = new.block_states().unwrap();
    let names: Vec<&str> = bs.palette().iter().map(|b| b.name().as_str()).collect();
    assert_eq!(names, vec!["minecraft:air", "minecraft:stone", "minecraft:dirt"]);
    for pos in [0usize, 1, 2, 3, 4000, 4095] {
        let (x, y, z) = ((pos % 16) as i32, (pos / 256) as i32, ((pos / 16) % 16) as i32);
        let expected = ["minecraft:stone", "minecraft:dirt", "minecraft:air"][pos % 3];
        assert_eq!(bs.block(x, y, z).name(), expected);
    }
}

#[test]
fn convert_section_without_add() {
    let mut map = ConversionMap::new();
    map.insert(chunk147::Block::new(1, None), "minecraft:stone".to_string());
    let old = old_section(&|_| 1, None);
    let new = Section::convert_old(&old, &map);
    let bs = new.block_states().unwrap();
    // the starting palette is air alone, so there is no packed array to write into
    assert!(bs.data().is_none());
    let names: Vec<&str> = bs.palette().iter().map(|b| b.name().as_str()).collect();
    assert_eq!(names, vec!["minecraft:air", "minecraft:stone"]);
}

#[test]
fn convert_chunk() {
    let map: ConversionMap<String> = ConversionMap::new();
    let old = chunk147::Chunk {
        level: chunk147::Level {
            biomes: None,
            tile_entities: vec![],
            height_map: vec![],
            sections: vec![old_section(&|_| 0, Some(vec![0; 2048])), old_section(&|_| 3, None)],
            last_update: 1234,
            x_pos: 7,
            z_pos: -8,
            other: HashMap::new(),
        },
    };
    let mut new = Chunk::convert_old(&old, &map);
    assert_eq!(new.last_update, Some(1234));
    assert_eq!(new.x_pos, Some(7));
    assert_eq!(new.z_pos, Some(-8));
    assert!(new.data_version.is_none() && new.status.is_none() && new.block_entities().is_none());
    assert_eq!(new.sections().unwrap().len(), 2);
    assert_eq!(new.mut_sections().unwrap()[1].y, 5);
    let d = Chunk::default();
    assert!(d.sections().is_none() && d.other.is_empty());
}

#[test]
fn convert_section_with_add_reads_back_everywhere() {
    let mut map = ConversionMap::new();
    map.insert(chunk147::Block::new(1, None), "minecraft:stone".to_string());
    map.insert(chunk147::Block::new(0x105, None), "minecraft:gold_block".to_string());
    // ids 1, 7 (unknown, so air) and, below position 200, 5 plus the Add byte: an odd
    // position reads its high nibble (1, so id 0x105), an even one the whole byte (0x10)
    let mut add = vec![0i8; 2048];
    for b in add.iter_mut().take(100) {
        *b = 0x10;
    }
    let old = old_section(&|i| if i < 200 { 5 } else if i % 2 == 0 { 1 } else { 7 }, Some(add));
    let new = Section::convert_old(&old, &map);
    let bs = new.block_states().unwrap();
    for y in 0..16 {
        for z in 0..16 {
            for x in 0..16 {
                let pos = (y * 256 + z * 16 + x) as usize;
                let expected = if pos < 200 {
                    if pos % 2 == 1 { "minecraft:gold_block" } else { "minecraft:air" }
                } else if pos % 2 == 0 {
                    "minecraft:stone"
                } else {
                    "minecraft:air"
                };
                assert_eq!(bs.block(x, y, z).name(), expected);
                assert!(bs.block(x, y, z).properties.is_none());
            }
        }
    }
}

#[test]
fn convert_section_with_add_single_name() {
    let map: ConversionMap<String> = ConversionMap::new();
    let old = old_section(&|i| i as i8, Some(vec![0; 2048]));
    let new = Section::convert_old(&old, &map);
    let bs = new.block_states().unwrap();
    assert!(bs.data().is_none());
    assert_eq!(bs.palette().len(), 1);
    assert_eq!(bs.block(3, 4, 5).name(), "minecraft:air");
}
