use convert_world::region::{
    check_coords, header_entry, header_pos, local_coord, pad_len, unstable_div_ceil, ChunkLocation,
    ChunkMeta, CompressionScheme, Region, RegionError, SectorTable,
};

#[test]
fn div_ceil_values() {
    assert_eq!(unstable_div_ceil(0, 4096), 0);
    assert_eq!(unstable_div_ceil(1, 4096), 1);
    assert_eq!(unstable_div_ceil(4096, 4096), 1);
    assert_eq!(unstable_div_ceil(4097, 4096), 2);
    assert_eq!(unstable_div_ceil(10, 3), 4);
}

#[test]
fn header_positions() {
    assert_eq!(header_pos(0, 0), 0);
    assert_eq!(header_pos(1, 0), 4);
    assert_eq!(header_pos(0, 1), 128);
    assert_eq!(header_pos(31, 31), 4092);
    assert_eq!(header_pos(33, 32), 4);
}

#[test]
fn coordinates_checked() {
    assert!(check_coords(31, 0).is_ok());
    assert!(matches!(check_coords(32, 5), Err(RegionError::InvalidOffset(32, 5))));
    assert!(matches!(check_coords(1, 40), Err(RegionError::InvalidOffset(1, 40))));
}

#[test]
fn header_entries_read() {
    let loc = ChunkLocation::from_header([0x01, 0x02, 0x03, 0x04]).unwrap();
    assert_eq!(loc.offset, 0x010203);
    assert_eq!(loc.sectors, 4);
    assert!(ChunkLocation::from_header([0, 0, 0, 0]).is_none());
    let only_count = ChunkLocation::from_header([0, 0, 0, 1]).unwrap();
    assert_eq!(only_count.offset, 0);
}

#[test]
fn header_entries_written() {
    assert_eq!(header_entry(0x01_0203, 4).unwrap(), [1, 2, 3, 4]);
    assert_eq!(header_entry(0xFF_01_0203, 255).unwrap(), [1, 2, 3, 255]);
    assert!(matches!(header_entry(2, 256), Err(RegionError::ChunkTooLarge)));
    // what is written reads back
    let buf = header_entry(0x00_1234, 9).unwrap();
    let loc = ChunkLocation::from_header(buf).unwrap();
    assert_eq!((loc.offset, loc.sectors), (0x1234, 9));
    // an offset beyond 24 bits keeps its low bits; all zeros read back as absent
    let high = header_entry(0x0100_0005, 1).unwrap();
    assert_eq!(ChunkLocation::from_header(high).map(|l| (l.offset, l.sectors)), Some((5, 1)));
    assert!(ChunkLocation::from_header(header_entry(0x0100_0000, 0).unwrap()).is_none());
}

#[test]
fn padding() {
    assert_eq!(pad_len(0), 0);
    assert_eq!(pad_len(1), 4095);
    assert_eq!(pad_len(4096), 0);
    assert_eq!(pad_len(8192 + 5), 4091);
}

#[test]
fn chunk_meta_read() {
    let meta = ChunkMeta::new(&[0, 0, 1, 0, 2]).unwrap();
    assert_eq!(meta.compressed_len, 255);
    assert_eq!(meta.compression_scheme, CompressionScheme::Zlib);
    let gz = ChunkMeta::new(&[0, 0, 0, 1, 1, 99]).unwrap();
    assert_eq!((gz.compressed_len, gz.compression_scheme), (0, CompressionScheme::Gzip));
    assert!(matches!(ChunkMeta::new(&[0, 0, 0, 9, 7]), Err(RegionError::UnknownCompression(7))));
    assert!(matches!(ChunkMeta::new(&[0, 0, 0, 9]), Err(RegionError::IO(_))));
    assert!(matches!(ChunkMeta::new(&[0, 0]), Err(RegionError::IO(_))));
}

#[test]
fn chunk_meta_written() {
    assert_eq!(ChunkMeta::to_bytes(255, CompressionScheme::Zlib), [0, 0, 1, 0, 2]);
    assert_eq!(ChunkMeta::to_bytes(0x01020304, CompressionScheme::Uncompressed), [1, 2, 3, 5, 3]);
    let bytes = ChunkMeta::to_bytes(1000, CompressionScheme::Gzip);
    let meta = ChunkMeta::new(&bytes).unwrap();
    assert_eq!((meta.compressed_len, meta.compression_scheme), (1000, CompressionScheme::Gzip));
}

#[test]
fn schemes_numbered() {
    assert_eq!(CompressionScheme::try_from_primitive(3), Ok(CompressionScheme::Uncompressed));
    assert_eq!(CompressionScheme::try_from_primitive(0), Err(0));
    assert_eq!(CompressionScheme::Gzip.to_primitive(), 1);
}

#[test]
fn local_coordinates() {
    assert_eq!(local_coord(0), 0);
    assert_eq!(local_coord(33), 1);
    assert_eq!(local_coord(-1), 31);
    assert_eq!(local_coord(-32), 0);
    assert_eq!(local_coord(i32::MIN), 0);
}

fn locs(entries: &[(usize, u64, u64)]) -> Vec<Option<ChunkLocation>> {
    let mut v: Vec<Option<ChunkLocation>> = (0..1024).map(|_| None).collect();
    for &(i, offset, sectors) in entries {
        v[i] = Some(ChunkLocation { offset, sectors });
    }
    v
}

#[test]
fn table_from_header() {
    let t = SectorTable::from_locations(&locs(&[(5, 9, 2), (0, 2, 3), (7, 5, 4)]));
    assert_eq!(t.offsets(), &vec![2, 5, 9, 11]);
    let empty = SectorTable::from_locations(&locs(&[]));
    assert_eq!(empty.offsets(), &vec![0]);
    let fresh = SectorTable::fresh();
    assert_eq!(fresh.offsets(), &vec![2]);
}

#[test]
fn write_plans() {
    let mut t = SectorTable::from_locations(&locs(&[(0, 2, 1), (1, 3, 2)]));
    assert_eq!(t.offsets(), &vec![2, 3, 5]);
    assert!(t.has_slot(2));
    assert!(t.has_slot(3));
    assert!(!t.has_slot(5));
    assert!(!t.has_slot(4));
    // a small chunk fits in place
    let p = t.plan_write(Some(ChunkLocation { offset: 3, sectors: 2 }), 5000);
    assert_eq!((p.offset, p.sectors, p.pad), (3, 2, false));
    assert_eq!(t.offsets(), &vec![2, 3, 5]);
    // a bigger one moves to the end
    let p = t.plan_write(Some(ChunkLocation { offset: 2, sectors: 1 }), 4092);
    assert_eq!((p.offset, p.sectors, p.pad), (5, 2, true));
    assert_eq!(t.offsets(), &vec![3, 5, 7]);
    // a new chunk goes to the end
    let p = t.plan_write(None, 0);
    assert_eq!((p.offset, p.sectors, p.pad), (7, 1, true));
    assert_eq!(t.offsets(), &vec![3, 5, 7, 8]);
}

#[test]
fn region_holds_stream() {
    let r = Region::fresh(vec![1u8, 2, 3]);
    assert_eq!(r.table.offsets(), &vec![2]);
    assert_eq!(r.inner(), vec![1, 2, 3]);
    let r2 = Region::from_locations(5u32, &locs(&[(3, 4, 1)]));
    assert_eq!(r2.table.offsets(), &vec![4, 5]);
    assert_eq!(r2.stream, 5);
}

#[test]
fn region_clone_is_independent() {
    let mut r = Region::from_locations(vec![9u8], &locs(&[(0, 2, 1)]));
    let copy = r.clone();
    let p = r.table.plan_write(None, 10);
    assert_eq!((p.offset, p.sectors, p.pad), (3, 1, true));
    assert_eq!(r.table.offsets(), &vec![2, 3, 4]);
    assert_eq!(copy.table.offsets(), &vec![2, 3]);
    assert_eq!(copy.stream, vec![9]);
}

#[test]
fn writes_from_scratch_keep_the_layout() {
    let mut t = SectorTable::fresh();
    let mut placed: Vec<(u64, usize)> = Vec::new();
    for (i, len) in [10usize, 5000, 9000, 100, 20000].iter().enumerate() {
        assert!(t.can_plan_write(&None, *len));
        let p = t.plan_write(None, *len);
        assert_eq!(p.offset, *t.offsets().get(i).unwrap());
        placed.push((p.offset, p.sectors));
    }
    // rewrite the second chunk bigger: it moves to the end
    assert!(t.can_plan_write(&Some(ChunkLocation { offset: placed[1].0, sectors: 2 }), 12000));
    let p = t.plan_write(Some(ChunkLocation { offset: placed[1].0, sectors: 2 }), 12000);
    assert!(p.pad);
    let offs = t.offsets().clone();
    assert!(offs[0] >= 2);
    assert!(offs.windows(2).all(|w| w[0] < w[1]));
    // the other chunks still lie in their own allocations, away from the new one
    for (i, &(o, n)) in placed.iter().enumerate() {
        if i == 1 {
            continue;
        }
        let j = offs.iter().position(|&x| x == o).unwrap();
        assert!(o + n as u64 <= offs[j + 1]);
        assert!(o + n as u64 <= p.offset || p.offset + p.sectors as u64 <= o);
    }
}

#[test]
fn plan_write_checked() {
    let t = SectorTable::from_locations(&locs(&[(0, 2, 1), (1, 3, 2)]));
    assert!(t.can_plan_write(&Some(ChunkLocation { offset: 3, sectors: 2 }), 100));
    assert!(!t.can_plan_write(&Some(ChunkLocation { offset: 4, sectors: 1 }), 100));
    assert!(!t.can_plan_write(&Some(ChunkLocation { offset: 5, sectors: 1 }), 100));
    assert!(t.can_plan_write(&None, 100));
    assert!(!t.can_plan_write(&None, usize::MAX - 2));
}

fn put(file: &mut Vec<u8>, at: usize, bytes: &[u8]) {
    if file.len() < at + bytes.len() {
        file.resize(at + bytes.len(), 0);
    }
    file[at..at + bytes.len()].copy_from_slice(bytes);
}

/// Writes a chunk into an in-memory region file, as the program does through a stream.
fn write_chunk(file: &mut Vec<u8>, t: &mut SectorTable, x: usize, z: usize, data: &[u8]) {
    let hp = header_pos(x, z) as usize;
    let loc = ChunkLocation::from_header([file[hp], file[hp + 1], file[hp + 2], file[hp + 3]]);
    assert!(t.can_plan_write(&loc, data.len()));
    let plan = t.plan_write(loc, data.len());
    let p = plan.offset as usize * 4096;
    put(file, p, &ChunkMeta::to_bytes(data.len() as u32, CompressionScheme::Uncompressed));
    put(file, p + 5, data);
    if plan.pad {
        let end = file.len();
        file.resize(end + pad_len(end), 0);
    }
    put(file, hp, &header_entry(plan.offset, plan.sectors).unwrap());
}

fn read_chunk(file: &[u8], x: usize, z: usize) -> Option<Vec<u8>> {
    let hp = header_pos(x, z) as usize;
    let loc = ChunkLocation::from_header([file[hp], file[hp + 1], file[hp + 2], file[hp + 3]])?;
    let p = loc.offset as usize * 4096;
    let meta = ChunkMeta::new(&file[p..p + 5]).unwrap();
    Some(file[p + 5..p + 5 + meta.compressed_len as usize].to_vec())
}

#[test]
fn region_writes_read_back() {
    let mut file = vec![0u8; 8192];
    let mut t = SectorTable::fresh();
    let a: Vec<u8> = (0..5000).map(|i| (i % 251) as u8).collect();
    let b: Vec<u8> = vec![7; 10];
    let c: Vec<u8> = (0..9000).map(|i| (i % 13) as u8).collect();
    write_chunk(&mut file, &mut t, 0, 0, &a);
    write_chunk(&mut file, &mut t, 5, 3, &b);
    write_chunk(&mut file, &mut t, 31, 31, &c);
    assert_eq!(file.len(), *t.offsets().last().unwrap() as usize * 4096);
    // grow the first chunk: it moves, the others stay readable
    let a2: Vec<u8> = vec![1; 20000];
    write_chunk(&mut file, &mut t, 0, 0, &a2);
    // shrink the second: it stays in place
    write_chunk(&mut file, &mut t, 5, 3, &[9, 9]);
    assert_eq!(read_chunk(&file, 0, 0), Some(a2));
    assert_eq!(read_chunk(&file, 5, 3), Some(vec![9, 9]));
    assert_eq!(read_chunk(&file, 31, 31), Some(c));
    assert_eq!(read_chunk(&file, 1, 0), None);
    assert_eq!(file.len(), *t.offsets().last().unwrap() as usize * 4096);
    assert!(t.offsets().windows(2).all(|w| w[0] < w[1]));
}
