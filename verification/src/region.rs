//! The bookkeeping of Anvil region files: the header that locates each of the 32x32 chunks,
//! the 5-byte header in front of each chunk, and the allocation of sectors to chunks. The
//! reads and writes themselves are left to the caller, which hands the library what it read
//! and carries out what the library decides.

use vstd::prelude::*;
use vstd::seq_lib::group_to_multiset_ensures;
use byteorder::{BigEndian, ReadBytesExt, WriteBytesExt};

verus! {

broadcast use group_to_multiset_ensures;

/// Bytes in a sector of a region file.
pub const SECTOR_SIZE: usize = 4096;

/// Bytes in the header of a region file: one sector of locations, one of timestamps.
pub const REGION_HEADER_SIZE: usize = 2 * SECTOR_SIZE;

/// Bytes in the header in front of each chunk: its length and its compression scheme.
pub const CHUNK_HEADER_SIZE: usize = 5;

/// `std::io::Error`, which the byte readers report.
#[verifier::external_type_specification]
#[verifier::external_body]
pub struct ExIoError(std::io::Error);

/// The errors of region bookkeeping, as `fastanvil::Error` has them.
#[derive(Debug)]
pub enum RegionError {
    IO(std::io::Error),
    InvalidOffset(isize, isize),
    UnknownCompression(u8),
    ChunkTooLarge,
}

/// The compression schemes of chunks, numbered 1, 2 and 3 in the chunk header.
#[derive(Debug, Clone, Copy, PartialEq, Eq, Structural)]
pub enum CompressionScheme {
    Gzip,
    Zlib,
    Uncompressed,
}

/// The number that the chunk header stores for a scheme.
pub open spec fn scheme_number(s: CompressionScheme) -> u8 {
    match s {
        CompressionScheme::Gzip => 1,
        CompressionScheme::Zlib => 2,
        CompressionScheme::Uncompressed => 3,
    }
}

/// The scheme a number in the chunk header stands for, if any.
pub open spec fn scheme_of(b: u8) -> Option<CompressionScheme> {
    if b == 1 {
        Some(CompressionScheme::Gzip)
    } else if b == 2 {
        Some(CompressionScheme::Zlib)
    } else if b == 3 {
        Some(CompressionScheme::Uncompressed)
    } else {
        None
    }
}

impl CompressionScheme {
    /// The scheme that a number stands for, or the number back when it stands for none.
    pub fn try_from_primitive(number: u8) -> (r: Result<Self, u8>)
        ensures
            r == (match scheme_of(number) {
                Some(s) => Ok(s),
                None => Err(number),
            }),
    {
        if number == 1 {
            Ok(CompressionScheme::Gzip)
        } else if number == 2 {
            Ok(CompressionScheme::Zlib)
        } else if number == 3 {
            Ok(CompressionScheme::Uncompressed)
        } else {
            Err(number)
        }
    }

    /// The number that the chunk header stores for this scheme.
    pub fn to_primitive(&self) -> (r: u8)
        ensures
            r == scheme_number(*self),
    {
        match self {
            CompressionScheme::Gzip => 1,
            CompressionScheme::Zlib => 2,
            CompressionScheme::Uncompressed => 3,
        }
    }
}

/// `TryFrom<u8>` of `fastanvil::CompressionScheme` (derived by `num_enum`: 1 is Gzip, 2 Zlib,
/// 3 Uncompressed, anything else an error holding the number). Claimed: exactly that, with
/// the variant carried over to the library's scheme and the error to its number.
#[verifier::external_body]
fn fastanvil_scheme(b: u8) -> (r: Result<CompressionScheme, u8>)
    ensures
        r == (match scheme_of(b) {
            Some(s) => Ok(s),
            None => Err(b),
        }),
{
    match fastanvil::CompressionScheme::try_from(b) {
        Ok(fastanvil::CompressionScheme::Gzip) => Ok(CompressionScheme::Gzip),
        Ok(fastanvil::CompressionScheme::Zlib) => Ok(CompressionScheme::Zlib),
        Ok(fastanvil::CompressionScheme::Uncompressed) => Ok(CompressionScheme::Uncompressed),
        Err(e) => Err(e.number),
    }
}

/// The big-endian value of the first four bytes of `s`.
pub open spec fn be_u32(s: Seq<u8>) -> int {
    s[0] as int * 0x1000000 + s[1] as int * 0x10000 + s[2] as int * 0x100 + s[3] as int
}

/// The four big-endian bytes of `v`.
pub open spec fn be_bytes(v: u32) -> Seq<u8> {
    seq![(v / 0x1000000) as u8, ((v / 0x10000) % 0x100) as u8, ((v / 0x100) % 0x100) as u8, (v % 0x100) as u8]
}

/// `ReadBytesExt::read_u32::<BigEndian>` of `byteorder` on a byte slice. Claimed: it succeeds
/// exactly when the slice has four bytes, with their big-endian value; otherwise the read
/// fails with an I/O error (the slice's `read_exact` reports the end of the data).
#[verifier::external_body]
fn read_u32_be(data: &[u8]) -> (r: Result<u32, std::io::Error>)
    ensures
        r is Ok <==> data.len() >= 4,
        r matches Ok(v) ==> v == be_u32(data@),
{
    let mut d = data;
    ReadBytesExt::read_u32::<BigEndian>(&mut d)
}

/// `ReadBytesExt::read_u8` of `byteorder` on a byte slice. Claimed: it succeeds exactly when
/// the slice has a byte, with that byte; otherwise it fails with an I/O error.
#[verifier::external_body]
fn read_u8(data: &[u8]) -> (r: Result<u8, std::io::Error>)
    ensures
        r is Ok <==> data.len() >= 1,
        r matches Ok(v) ==> v == data@[0],
{
    let mut d = data;
    ReadBytesExt::read_u8(&mut d)
}

/// `WriteBytesExt::write_u32::<BigEndian>` of `byteorder` into a `Vec<u8>`. Claimed: it
/// appends the four big-endian bytes of `v` and succeeds (writing into a vector only extends
/// it).
#[verifier::external_body]
fn write_u32_be(out: &mut Vec<u8>, v: u32) -> (r: Result<(), std::io::Error>)
    ensures
        r is Ok,
        final(out)@ == old(out)@ + be_bytes(v),
{
    WriteBytesExt::write_u32::<BigEndian>(out, v)
}

/// `WriteBytesExt::write_u8` of `byteorder` into a `Vec<u8>`. Claimed: it appends `v` and
/// succeeds.
#[verifier::external_body]
fn write_u8(out: &mut Vec<u8>, v: u8) -> (r: Result<(), std::io::Error>)
    ensures
        r is Ok,
        final(out)@ == old(out)@.push(v),
{
    WriteBytesExt::write_u8(out, v)
}

/// `lhs / rhs`, rounded up.
pub fn unstable_div_ceil(lhs: usize, rhs: usize) -> (r: usize)
    requires
        rhs > 0,
    ensures
        r == lhs / rhs + (if lhs % rhs > 0 { 1int } else { 0int }),
{
    let d = lhs / rhs;
    let r = lhs % rhs;
    if r > 0 && rhs > 0 {
        assert(d < usize::MAX) by (nonlinear_arith)
            requires
                d == lhs / rhs,
                r == lhs % rhs,
                r > 0,
                rhs > 0,
                lhs <= usize::MAX,
        ;
        d + 1
    } else {
        d
    }
}

/// Where the location of chunk `(x, z)` sits in the region header (coordinates taken modulo
/// 32).
pub fn header_pos(x: usize, z: usize) -> (r: u64)
    ensures
        r == 4 * ((x % 32) + (z % 32) * 32),
{
    (4 * ((x % 32) + (z % 32) * 32)) as u64
}

/// Law: the header entries of two different chunks of a region never overlap: their 4-byte
/// slots start at least 4 bytes apart, and all lie within the first sector.
pub proof fn lemma_header_entries_disjoint(x: usize, z: usize, x2: usize, z2: usize)
    requires
        x < 32,
        z < 32,
        x2 < 32,
        z2 < 32,
        x != x2 || z != z2,
    ensures
        4 * ((x % 32) + (z % 32) * 32) + 4 <= 4 * ((x2 % 32) + (z2 % 32) * 32) || 4 * ((x2 % 32) + (
        z2 % 32) * 32) + 4 <= 4 * ((x % 32) + (z % 32) * 32),
        4 * ((x % 32) + (z % 32) * 32) + 4 <= 4096,
{
}

/// The chunk coordinates that a region file accepts: both below 32.
pub fn check_coords(x: usize, z: usize) -> (r: Result<(), RegionError>)
    ensures
        r is Ok <==> x < 32 && z < 32,
        r matches Err(e) ==> e matches RegionError::InvalidOffset(a, b) && a == x as isize && b
            == z as isize,
{
    if x >= 32 || z >= 32 {
        return Err(RegionError::InvalidOffset(x as isize, z as isize));
    }
    Ok(())
}

/// Where a chunk sits in a region file: its first sector and its number of sectors.
#[derive(Debug)]
pub struct ChunkLocation {
    pub offset: u64,
    pub sectors: u64,
}

/// The offset and sector count that a region-header entry records: a 3-byte big-endian
/// sector offset, then the count; none for an entry of zeros (an absent chunk).
pub open spec fn location_of(b: Seq<u8>) -> Option<(u64, u64)> {
    if b[0] == 0 && b[1] == 0 && b[2] == 0 && b[3] == 0 {
        None
    } else {
        Some(((b[0] as int * 0x10000 + b[1] as int * 0x100 + b[2] as int) as u64, b[3] as u64))
    }
}

/// The region-header entry for a chunk at `offset` spanning `sectors` sectors: the offset's
/// three low bytes, big-endian, then the count.
pub open spec fn header_bytes(offset: u64, sectors: int) -> Seq<u8> {
    seq![
        ((offset / 0x10000) % 0x100) as u8,
        ((offset / 0x100) % 0x100) as u8,
        (offset % 0x100) as u8,
        sectors as u8,
    ]
}

impl ChunkLocation {
    /// Reads an entry of the region header: a 3-byte big-endian sector offset and a sector
    /// count; an entry of zeros means that the chunk is absent.
    pub fn from_header(buf: [u8; 4]) -> (r: Option<ChunkLocation>)
        ensures
            r is Some <==> location_of(buf@) is Some,
            r matches Some(loc) ==> location_of(buf@) == Some((loc.offset, loc.sectors)),
    {
        let mut offset = 0u64;
        offset |= (buf[0] as u64) << 16;
        offset |= (buf[1] as u64) << 8;
        offset |= buf[2] as u64;
        let sectors = buf[3] as u64;
        let (b0, b1, b2) = (buf[0], buf[1], buf[2]);
        assert(((0u64 | (b0 as u64) << 16u64) | (b1 as u64) << 8u64) | (b2 as u64) == b0 as u64
            * 0x10000 + b1 as u64 * 0x100 + b2 as u64) by (bit_vector);
        if offset != 0 || sectors != 0 {
            Some(ChunkLocation { offset, sectors })
        } else {
            None
        }
    }
}

/// The header entry that records a chunk at `offset` spanning `new_sector_count` sectors:
/// the offset's three low bytes, big-endian, then the count; a count above 255 cannot be
/// recorded.
pub fn header_entry(offset: u64, new_sector_count: usize) -> (r: Result<[u8; 4], RegionError>)
    ensures
        new_sector_count > 255 <==> r is Err,
        r matches Err(e) ==> e is ChunkTooLarge,
        r matches Ok(buf) ==> buf@ == header_bytes(offset, new_sector_count as int),
{
    if new_sector_count > 255 {
        return Err(RegionError::ChunkTooLarge);
    }
    let mut buf = [0u8; 4];
    assert(((offset & 0xFF0000) >> 16u64) as u8 == (offset / 0x10000) % 0x100 && ((offset
        & 0x00FF00) >> 8u64) as u8 == (offset / 0x100) % 0x100 && (offset & 0x0000FF) as u8
        == offset % 0x100) by (bit_vector);
    buf[0] = ((offset & 0xFF0000) >> 16) as u8;
    buf[1] = (((offset & 0x00FF00) >> 8) as u8);
    buf[2] = ((offset & 0x0000FF) as u8);
    buf[3] = (new_sector_count as u8);
    assert(buf@ =~= header_bytes(offset, new_sector_count as int));
    Ok(buf)
}

/// Law (a read gives back a write): the entry that `header_entry` writes reads back, with
/// `ChunkLocation::from_header`, as the low 24 bits of the offset and the sector count; an
/// entry whose offset bits and count are all zero reads back as an absent chunk.
pub proof fn lemma_header_roundtrip(offset: u64, sectors: u8)
    ensures
        location_of(header_bytes(offset, sectors as int)) == (if offset % 0x1000000 == 0 && sectors
            == 0 {
            None
        } else {
            Some(((offset % 0x1000000) as u64, sectors as u64))
        }),
{
    let b = header_bytes(offset, sectors as int);
    assert(((offset / 0x10000) % 0x100) * 0x10000 + ((offset / 0x100) % 0x100) * 0x100 + offset
        % 0x100 == offset % 0x1000000) by (nonlinear_arith);
    assert(b[0] == (offset / 0x10000) % 0x100 && b[1] == (offset / 0x100) % 0x100 && b[2] == offset
        % 0x100);
    assert(offset % 0x1000000 == 0 <==> (b[0] == 0 && b[1] == 0 && b[2] == 0)) by (nonlinear_arith)
        requires
            b[0] == (offset / 0x10000) % 0x100,
            b[1] == (offset / 0x100) % 0x100,
            b[2] == offset % 0x100,
            b[0] * 0x10000 + b[1] * 0x100 + b[2] == offset % 0x1000000,
    ;
}

/// How many zero bytes make a stream of `current_end` bytes a whole number of sectors.
pub fn pad_len(current_end: usize) -> (r: usize)
    requires
        current_end / SECTOR_SIZE + 1 <= usize::MAX / SECTOR_SIZE,
    ensures
        r == (current_end / 4096 + (if current_end % 4096 > 0 { 1int } else { 0int })) * 4096
            - current_end,
        r < 4096,
        (current_end + r) % 4096 == 0,
{
    let sectors = unstable_div_ceil(current_end, SECTOR_SIZE);
    let padded_end = sectors * SECTOR_SIZE;
    padded_end - current_end
}

/// The 5-byte header in front of a chunk: its length and scheme, as a region file stores
/// them.
#[derive(Debug)]
pub struct ChunkMeta {
    pub compressed_len: u32,
    pub compression_scheme: CompressionScheme,
}

impl ChunkMeta {
    /// Reads a chunk header: a big-endian length that counts the scheme byte too, then the
    /// scheme's number.
    pub fn new(data: &[u8]) -> (r: Result<Self, RegionError>)
        requires
            data.len() >= 5 && scheme_of(data@[4]) is Some ==> be_u32(data@) != 0,
        ensures
            data.len() < 5 <==> r matches Err(RegionError::IO(_)),
            data.len() >= 5 && scheme_of(data@[4]) is None <==> r matches Err(
                RegionError::UnknownCompression(_),
            ),
            r matches Err(RegionError::UnknownCompression(b)) ==> b == data@[4],
            r is Err ==> r matches Err(RegionError::IO(_)) || r matches Err(
                RegionError::UnknownCompression(_),
            ),
            r matches Ok(meta) ==> data.len() >= 5 && meta.compressed_len == be_u32(data@) - 1
                && scheme_of(data@[4]) == Some(meta.compression_scheme),
    {
        let len = match read_u32_be(data) {
            Ok(v) => v,
            Err(e) => return Err(RegionError::IO(e)),
        };
        let rest = vstd::slice::slice_subrange(data, 4, data.len());
        let scheme = match read_u8(rest) {
            Ok(v) => v,
            Err(e) => return Err(RegionError::IO(e)),
        };
        let scheme = match fastanvil_scheme(scheme) {
            Ok(s) => s,
            Err(_) => return Err(RegionError::UnknownCompression(scheme)),
        };
        Ok(Self { compressed_len: len - 1, compression_scheme: scheme })
    }

    /// Writes a chunk header for a chunk of `compressed_chunk_size` bytes: the length plus one
    /// for the scheme byte, big-endian, then the scheme's number.
    pub fn to_bytes(compressed_chunk_size: u32, scheme: CompressionScheme) -> (r: [u8; 5])
        requires
            compressed_chunk_size < u32::MAX,
        ensures
            r@ == be_bytes((compressed_chunk_size + 1) as u32).push(scheme_number(scheme)),
    {
        let mut out: Vec<u8> = Vec::new();
        let _ = write_u32_be(&mut out, compressed_chunk_size + 1);
        let _ = write_u8(
            &mut out,
            match scheme {
                CompressionScheme::Gzip => 1,
                CompressionScheme::Zlib => 2,
                CompressionScheme::Uncompressed => 3,
            },
        );
        let buf = [out[0], out[1], out[2], out[3], out[4]];
        assert(buf@ =~= out@);
        buf
    }
}

/// Law (a read gives back a write): the chunk header that `ChunkMeta::to_bytes` writes for a
/// chunk of `len` bytes holds five bytes and reads back, with `ChunkMeta::new`, as that length
/// and scheme (the stored length is one more than `len`, so it is never zero).
pub proof fn lemma_chunk_meta_roundtrip(len: u32, scheme: CompressionScheme)
    requires
        len < u32::MAX,
    ensures
        ({
            let b = be_bytes((len + 1) as u32).push(scheme_number(scheme));
            &&& b.len() == 5
            &&& be_u32(b) == len + 1
            &&& scheme_of(b[4]) == Some(scheme)
        }),
{
    let v = (len + 1) as u32;
    let b = be_bytes(v).push(scheme_number(scheme));
    assert(b[0] == v / 0x1000000 && b[1] == (v / 0x10000) % 0x100 && b[2] == (v / 0x100) % 0x100
        && b[3] == v % 0x100);
    assert((v / 0x1000000) * 0x1000000 + ((v / 0x10000) % 0x100) * 0x10000 + ((v / 0x100) % 0x100)
        * 0x100 + v % 0x100 == v) by (nonlinear_arith);
}

/// The position, in a region of 32x32 chunks, of a chunk whose world coordinate is `pos`: the
/// coordinate, as an unsigned number, modulo 32.
pub fn local_coord(pos: i32) -> (r: usize)
    ensures
        r as int == pos % 32,
{
    let u = pos as usize;
    assert((pos as usize) % 32 == pos % 32) by (bit_vector);
    u % 32
}

/// A chunk read from a region file, with its position in the region.
pub struct ChunkData {
    pub x: usize,
    pub z: usize,
    pub data: Vec<u8>,
}

/// The sequence is in ascending order.
pub open spec fn sorted(s: Seq<u64>) -> bool {
    forall|i: int, j: int| 0 <= i <= j < s.len() ==> s[i] <= s[j]
}

/// `<[u64]>::sort_unstable` of std. Claimed, as its documentation says: the slice ends up in
/// ascending order, holding the same values as before.
#[verifier::external_body]
fn sort_offsets(v: &mut Vec<u64>)
    ensures
        sorted(final(v)@),
        final(v)@.to_multiset() == old(v)@.to_multiset(),
{
    v.sort_unstable();
}

/// `<[u64]>::binary_search` of std. Claimed, as its documentation says, for a slice in
/// ascending order: `Ok(i)` with `i` a position of `x` (which one, among equal values, is left
/// open) when `x` occurs, and `Err(_)` when it does not.
#[verifier::external_body]
fn binary_search_offsets(v: &Vec<u64>, x: u64) -> (r: Result<usize, usize>)
    ensures
        sorted(v@) ==> (r matches Ok(i) ==> i < v.len() && v@[i as int] == x),
        sorted(v@) ==> (r is Err ==> !v@.contains(x)),
{
    v.binary_search(&x)
}

/// The sector offsets of the chunks present among the first `k` header entries, in order.
pub open spec fn located_offsets(locs: Seq<Option<ChunkLocation>>, k: int) -> Seq<u64>
    decreases k,
{
    if k <= 0 {
        seq![]
    } else {
        let prev = located_offsets(locs, k - 1);
        match locs[k - 1] {
            Some(l) => prev.push(l.offset),
            None => prev,
        }
    }
}

/// The offset and sector count of the first chunk with the greatest offset among the first
/// `k` header entries; `(0, 0)` when none lies beyond sector 0.
pub open spec fn farthest(locs: Seq<Option<ChunkLocation>>, k: int) -> (u64, u64)
    decreases k,
{
    if k <= 0 {
        (0, 0)
    } else {
        let prev = farthest(locs, k - 1);
        match locs[k - 1] {
            Some(l) => if l.offset > prev.0 {
                (l.offset, l.sectors)
            } else {
                prev
            },
            None => prev,
        }
    }
}

proof fn lemma_farthest_bounds(locs: Seq<Option<ChunkLocation>>, k: int)
    requires
        0 <= k <= locs.len(),
    ensures
        forall|j: int|
            0 <= j < located_offsets(locs, k).len() ==> #[trigger] located_offsets(locs, k)[j]
                <= farthest(locs, k).0,
    decreases k,
{
    if k > 0 {
        lemma_farthest_bounds(locs, k - 1);
        let prev = located_offsets(locs, k - 1);
        let cur = located_offsets(locs, k);
        assert(farthest(locs, k).0 >= farthest(locs, k - 1).0);
        assert forall|j: int| 0 <= j < cur.len() implies #[trigger] cur[j] <= farthest(locs, k).0 by {
            if j < prev.len() {
                assert(cur[j] == prev[j]);
            }
        }
    }
}

/// What `Region::plan_write` decides for a chunk that needs `sectors` sectors: the sector to
/// write it at, how many sectors the header records, and whether the file must then be padded
/// to a whole number of sectors.
#[derive(Debug)]
pub struct WritePlan {
    pub offset: u64,
    pub sectors: usize,
    pub pad: bool,
}

/// Sectors that a chunk of `len` compressed bytes takes with its 5-byte header.
pub open spec fn required_sectors(len: int) -> int {
    (len + 5) / 4096 + (if (len + 5) % 4096 > 0 { 1int } else { 0int })
}

/// The free-sector bookkeeping after placing a chunk of `required` sectors, and the plan:
/// where the chunk was (`slot`, an index of `offsets`) and it still fits before the next
/// offset, in place; otherwise its old slot is dropped and it goes to the end of the file,
/// which then has to be padded.
pub open spec fn planned(offsets: Seq<u64>, slot: Option<int>, required: int) -> (Seq<u64>, WritePlan) {
    match slot {
        Some(i) => if required <= ((offsets[i + 1] - offsets[i]) as usize) {
            (offsets, WritePlan { offset: offsets[i], sectors: required as usize, pad: false })
        } else {
            let rest = offsets.remove(i);
            (
                rest.push((rest.last() + required) as u64),
                WritePlan { offset: rest.last(), sectors: required as usize, pad: true },
            )
        },
        None => (
            offsets.push((offsets.last() + required) as u64),
            WritePlan { offset: offsets.last(), sectors: required as usize, pad: true },
        ),
    }
}

/// The layout of a region that was written from scratch: every allocation starts after the
/// two header sectors, and the starts are strictly increasing, so that no two allocations
/// overlap.
pub open spec fn layout_ok(offsets: Seq<u64>) -> bool {
    &&& offsets.len() >= 1
    &&& offsets[0] >= 2
    &&& forall|i: int, j: int| 0 <= i < j < offsets.len() ==> offsets[i] < offsets[j]
}

/// The sectors that `plan` writes lie in allocation `j` of `offsets` (from `offsets[j]` up to
/// `offsets[j + 1]`), and so in no other allocation.
pub open spec fn plan_in_slot(offsets: Seq<u64>, plan: WritePlan, j: int) -> bool {
    &&& 0 <= j < offsets.len() - 1
    &&& plan.offset == offsets[j]
    &&& plan.offset + plan.sectors <= offsets[j + 1]
    &&& forall|k: int|
        0 <= k < offsets.len() - 1 && k != j ==> #[trigger] offsets[k + 1] <= plan.offset || plan.offset
            + plan.sectors <= offsets[k]
}

/// Law: a planned write keeps the layout of a region written from scratch, and the chunk it
/// places occupies exactly one allocation of the new table: its old one when it stays in
/// place, the last one when it moves or is new. So a write never touches the sectors of
/// another chunk, nor the header.
pub proof fn lemma_plan_keeps_layout(offsets: Seq<u64>, slot: Option<int>, required: int)
    requires
        layout_ok(offsets),
        required >= 1,
        slot matches Some(i) ==> 0 <= i && i + 1 < offsets.len(),
        slot is None || required > ((offsets[slot->0 + 1] - offsets[slot->0]) as usize)
            ==> offsets.last() + required <= u64::MAX,
    ensures
        ({
            let (t, plan) = planned(offsets, slot, required);
            &&& layout_ok(t)
            &&& plan_in_slot(t, plan, match slot {
                Some(i) => if t == offsets {
                    i
                } else {
                    t.len() - 2
                },
                None => t.len() - 2,
            })
        }),
{
    let (t, plan) = planned(offsets, slot, required);
    match slot {
        Some(i) => {
            if required <= ((offsets[i + 1] - offsets[i]) as usize) {
                assert(t == offsets);
                assert forall|k: int| 0 <= k < t.len() - 1 && k != i implies #[trigger] t[k + 1]
                    <= plan.offset || plan.offset + plan.sectors <= t[k] by {
                    if k < i {
                        assert(t[k + 1] <= t[i]);
                    } else {
                        assert(t[i + 1] <= t[k]);
                    }
                }
            } else {
                let rest = offsets.remove(i);
                assert(rest.len() >= 1);
                assert forall|a: int, b: int| 0 <= a < b < rest.len() implies rest[a] < rest[b] by {
                    let oa = if a < i { a } else { a + 1 };
                    let ob = if b < i { b } else { b + 1 };
                    assert(rest[a] == offsets[oa] && rest[b] == offsets[ob]);
                }
                assert(rest.last() == offsets.last());
                assert(rest[0] >= 2) by {
                    if i == 0 {
                        assert(rest[0] == offsets[1]);
                    } else {
                        assert(rest[0] == offsets[0]);
                    }
                }
                assert(t != offsets) by {
                    assert(t.len() == offsets.len());
                    if t == offsets {
                        assert(t[i] == offsets[i]);
                        assert(t[i] == rest[i]);
                        assert(rest[i] == offsets[i + 1]);
                    }
                }
                assert forall|a: int, b: int| 0 <= a < b < t.len() implies t[a] < t[b] by {
                    if b < t.len() - 1 {
                        assert(t[a] == rest[a] && t[b] == rest[b]);
                    } else {
                        assert(t[a] == rest[a]);
                        assert(rest[a] <= rest.last());
                    }
                }
                assert forall|k: int| 0 <= k < t.len() - 1 && k != t.len() - 2 implies #[trigger] t[k + 1]
                    <= plan.offset || plan.offset + plan.sectors <= t[k] by {
                    assert(t[k + 1] == rest[k + 1]);
                    assert(rest[k + 1] <= rest.last());
                }
            }
        },
        None => {
            assert forall|a: int, b: int| 0 <= a < b < t.len() implies t[a] < t[b] by {
                if b < t.len() - 1 {
                    assert(t[a] == offsets[a] && t[b] == offsets[b]);
                } else {
                    assert(t[a] == offsets[a]);
                    assert(offsets[a] <= offsets.last());
                }
            }
            assert forall|k: int| 0 <= k < t.len() - 1 && k != t.len() - 2 implies #[trigger] t[k + 1]
                <= plan.offset || plan.offset + plan.sectors <= t[k] by {
                assert(t[k + 1] == offsets[k + 1]);
                assert(offsets[k + 1] <= offsets.last());
            }
        },
    }
}

/// A chunk recorded at `offset` spanning `sectors` sectors lies in one allocation of the table:
/// it starts where the allocation starts and ends before the next one begins.
pub open spec fn entry_fits(offsets: Seq<u64>, offset: u64, sectors: u64) -> bool {
    exists|j: int| 0 <= j < offsets.len() - 1 && offsets[j] == offset && offset + sectors <= #[trigger] offsets[j + 1]
}

/// Law (a write leaves other chunks alone): in a region written from scratch, a chunk recorded
/// elsewhere than the one being written still lies in an allocation of the new table, and the
/// sectors the write uses do not overlap it.
pub proof fn lemma_plan_keeps_entries(offsets: Seq<u64>, slot: Option<int>, required: int, offset: u64, sectors: u64)
    requires
        layout_ok(offsets),
        required >= 1,
        slot matches Some(i) ==> 0 <= i && i + 1 < offsets.len() && offsets[i] != offset,
        slot is None || required > ((offsets[slot->0 + 1] - offsets[slot->0]) as usize)
            ==> offsets.last() + required <= u64::MAX,
        entry_fits(offsets, offset, sectors),
    ensures
        ({
            let (t, plan) = planned(offsets, slot, required);
            &&& entry_fits(t, offset, sectors)
            &&& (offset + sectors <= plan.offset || plan.offset + plan.sectors <= offset)
        }),
{
    let (t, plan) = planned(offsets, slot, required);
    let j = choose|j: int| 0 <= j < offsets.len() - 1 && offsets[j] == offset && offset + sectors <= #[trigger] offsets[j + 1];
    lemma_plan_keeps_layout(offsets, slot, required);
    assert(offsets[j + 1] <= offsets.last());
    match slot {
        Some(i) => {
            assert(j != i);
            if required <= ((offsets[i + 1] - offsets[i]) as usize) {
                assert(t == offsets);
                assert(plan_in_slot(t, plan, i));
                assert(t[j + 1] <= plan.offset || plan.offset + plan.sectors <= t[j]);
                assert(entry_fits(t, offset, sectors));
            } else {
                let rest = offsets.remove(i);
                if j < i {
                    assert(t[j] == offsets[j]);
                    if j + 1 < i {
                        assert(t[j + 1] == offsets[j + 1]);
                    } else {
                        assert(t[j + 1] == offsets[i + 1]);
                        assert(offsets[j + 1] <= offsets[i + 1]);
                    }
                    assert(entry_fits(t, offset, sectors));
                } else {
                    assert(t[j - 1] == offsets[j]);
                    assert(t[j] == offsets[j + 1]);
                    let k = j - 1;
                    assert(0 <= k < t.len() - 1 && t[k] == offset && offset + sectors <= t[k + 1]);
                    assert(entry_fits(t, offset, sectors));
                }
                assert(rest.last() == offsets.last());
            }
        },
        None => {
            assert(t[j] == offsets[j] && t[j + 1] == offsets[j + 1]);
            assert(entry_fits(t, offset, sectors));
        },
    }
}

/// The layout of a region file as its writes leave it: the sector table, the header entry
/// (offset, sector count) of each chunk written, by index `x + 32 * z`, and the file's length
/// in bytes.
pub struct RegionModel {
    pub offsets: Seq<u64>,
    pub entries: Map<int, (u64, u64)>,
    pub end: int,
}

/// A region file just created: its two header sectors of zeros, no chunk, and the table of
/// `SectorTable::fresh`.
pub open spec fn fresh_model() -> RegionModel {
    RegionModel { offsets: seq![2u64], entries: Map::empty(), end: 8192 }
}

/// `e` bytes rounded up to a whole number of sectors (what padding with `pad_len` zeros gives).
pub open spec fn round_up(e: int) -> int {
    (e / 4096 + (if e % 4096 > 0 { 1int } else { 0int })) * 4096
}

/// The allocation of the table where chunk `k` is recorded, if it is.
pub open spec fn slot_of(m: RegionModel, k: int) -> Option<int> {
    if m.entries.contains_key(k) {
        Some(choose|j: int| 0 <= j < m.offsets.len() && m.offsets[j] == m.entries[k].0)
    } else {
        None
    }
}

/// A successful write of chunk `k`, `len` compressed bytes: the table and plan of
/// `SectorTable::plan_write`, the chunk's header entry set to the plan, and the file extended by
/// the chunk's bytes written at the planned sector and, when the plan says so, padded to a whole
/// number of sectors.
pub open spec fn model_write(m: RegionModel, k: int, len: int) -> (RegionModel, WritePlan) {
    let (t, plan) = planned(m.offsets, slot_of(m, k), required_sectors(len));
    let data_end = plan.offset * 4096 + 5 + len;
    let grown = if m.end >= data_end {
        m.end
    } else {
        data_end
    };
    (
        RegionModel {
            offsets: t,
            entries: m.entries.insert(k, (plan.offset, plan.sectors as u64)),
            end: if plan.pad {
                round_up(grown)
            } else {
                grown
            },
        },
        plan,
    )
}

/// The invariant of a region file written from scratch: the table's layout holds; the file
/// ends where the last allocation ends; each chunk's header entry names one allocation of the
/// table, with at least one and at most 255 sectors, all within it; and no two chunks share an
/// allocation.
pub open spec fn model_ok(m: RegionModel) -> bool {
    &&& layout_ok(m.offsets)
    &&& m.end == m.offsets.last() * 4096
    &&& forall|k: int|
        #[trigger] m.entries.contains_key(k) ==> 0 <= k < 1024 && 1 <= m.entries[k].1 <= 255
            && entry_fits(m.offsets, m.entries[k].0, m.entries[k].1)
    &&& forall|k1: int, k2: int|
        #[trigger] m.entries.contains_key(k1) && #[trigger] m.entries.contains_key(k2) && k1 != k2
            ==> m.entries[k1].0 != m.entries[k2].0
}

/// A chunk of `len` bytes and its 5-byte header fit in its sectors, and written at the start of
/// sector `l` and padded, they end where those sectors end.
proof fn lemma_required_sectors(len: int, l: int)
    requires
        len >= 0,
        l >= 0,
    ensures
        required_sectors(len) >= 1,
        len + 5 <= required_sectors(len) * 4096,
        round_up(l * 4096 + 5 + len) == (l + required_sectors(len)) * 4096,
{
    let x = len + 5;
    let q = x / 4096;
    let r = x % 4096;
    assert(x == q * 4096 + r && 0 <= r < 4096) by (nonlinear_arith)
        requires
            q == x / 4096,
            r == x % 4096,
            x >= 5,
    ;
    let e = l * 4096 + x;
    assert(e / 4096 == l + q && e % 4096 == r) by (nonlinear_arith)
        requires
            e == l * 4096 + x,
            x == q * 4096 + r,
            0 <= r < 4096,
    ;
    assert(q >= 1 || r > 0);
}

/// Law (a write keeps the layout and leaves other chunks alone): on a region file that keeps
/// `model_ok`, a successful write of chunk `k` keeps it; the chunk's header entry becomes the
/// plan, and every other chunk's entry stays as it was; the chunk's bytes, its padding
/// included, lie past the header and within its own sectors, which overlap the sectors of no
/// other chunk.
pub proof fn lemma_model_write(m: RegionModel, k: int, len: int)
    requires
        model_ok(m),
        0 <= k < 1024,
        len >= 0,
        required_sectors(len) <= 255,
        m.offsets.last() + required_sectors(len) <= u64::MAX,
    ensures
        ({
            let (m2, plan) = model_write(m, k, len);
            &&& model_ok(m2)
            &&& m2.entries.contains_key(k) && m2.entries[k] == (plan.offset, plan.sectors as u64)
            &&& forall|k2: int|
                k2 != k && #[trigger] m.entries.contains_key(k2) ==> m2.entries.contains_key(k2)
                    && m2.entries[k2] == m.entries[k2]
            &&& plan.offset * 4096 >= 8192
            &&& plan.offset * 4096 + 5 + len <= (plan.offset + plan.sectors) * 4096
            &&& plan.pad ==> plan.offset == m.offsets.last() && m2.end == (plan.offset + plan.sectors)
                * 4096
            &&& !plan.pad ==> m2.offsets == m.offsets && m2.end == m.end && (plan.offset
                + plan.sectors) * 4096 <= m.end
            &&& forall|k2: int|
                k2 != k && #[trigger] m.entries.contains_key(k2) ==> (m.entries[k2].0 + m.entries[k2].1)
                    * 4096 <= plan.offset * 4096 || (plan.offset + plan.sectors) * 4096 <= m.entries[k2].0
                    * 4096
            &&& m2.offsets.last() <= m.offsets.last() + required_sectors(len)
        }),
{
    let required = required_sectors(len);
    let slot = slot_of(m, k);
    let (t, plan) = model_write(m, k, len);
    let offsets = m.offsets;
    lemma_required_sectors(len, offsets.last() as int);
    if m.entries.contains_key(k) {
        let o = m.entries[k].0;
        assert(m.entries.contains_key(k));
        let jw = choose|j: int| 0 <= j < offsets.len() - 1 && offsets[j] == o && o + m.entries[k].1 <= #[trigger] offsets[j + 1];
        let i = slot->0;
        assert(0 <= i < offsets.len() && offsets[i] == o);
        assert(i == jw) by {
            if i < jw {
                assert(offsets[i] < offsets[jw]);
            } else if jw < i {
                assert(offsets[jw] < offsets[i]);
            }
        }
    }
    lemma_plan_keeps_layout(offsets, slot, required);
    let (tt, pp) = planned(offsets, slot, required);
    assert(tt == t.offsets && pp == plan);
    let j = choose|j: int| plan_in_slot(tt, pp, j);
    assert(plan_in_slot(tt, pp, j)) by {
        let jj = match slot {
            Some(i) => if tt == offsets {
                i
            } else {
                tt.len() - 2
            },
            None => tt.len() - 2,
        };
        assert(plan_in_slot(tt, pp, jj));
    }
    assert(tt[0] <= tt[j]);
    assert(plan.offset >= 2);
    lemma_required_sectors(len, plan.offset as int);
    assert(plan.sectors == required);
    // the other chunks
    assert forall|k2: int| k2 != k && #[trigger] m.entries.contains_key(k2) implies entry_fits(
        tt,
        m.entries[k2].0,
        m.entries[k2].1,
    ) && (m.entries[k2].0 + m.entries[k2].1 <= plan.offset || plan.offset + plan.sectors <= m.entries[k2].0) by {
        if let Some(i) = slot {
            assert(m.entries.contains_key(k));
            assert(offsets[i] == m.entries[k].0);
        }
        lemma_plan_keeps_entries(offsets, slot, required, m.entries[k2].0, m.entries[k2].1);
    }
    assert forall|k2: int| k2 != k && #[trigger] m.entries.contains_key(k2) implies (m.entries[k2].0
        + m.entries[k2].1) * 4096 <= plan.offset * 4096 || (plan.offset + plan.sectors) * 4096
        <= m.entries[k2].0 * 4096 by {
        assert(m.entries[k2].0 + m.entries[k2].1 <= plan.offset || plan.offset + plan.sectors <= m.entries[k2].0);
    }
    // the written chunk's entry
    assert(entry_fits(tt, plan.offset, plan.sectors as u64)) by {
        assert(0 <= j < tt.len() - 1 && tt[j] == plan.offset && plan.offset + (plan.sectors as u64) <= tt[j + 1]);
    }
    let m2 = t;
    assert forall|k1: int| #[trigger] m2.entries.contains_key(k1) implies 0 <= k1 < 1024 && 1 <= m2.entries[k1].1
        <= 255 && entry_fits(m2.offsets, m2.entries[k1].0, m2.entries[k1].1) by {
        if k1 != k {
            assert(m.entries.contains_key(k1));
        }
    }
    assert forall|k1: int, k2: int|
        #[trigger] m2.entries.contains_key(k1) && #[trigger] m2.entries.contains_key(k2) && k1 != k2
            implies m2.entries[k1].0 != m2.entries[k2].0 by {
        if k1 == k {
            assert(m.entries.contains_key(k2));
            assert(m.entries[k2].1 >= 1);
        } else if k2 == k {
            assert(m.entries.contains_key(k1));
            assert(m.entries[k1].1 >= 1);
        } else {
            assert(m.entries.contains_key(k1) && m.entries.contains_key(k2));
        }
    }
    // the file's end
    if plan.pad {
        assert(plan.offset == offsets.last());
        assert(tt.last() == offsets.last() + required);
        assert(m2.end == (plan.offset + plan.sectors) * 4096);
    } else {
        assert(tt == offsets);
        assert(plan.offset + plan.sectors <= tt[j + 1]);
        assert(tt[j + 1] <= tt.last());
    }
}

/// The region file after the writes `writes` (each a chunk index and a compressed length), in
/// order, from a file just created.
pub open spec fn model_after(writes: Seq<(int, int)>) -> RegionModel
    decreases writes.len(),
{
    if writes.len() == 0 {
        fresh_model()
    } else {
        model_write(model_after(writes.drop_last()), writes.last().0, writes.last().1).0
    }
}

/// Law (the layout of a region written from scratch): after any sequence of successful writes
/// (fewer than 2^48 of them) to a file just created, the table's layout holds, the file ends
/// where the last allocation ends, each chunk's header entry lies within one allocation of its
/// own, and no allocation overlaps the header; so each step is one to which
/// `lemma_model_write` applies. With at most 65000 writes every offset fits in the 24 bits of a
/// header entry, so each entry reads back as written (`lemma_header_roundtrip`).
pub proof fn lemma_model_after(writes: Seq<(int, int)>)
    requires
        writes.len() < 0x1_0000_0000_0000,
        forall|i: int|
            0 <= i < writes.len() ==> 0 <= (#[trigger] writes[i]).0 < 1024 && writes[i].1 >= 0
                && required_sectors(writes[i].1) <= 255,
    ensures
        model_ok(model_after(writes)),
        model_after(writes).offsets.last() <= 2 + 255 * writes.len(),
        writes.len() <= 65000 ==> forall|k: int|
            #[trigger] model_after(writes).entries.contains_key(k) ==> model_after(writes).entries[k].0
                < 0x1000000,
    decreases writes.len(),
{
    lemma_model_after_ok(writes);
    let m = model_after(writes);
    assert forall|k: int| #[trigger] m.entries.contains_key(k) implies m.entries[k].0 < m.offsets.last() by {
        let j = choose|j: int| 0 <= j < m.offsets.len() - 1 && m.offsets[j] == m.entries[k].0 && m.entries[k].0
            + m.entries[k].1 <= #[trigger] m.offsets[j + 1];
        assert(m.offsets[j] < m.offsets[m.offsets.len() - 1]);
    }
}

proof fn lemma_model_after_ok(writes: Seq<(int, int)>)
    requires
        writes.len() < 0x1_0000_0000_0000,
        forall|i: int|
            0 <= i < writes.len() ==> 0 <= (#[trigger] writes[i]).0 < 1024 && writes[i].1 >= 0
                && required_sectors(writes[i].1) <= 255,
    ensures
        model_ok(model_after(writes)),
        model_after(writes).offsets.last() <= 2 + 255 * writes.len(),
    decreases writes.len(),
{
    if writes.len() > 0 {
        let prev = writes.drop_last();
        assert forall|i: int| 0 <= i < prev.len() implies 0 <= (#[trigger] prev[i]).0 < 1024 && prev[i].1
            >= 0 && required_sectors(prev[i].1) <= 255 by {
            assert(prev[i] == writes[i]);
        }
        lemma_model_after_ok(prev);
        let w = writes.last();
        assert(w == writes[writes.len() - 1]);
        lemma_model_write(model_after(prev), w.0, w.1);
    }
}

/// `f` with `b` written over it from position `p` on, extended where `b` runs past its end.
pub open spec fn overwrite(f: Seq<u8>, p: int, b: Seq<u8>) -> Seq<u8> {
    if p + b.len() <= f.len() {
        f.take(p) + b + f.skip(p + b.len())
    } else {
        f.take(p) + b
    }
}

proof fn lemma_overwrite(f: Seq<u8>, p: int, b: Seq<u8>)
    requires
        0 <= p <= f.len(),
    ensures
        overwrite(f, p, b).len() == (if p + b.len() <= f.len() {
            f.len() as int
        } else {
            p + b.len()
        }),
        forall|i: int|
            0 <= i < overwrite(f, p, b).len() ==> #[trigger] overwrite(f, p, b)[i] == (if p <= i < p
                + b.len() {
                b[i - p]
            } else {
                f[i]
            }),
{
}

/// The bytes of a region file after the successful write of chunk `k` (`x + 32 * z`), whose
/// compressed bytes are `data`, as `async_write_compressed_chunk` makes it: at the planned
/// sector the chunk header of `ChunkMeta::to_bytes` and the data; then, when the plan says so,
/// `pad_len` zeros; then the chunk's entry of `header_entry` at `header_pos`.
pub open spec fn file_write(
    f: Seq<u8>,
    m: RegionModel,
    k: int,
    data: Seq<u8>,
    scheme: CompressionScheme,
) -> Seq<u8> {
    let plan = model_write(m, k, data.len() as int).1;
    let p = plan.offset * 4096;
    let body = be_bytes((data.len() + 1) as u32).push(scheme_number(scheme)) + data;
    let f1 = overwrite(f, p, body);
    let f2 = if plan.pad {
        f1 + Seq::new((round_up(f1.len() as int) - f1.len()) as nat, |i: int| 0u8)
    } else {
        f1
    };
    overwrite(f2, 4 * k, header_bytes(plan.offset, plan.sectors as int))
}

/// The compressed bytes of chunk `k` as a reader finds them in `f`: the chunk's header entry
/// at `header_pos`, then at its sector the chunk header, whose length counts the scheme byte,
/// then that many bytes less one; none for an empty entry.
pub open spec fn read_chunk(f: Seq<u8>, k: int) -> Option<Seq<u8>> {
    match location_of(f.subrange(4 * k, 4 * k + 4)) {
        None => None,
        Some((o, n)) => {
            let p = o * 4096;
            let len = be_u32(f.subrange(p as int, p + 4)) - 1;
            Some(f.subrange(p + 5, p + 5 + len))
        },
    }
}

/// Chunk `k`, recorded at `loc`, holds `c` in `f`: its header entry reads `loc`, its chunk
/// header the length of `c`, and `c` follows, all within its sectors.
pub open spec fn chunk_stored(f: Seq<u8>, k: int, loc: (u64, u64), c: Seq<u8>) -> bool {
    let p = loc.0 * 4096;
    &&& location_of(f.subrange(4 * k, 4 * k + 4)) == Some(loc)
    &&& p + 5 + c.len() <= (loc.0 + loc.1) * 4096
    &&& be_u32(f.subrange(p as int, p + 4)) == c.len() + 1
    &&& f.subrange(p + 5, p + 5 + c.len()) == c
}

/// The bytes `f` of a region file agree with its layout `m` and hold the data `chunks` of the
/// chunks written: the file is as long as the layout says; the entry of every chunk not
/// written is empty; every chunk written is stored where its entry says, at an offset that the
/// 24 bits of the entry hold.
pub open spec fn file_ok(f: Seq<u8>, m: RegionModel, chunks: Map<int, Seq<u8>>) -> bool {
    &&& model_ok(m)
    &&& f.len() == m.end
    &&& forall|k: int|
        0 <= k < 1024 && !m.entries.contains_key(k) ==> location_of(
            #[trigger] f.subrange(4 * k, 4 * k + 4),
        ) is None
    &&& forall|k: int|
        #[trigger] m.entries.contains_key(k) ==> chunks.contains_key(k) && m.entries[k].0 < 0x1000000
            && chunk_stored(f, k, m.entries[k], chunks[k])
}

/// A file just created: two sectors of zeros.
pub open spec fn fresh_file() -> Seq<u8> {
    Seq::new(8192, |i: int| 0u8)
}

/// Law: a file just created agrees with the layout of a file just created, with no chunk.
pub proof fn lemma_fresh_file_ok(chunks: Map<int, Seq<u8>>)
    ensures
        file_ok(fresh_file(), fresh_model(), chunks),
{
    let f = fresh_file();
    assert forall|k: int| 0 <= k < 1024 && !fresh_model().entries.contains_key(k) implies location_of(
        #[trigger] f.subrange(4 * k, 4 * k + 4),
    ) is None by {
        let s = f.subrange(4 * k, 4 * k + 4);
        assert(s[0] == 0 && s[1] == 0 && s[2] == 0 && s[3] == 0);
    }
}

/// Law (a read gives back a write, and other chunks are left alone): on a file that agrees with
/// its layout, a successful write of chunk `k` (its sectors within 255, the file's end within
/// the 24 bits of an offset) leaves a file that agrees with the new layout, from which chunk
/// `k` reads back as `data` and every other chunk reads as it did before; every byte of the
/// sectors of every other chunk is unchanged.
#[verifier::spinoff_prover]
pub proof fn lemma_file_write(
    f: Seq<u8>,
    m: RegionModel,
    chunks: Map<int, Seq<u8>>,
    k: int,
    data: Seq<u8>,
    scheme: CompressionScheme,
)
    requires
        file_ok(f, m, chunks),
        0 <= k < 1024,
        required_sectors(data.len() as int) <= 255,
        m.offsets.last() + required_sectors(data.len() as int) < 0x1000000,
    ensures
        ({
            let m2 = model_write(m, k, data.len() as int).0;
            let f2 = file_write(f, m, k, data, scheme);
            &&& file_ok(f2, m2, chunks.insert(k, data))
            &&& read_chunk(f2, k) == Some(data)
            &&& forall|k2: int| 0 <= k2 < 1024 && k2 != k ==> #[trigger] read_chunk(f2, k2) == read_chunk(f, k2)
            &&& forall|k2: int, i: int|
                #[trigger] m.entries.contains_key(k2) && k2 != k && m.entries[k2].0 * 4096 <= i < (
                m.entries[k2].0 + m.entries[k2].1) * 4096 ==> #[trigger] f2[i] == f[i]
        }),
{
    let len = data.len() as int;
    let (m2, plan) = model_write(m, k, len);
    let f3 = file_write(f, m, k, data, scheme);
    let chunks2 = chunks.insert(k, data);
    lemma_model_write(m, k, len);
    lemma_file_bytes(f, m, k, data, scheme);
    lemma_written_chunk_stored(f, m, k, data, scheme);
    lemma_stored_reads(f3, k, (plan.offset, plan.sectors as u64), data);
    assert forall|k2: int| 0 <= k2 < 1024 && k2 != k implies f3.subrange(4 * k2, 4 * k2 + 4)
        == #[trigger] f.subrange(4 * k2, 4 * k2 + 4) by {
        lemma_other_entry_kept(f, m, k, data, scheme, k2);
    }
    assert forall|k2: int| #[trigger] m.entries.contains_key(k2) && k2 != k implies chunk_stored(
        f3,
        k2,
        m.entries[k2],
        chunks[k2],
    ) by {
        lemma_other_chunk_kept(f, m, chunks, k, data, scheme, k2);
    }
    assert forall|k2: int, i: int|
        #[trigger] m.entries.contains_key(k2) && k2 != k && m.entries[k2].0 * 4096 <= i < (
        m.entries[k2].0 + m.entries[k2].1) * 4096 implies #[trigger] f3[i] == f[i] by {
        let loc = m.entries[k2];
        let j = choose|j: int| 0 <= j < m.offsets.len() - 1 && m.offsets[j] == loc.0 && loc.0 + loc.1 <= #[trigger] m.offsets[j + 1];
        assert(m.offsets[j + 1] <= m.offsets.last());
        assert(m.offsets[0] <= m.offsets[j]);
        assert(plan.offset * 4096 + 5 + len <= (plan.offset + plan.sectors) * 4096);
    }
    assert(file_ok(f3, m2, chunks2)) by {
        assert forall|k2: int| 0 <= k2 < 1024 && !m2.entries.contains_key(k2) implies location_of(
            #[trigger] f3.subrange(4 * k2, 4 * k2 + 4),
        ) is None by {
            assert(f3.subrange(4 * k2, 4 * k2 + 4) == f.subrange(4 * k2, 4 * k2 + 4));
        }
        assert forall|k2: int| #[trigger] m2.entries.contains_key(k2) implies chunks2.contains_key(k2)
            && m2.entries[k2].0 < 0x1000000 && chunk_stored(f3, k2, m2.entries[k2], chunks2[k2]) by {
            if k2 != k {
                assert(m.entries.contains_key(k2));
            }
        }
    }
    assert forall|k2: int| 0 <= k2 < 1024 && k2 != k implies #[trigger] read_chunk(f3, k2) == read_chunk(f, k2) by {
        assert(f3.subrange(4 * k2, 4 * k2 + 4) == f.subrange(4 * k2, 4 * k2 + 4));
        if m.entries.contains_key(k2) {
            lemma_stored_reads(f, k2, m.entries[k2], chunks[k2]);
            lemma_stored_reads(f3, k2, m.entries[k2], chunks[k2]);
        }
    }
}

/// The chunk just written is stored where its new entry says.
proof fn lemma_written_chunk_stored(f: Seq<u8>, m: RegionModel, k: int, data: Seq<u8>, scheme: CompressionScheme)
    requires
        model_ok(m),
        f.len() == m.end,
        0 <= k < 1024,
        required_sectors(data.len() as int) <= 255,
        m.offsets.last() + required_sectors(data.len() as int) < 0x1000000,
    ensures
        ({
            let plan = model_write(m, k, data.len() as int).1;
            &&& plan.offset < 0x1000000
            &&& chunk_stored(file_write(f, m, k, data, scheme), k, (plan.offset, plan.sectors as u64), data)
        }),
{
    lemma_model_write(m, k, data.len() as int);
    lemma_written_entry(f, m, k, data, scheme);
    lemma_written_meta(f, m, k, data, scheme);
    lemma_written_data(f, m, k, data, scheme);
}

/// The entry of the chunk just written reads its plan.
#[verifier::spinoff_prover]
proof fn lemma_written_entry(f: Seq<u8>, m: RegionModel, k: int, data: Seq<u8>, scheme: CompressionScheme)
    requires
        model_ok(m),
        f.len() == m.end,
        0 <= k < 1024,
        required_sectors(data.len() as int) <= 255,
        m.offsets.last() + required_sectors(data.len() as int) < 0x1000000,
    ensures
        ({
            let plan = model_write(m, k, data.len() as int).1;
            &&& plan.offset < 0x1000000
            &&& location_of(file_write(f, m, k, data, scheme).subrange(4 * k, 4 * k + 4)) == Some(
                (plan.offset, plan.sectors as u64),
            )
        }),
{
    let plan = model_write(m, k, data.len() as int).1;
    lemma_model_write(m, k, data.len() as int);
    lemma_file_bytes(f, m, k, data, scheme);
    let f3 = file_write(f, m, k, data, scheme);
    assert(m.offsets[0] <= m.offsets.last());
    let sec = plan.sectors as u8;
    assert(sec as int == plan.sectors);
    lemma_header_roundtrip(plan.offset, sec);
    assert(f3.subrange(4 * k, 4 * k + 4) =~= header_bytes(plan.offset, sec as int)) by {
        assert forall|i: int| 0 <= i < 4 implies #[trigger] f3.subrange(4 * k, 4 * k + 4)[i]
            == header_bytes(plan.offset, sec as int)[i] by {
            assert(f3[4 * k + i] == header_bytes(plan.offset, plan.sectors as int)[i]);
        }
    }
}

/// The chunk header of the chunk just written reads its length plus one.
#[verifier::spinoff_prover]
proof fn lemma_written_meta(f: Seq<u8>, m: RegionModel, k: int, data: Seq<u8>, scheme: CompressionScheme)
    requires
        model_ok(m),
        f.len() == m.end,
        0 <= k < 1024,
        required_sectors(data.len() as int) <= 255,
        m.offsets.last() + required_sectors(data.len() as int) < 0x1000000,
    ensures
        ({
            let p = model_write(m, k, data.len() as int).1.offset * 4096;
            be_u32(file_write(f, m, k, data, scheme).subrange(p as int, p + 4)) == data.len() + 1
        }),
{
    let plan = model_write(m, k, data.len() as int).1;
    lemma_file_bytes(f, m, k, data, scheme);
    let p = plan.offset * 4096;
    let meta = be_bytes((data.len() + 1) as u32).push(scheme_number(scheme));
    let body = meta + data;
    lemma_chunk_meta_roundtrip(data.len() as u32, scheme);
    let f3 = file_write(f, m, k, data, scheme);
    let ms = f3.subrange(p as int, p + 4);
    assert(f3[p + 0] == body[0] && f3[p + 1] == body[1] && f3[p + 2] == body[2] && f3[p + 3] == body[3]);
    assert(ms[0] == meta[0] && ms[1] == meta[1] && ms[2] == meta[2] && ms[3] == meta[3]);
    assert(be_u32(ms) == be_u32(meta));
}

/// The data of the chunk just written follows its chunk header.
#[verifier::spinoff_prover]
proof fn lemma_written_data(f: Seq<u8>, m: RegionModel, k: int, data: Seq<u8>, scheme: CompressionScheme)
    requires
        model_ok(m),
        f.len() == m.end,
        0 <= k < 1024,
        required_sectors(data.len() as int) <= 255,
        m.offsets.last() + required_sectors(data.len() as int) < 0x1000000,
    ensures
        ({
            let p = model_write(m, k, data.len() as int).1.offset * 4096;
            file_write(f, m, k, data, scheme).subrange(p + 5, p + 5 + data.len()) == data
        }),
{
    let plan = model_write(m, k, data.len() as int).1;
    lemma_file_bytes(f, m, k, data, scheme);
    let p = plan.offset * 4096;
    let len = data.len() as int;
    let body = be_bytes((data.len() + 1) as u32).push(scheme_number(scheme)) + data;
    let f3 = file_write(f, m, k, data, scheme);
    assert forall|i: int| 0 <= i < len implies #[trigger] f3.subrange(p + 5, p + 5 + len)[i] == data[i] by {
        assert(f3[p + 5 + i] == body[5 + i]);
    }
    assert(f3.subrange(p + 5, p + 5 + len) =~= data);
}

/// A write leaves the header entry of every other chunk as it was.
proof fn lemma_other_entry_kept(f: Seq<u8>, m: RegionModel, k: int, data: Seq<u8>, scheme: CompressionScheme, k2: int)
    requires
        model_ok(m),
        f.len() == m.end,
        0 <= k < 1024,
        0 <= k2 < 1024,
        k2 != k,
        required_sectors(data.len() as int) <= 255,
        m.offsets.last() + required_sectors(data.len() as int) < 0x1000000,
    ensures
        file_write(f, m, k, data, scheme).subrange(4 * k2, 4 * k2 + 4) == f.subrange(4 * k2, 4 * k2 + 4),
{
    lemma_file_bytes(f, m, k, data, scheme);
    lemma_model_write(m, k, data.len() as int);
    assert(m.offsets[0] <= m.offsets.last());
    let f3 = file_write(f, m, k, data, scheme);
    assert forall|i: int| 0 <= i < 4 implies #[trigger] f3.subrange(4 * k2, 4 * k2 + 4)[i] == f.subrange(
        4 * k2,
        4 * k2 + 4,
    )[i] by {
        assert(f3[4 * k2 + i] == f[4 * k2 + i]);
    }
    assert(f3.subrange(4 * k2, 4 * k2 + 4) =~= f.subrange(4 * k2, 4 * k2 + 4));
}

/// A write leaves every other chunk stored as it was.
#[verifier::spinoff_prover]
proof fn lemma_other_chunk_kept(
    f: Seq<u8>,
    m: RegionModel,
    chunks: Map<int, Seq<u8>>,
    k: int,
    data: Seq<u8>,
    scheme: CompressionScheme,
    k2: int,
)
    requires
        file_ok(f, m, chunks),
        0 <= k < 1024,
        m.entries.contains_key(k2),
        k2 != k,
        required_sectors(data.len() as int) <= 255,
        m.offsets.last() + required_sectors(data.len() as int) < 0x1000000,
    ensures
        chunk_stored(file_write(f, m, k, data, scheme), k2, m.entries[k2], chunks[k2]),
{
    let len = data.len() as int;
    let plan = model_write(m, k, len).1;
    lemma_file_bytes(f, m, k, data, scheme);
    lemma_model_write(m, k, len);
    let f3 = file_write(f, m, k, data, scheme);
    let p = plan.offset * 4096;
    let loc = m.entries[k2];
    let c = chunks[k2];
    let p2 = loc.0 * 4096;
    assert(chunk_stored(f, k2, loc, c));
    assert(0 <= k2 < 1024);
    lemma_other_entry_kept(f, m, k, data, scheme, k2);
    let j = choose|j: int| 0 <= j < m.offsets.len() - 1 && m.offsets[j] == loc.0 && loc.0 + loc.1 <= #[trigger] m.offsets[j + 1];
    assert(m.offsets[j + 1] <= m.offsets.last());
    assert(m.offsets[0] <= m.offsets[j]);
    assert((loc.0 + loc.1) * 4096 <= p || (plan.offset + plan.sectors) * 4096 <= p2);
    assert(p + 5 + len <= (plan.offset + plan.sectors) * 4096);
    assert forall|i: int| p2 <= i < p2 + 5 + c.len() implies #[trigger] f3[i] == f[i] by {}
    assert(f3.subrange(p2 as int, p2 + 4) =~= f.subrange(p2 as int, p2 + 4)) by {
        assert forall|i: int| 0 <= i < 4 implies #[trigger] f3.subrange(p2 as int, p2 + 4)[i] == f.subrange(
            p2 as int,
            p2 + 4,
        )[i] by {
            assert(f3[p2 + i] == f[p2 + i]);
        }
    }
    assert(f3.subrange(p2 + 5, p2 + 5 + c.len()) =~= f.subrange(p2 + 5, p2 + 5 + c.len())) by {
        assert forall|i: int| 0 <= i < c.len() implies #[trigger] f3.subrange(p2 + 5, p2 + 5 + c.len())[i]
            == f.subrange(p2 + 5, p2 + 5 + c.len())[i] by {
            assert(f3[p2 + 5 + i] == f[p2 + 5 + i]);
        }
    }
}

/// The bytes of the file after a write: the chunk's header entry at `4 * k`, the chunk header
/// and data at its sector, zeros past the old end, and the old bytes everywhere else.
#[verifier::spinoff_prover]
proof fn lemma_file_bytes(f: Seq<u8>, m: RegionModel, k: int, data: Seq<u8>, scheme: CompressionScheme)
    requires
        model_ok(m),
        f.len() == m.end,
        0 <= k < 1024,
        required_sectors(data.len() as int) <= 255,
        m.offsets.last() + required_sectors(data.len() as int) < 0x1000000,
    ensures
        ({
            let len = data.len() as int;
            let (m2, plan) = model_write(m, k, len);
            let p = plan.offset * 4096;
            let body = be_bytes((data.len() + 1) as u32).push(scheme_number(scheme)) + data;
            let f3 = file_write(f, m, k, data, scheme);
            &&& f3.len() == m2.end
            &&& p >= 8192
            &&& forall|i: int|
                0 <= i < f3.len() ==> #[trigger] f3[i] == (if 4 * k <= i < 4 * k + 4 {
                    header_bytes(plan.offset, plan.sectors as int)[i - 4 * k]
                } else if p <= i < p + 5 + len {
                    body[i - p]
                } else if i < f.len() {
                    f[i]
                } else {
                    0u8
                })
        }),
{
    let len = data.len() as int;
    let (m2, plan) = model_write(m, k, len);
    lemma_model_write(m, k, len);
    let p = plan.offset * 4096;
    let meta = be_bytes((data.len() + 1) as u32).push(scheme_number(scheme));
    let body = meta + data;
    lemma_chunk_meta_roundtrip(data.len() as u32, scheme);
    let f1 = overwrite(f, p, body);
    let f2 = if plan.pad {
        f1 + Seq::new((round_up(f1.len() as int) - f1.len()) as nat, |i: int| 0u8)
    } else {
        f1
    };
    let hb = header_bytes(plan.offset, plan.sectors as int);
    let f3 = file_write(f, m, k, data, scheme);
    assert(f3 == overwrite(f2, 4 * k, hb));
    assert(m.offsets[0] <= m.offsets.last());
    lemma_overwrite(f, p, body);
    if plan.pad {
        lemma_required_sectors(len, plan.offset as int);
        assert(f1.len() == p + 5 + len);
    }
    assert(f2.len() == m2.end);
    assert(m2.end >= 8192) by {
        assert(m2.offsets[0] <= m2.offsets.last());
    }
    lemma_overwrite(f2, 4 * k, hb);
    assert(f3.len() == f2.len());
    // what each byte of the new file is
    assert forall|i: int| 0 <= i < f3.len() implies #[trigger] f3[i] == (if 4 * k <= i < 4 * k + 4 {
        hb[i - 4 * k]
    } else if p <= i < p + 5 + len {
        body[i - p]
    } else if i < f.len() {
        f[i]
    } else {
        0u8
    }) by {
        if !(4 * k <= i < 4 * k + 4) {
            assert(f3[i] == f2[i]);
            if i < f1.len() {
                assert(f2[i] == f1[i]);
            }
        }
    }
}

/// A region file after the writes `writes` (each a chunk index, its compressed bytes and their
/// scheme), in order, from a file just created: its bytes, its layout, and each chunk's data.
pub open spec fn file_after(writes: Seq<(int, Seq<u8>, CompressionScheme)>) -> (
    Seq<u8>,
    RegionModel,
    Map<int, Seq<u8>>,
)
    decreases writes.len(),
{
    if writes.len() == 0 {
        (fresh_file(), fresh_model(), Map::empty())
    } else {
        let (f, m, c) = file_after(writes.drop_last());
        let w = writes.last();
        (file_write(f, m, w.0, w.1, w.2), model_write(m, w.0, w.1.len() as int).0, c.insert(w.0, w.1))
    }
}

/// Law (reading a region written from scratch): after at most 65000 successful writes (each of
/// a chunk below 1024 whose sectors are within 255) to a file just created, the file agrees
/// with its layout, and each chunk reads back the data of its last write, or nothing when it
/// was never written.
pub proof fn lemma_file_after(writes: Seq<(int, Seq<u8>, CompressionScheme)>)
    requires
        writes.len() <= 65000,
        forall|i: int|
            0 <= i < writes.len() ==> 0 <= (#[trigger] writes[i]).0 < 1024 && required_sectors(
                writes[i].1.len() as int,
            ) <= 255,
    ensures
        ({
            let (f, m, c) = file_after(writes);
            &&& file_ok(f, m, c)
            &&& m.offsets.last() <= 2 + 255 * writes.len()
            &&& m.entries.dom() == c.dom()
            &&& forall|k: int|
                0 <= k < 1024 ==> #[trigger] read_chunk(f, k) == (if c.contains_key(k) {
                    Some(c[k])
                } else {
                    None
                })
        }),
    decreases writes.len(),
{
    let (f, m, c) = file_after(writes);
    if writes.len() == 0 {
        lemma_fresh_file_ok(Map::empty());
        assert(m.entries.dom() =~= c.dom());
    } else {
        let prev = writes.drop_last();
        assert forall|i: int| 0 <= i < prev.len() implies 0 <= (#[trigger] prev[i]).0 < 1024 && required_sectors(
            prev[i].1.len() as int,
        ) <= 255 by {
            assert(prev[i] == writes[i]);
        }
        lemma_file_after(prev);
        let (f0, m0, c0) = file_after(prev);
        let w = writes.last();
        assert(w == writes[writes.len() - 1]);
        lemma_model_write(m0, w.0, w.1.len() as int);
        lemma_file_write(f0, m0, c0, w.0, w.1, w.2);
        assert(m.entries.dom() =~= c.dom());
    }
    assert forall|k: int| 0 <= k < 1024 implies #[trigger] read_chunk(f, k) == (if c.contains_key(k) {
        Some(c[k])
    } else {
        None
    }) by {
        if m.entries.contains_key(k) {
            lemma_stored_reads(f, k, m.entries[k], c[k]);
        } else {
            assert(!c.contains_key(k));
        }
    }
}

/// A chunk stored in a file reads back as its data.
proof fn lemma_stored_reads(f: Seq<u8>, k: int, loc: (u64, u64), c: Seq<u8>)
    requires
        chunk_stored(f, k, loc, c),
    ensures
        read_chunk(f, k) == Some(c),
{
}

/// `offset` is the start of an allocation that has a next one: it occurs in `offsets`, never
/// as the last entry.
pub open spec fn has_slot_for(offsets: Seq<u64>, offset: u64) -> bool {
    &&& exists|i: int| 0 <= i < offsets.len() && offsets[i] == offset
    &&& forall|i: int| 0 <= i < offsets.len() && #[trigger] offsets[i] == offset ==> i + 1 < offsets.len()
}

/// The allocations of sectors in a region file: the start of each, in ascending order,
/// followed by the end of the last one.
pub struct SectorTable {
    offsets: Vec<u64>,
}

impl View for SectorTable {
    type V = Seq<u64>;

    closed spec fn view(&self) -> Seq<u64> {
        self.offsets@
    }
}

impl Clone for SectorTable {
    fn clone(&self) -> (r: Self)
        ensures
            r@ == self@,
    {
        proof {
            use_type_invariant(self);
        }
        let mut offsets: Vec<u64> = Vec::new();
        let mut i: usize = 0;
        while i < self.offsets.len()
            invariant
                i <= self.offsets.len(),
                offsets@ == self.offsets@.take(i as int),
            decreases self.offsets.len() - i,
        {
            offsets.push(self.offsets[i]);
            i = i + 1;
            assert(offsets@ =~= self.offsets@.take(i as int));
        }
        assert(offsets@ =~= self.offsets@);
        SectorTable { offsets }
    }
}

impl SectorTable {
    #[verifier::type_invariant]
    closed spec fn wf(self) -> bool {
        &&& self.offsets.len() >= 1
        &&& sorted(self.offsets@)
    }

    /// The start of every allocation, then the end of the last one.
    pub fn offsets(&self) -> (r: &Vec<u64>)
        ensures
            r@ == self@,
    {
        &self.offsets
    }

    /// The table of a file just created, whose header of two sectors is all there is.
    pub fn fresh() -> (r: Self)
        ensures
            r@ == seq![2u64],
            r@.len() >= 1,
            sorted(r@),
            layout_ok(r@),
    {
        let mut offsets = Vec::new();
        offsets.push(2);
        SectorTable { offsets }
    }

    /// The table of an existing file, from its header entries (in the order `z` then `x`):
    /// the offsets of the chunks present, in ascending order, then the end of the chunk with
    /// the greatest offset.
    pub fn from_locations(locations: &Vec<Option<ChunkLocation>>) -> (r: Self)
        requires
            farthest(locations@, locations.len() as int).0 + farthest(
                locations@,
                locations.len() as int,
            ).1 <= u64::MAX,
        ensures
            r@.len() >= 1,
            sorted(r@),
            sorted(r@.drop_last()),
            r@.drop_last().to_multiset() == located_offsets(
                locations@,
                locations.len() as int,
            ).to_multiset(),
            r@.last() == farthest(locations@, locations.len() as int).0 + farthest(
                locations@,
                locations.len() as int,
            ).1,
    {
        let mut offsets: Vec<u64> = Vec::new();
        let mut max_offset: u64 = 0;
        let mut max_offsets_sector_count: u64 = 0;
        let mut i: usize = 0;
        while i < locations.len()
            invariant
                i <= locations.len(),
                offsets@ == located_offsets(locations@, i as int),
                (max_offset, max_offsets_sector_count) == farthest(locations@, i as int),
            decreases locations.len() - i,
        {
            if let Some(loc) = &locations[i] {
                offsets.push(loc.offset);
                if loc.offset > max_offset {
                    max_offset = loc.offset;
                    max_offsets_sector_count = loc.sectors;
                }
            }
            i = i + 1;
        }
        let ghost collected = offsets@;
        proof {
            lemma_farthest_bounds(locations@, locations.len() as int);
        }
        sort_offsets(&mut offsets);
        let end = max_offset + max_offsets_sector_count;
        let ghost sorted_part = offsets@;
        offsets.push(end);
        assert(offsets@.drop_last() =~= sorted_part);
        assert forall|j: int| 0 <= j < sorted_part.len() implies #[trigger] sorted_part[j] <= end by {
            assert(sorted_part.to_multiset().count(sorted_part[j]) > 0);
            assert(collected.contains(sorted_part[j]));
        }
        SectorTable { offsets }
    }

    /// Whether a chunk recorded at `offset` can be rewritten by `plan_write`.
    pub fn has_slot(&self, offset: u64) -> (r: bool)
        ensures
            r == has_slot_for(self@, offset),
    {
        proof {
            use_type_invariant(self);
        }
        let len = self.offsets.len();
        let mut found = false;
        let mut i: usize = 0;
        while i < len
            invariant
                len == self.offsets.len(),
                i <= len,
                found == exists|j: int| 0 <= j < i && self.offsets@[j] == offset,
            decreases len - i,
        {
            if self.offsets[i] == offset {
                found = true;
            }
            i = i + 1;
        }
        let last = self.offsets[len - 1];
        if found && last != offset {
            assert forall|j: int|
                0 <= j < self@.len() && #[trigger] self@[j] == offset implies j + 1 < self@.len() by {
                if j + 1 >= self@.len() {
                    assert(j == len - 1);
                }
            }
            true
        } else {
            if found {
                assert(self@[len - 1] == offset);
            }
            false
        }
    }

    /// Whether `plan_write(location, compressed_len)` can run: the length with its header fits
    /// in a `usize`, a recorded chunk has its allocation in the table, and when the chunk goes
    /// to the end of the file its new end fits in a `u64`.
    pub fn can_plan_write(&self, location: &Option<ChunkLocation>, compressed_len: usize) -> (r:
        bool)
        ensures
            r == (compressed_len + 5 <= usize::MAX && (location matches Some(l) ==> has_slot_for(
                self@,
                l.offset,
            )) && (location is None ==> self@.last() + required_sectors(compressed_len as int)
                <= u64::MAX) && (location matches Some(l) ==> forall|i: int|
                0 <= i < self@.len() && #[trigger] self@[i] == l.offset && required_sectors(
                    compressed_len as int,
                ) > ((self@[i + 1] - self@[i]) as usize) ==> self@.last() + required_sectors(
                    compressed_len as int,
                ) <= u64::MAX)),
    {
        proof {
            use_type_invariant(self);
        }
        if compressed_len > usize::MAX - CHUNK_HEADER_SIZE {
            return false;
        }
        let required = unstable_div_ceil(CHUNK_HEADER_SIZE + compressed_len, SECTOR_SIZE);
        let len = self.offsets.len();
        let last = self.offsets[len - 1];
        let fits_end = (required as u64) <= u64::MAX - last;
        match location {
            None => fits_end,
            Some(l) => {
                if !self.has_slot(l.offset) {
                    return false;
                }
                if fits_end {
                    return true;
                }
                let mut i: usize = 0;
                while i < len
                    invariant
                        len == self.offsets.len(),
                        len >= 1,
                        i <= len,
                        sorted(self@),
                        location matches Some(ll) && ll.offset == l.offset,
                        has_slot_for(self@, l.offset),
                        required == required_sectors(compressed_len as int),
                        !(self@.last() + required <= u64::MAX),
                        forall|k: int|
                            0 <= k < i && #[trigger] self@[k] == l.offset ==> !(required > ((self@[k
                                + 1] - self@[k]) as usize)),
                    decreases len - i,
                {
                    if self.offsets[i] == l.offset {
                        assert(i + 1 < len);
                        #[verifier::truncate]
                        let available = (self.offsets[i + 1] - self.offsets[i]) as usize;
                        if required > available {
                            assert(self@[i as int] == l.offset);
                            return false;
                        }
                    }
                    i = i + 1;
                }
                true
            },
        }
    }

    /// Decides where a chunk of `compressed_len` bytes goes, and updates the bookkeeping: a
    /// chunk recorded at `location` is rewritten in place when it still fits before the next
    /// allocation; otherwise (and for a chunk not recorded yet) it goes to the end of the file.
    pub fn plan_write(&mut self, location: Option<ChunkLocation>, compressed_len: usize) -> (r:
        WritePlan)
        requires
            compressed_len + 5 <= usize::MAX,
            location matches Some(l) ==> has_slot_for(old(self)@, l.offset),
            location is None ==> old(self)@.last() + required_sectors(compressed_len as int)
                <= u64::MAX,
            location matches Some(l) ==> forall|i: int|
                0 <= i < old(self)@.len() && #[trigger] old(self)@[i] == l.offset && required_sectors(
                    compressed_len as int,
                ) > ((old(self)@[i + 1] - old(self)@[i]) as usize) ==> old(self)@.last()
                    + required_sectors(compressed_len as int) <= u64::MAX,
        ensures
            final(self)@.len() >= 1,
            sorted(final(self)@),
            exists|slot: Option<int>|
                {
                    &&& (location is None ==> slot is None)
                    &&& (location matches Some(l) ==> slot matches Some(i) && 0 <= i && i + 1
                        < old(self)@.len() && old(self)@[i] == l.offset)
                    &&& planned(old(self)@, slot, required_sectors(compressed_len as int)) == (
                    final(self)@,
                    r,
                )
                },
            layout_ok(old(self)@) ==> layout_ok(final(self)@) && exists|j: int|
                plan_in_slot(final(self)@, r, j),
    {
        proof {
            use_type_invariant(&*self);
        }
        let ghost before = self@;
        let required = unstable_div_ceil(CHUNK_HEADER_SIZE + compressed_len, SECTOR_SIZE);
        assert(required >= 1) by (nonlinear_arith)
            requires
                required == (compressed_len + 5) / 4096 + (if (compressed_len + 5) % 4096 > 0 {
                    1int
                } else {
                    0int
                }),
                compressed_len >= 0,
        ;
        if let Some(loc) = location {
            let i = match binary_search_offsets(&self.offsets, loc.offset) {
                Ok(i) => i,
                Err(_) => {
                    proof {
                        let j = choose|j: int| 0 <= j < before.len() && before[j] == loc.offset;
                        assert(before.contains(loc.offset));
                    }
                    return WritePlan { offset: 0, sectors: 0, pad: false };
                },
            };
            let start_offset = self.offsets[i];
            let end_offset = self.offsets[i + 1];
            #[verifier::truncate]
            let available_sectors = (end_offset - start_offset) as usize;
            if required <= available_sectors {
                let r = WritePlan { offset: start_offset, sectors: required, pad: false };
                assert(planned(before, Some(i as int), required as int) == (self@, r));
                proof {
                    if layout_ok(before) {
                        lemma_plan_keeps_layout(before, Some(i as int), required as int);
                    }
                }
                r
            } else {
                let mut offsets: Vec<u64> = Vec::new();
                offsets.push(0);
                std::mem::swap(&mut offsets, &mut self.offsets);
                offsets.remove(i);
                let offset = offsets[offsets.len() - 1];
                offsets.push(offset + required as u64);
                proof {
                    let rest = before.remove(i as int);
                    assert(offsets@ == rest.push((rest.last() + required) as u64));
                    assert(sorted(offsets@));
                }
                self.offsets = offsets;
                let r = WritePlan { offset, sectors: required, pad: true };
                proof {
                    let rest = before.remove(i as int);
                    assert(sorted(rest));
                    assert(rest.last() == before.last());
                    assert(planned(before, Some(i as int), required as int) == (self@, r));
                    if layout_ok(before) {
                        lemma_plan_keeps_layout(before, Some(i as int), required as int);
                    }
                }
                r
            }
        } else {
            let mut offsets: Vec<u64> = Vec::new();
            offsets.push(0);
            std::mem::swap(&mut offsets, &mut self.offsets);
            let offset = offsets[offsets.len() - 1];
            offsets.push(offset + required as u64);
            assert(sorted(offsets@));
            self.offsets = offsets;
            let r = WritePlan { offset, sectors: required, pad: true };
            assert(planned(before, None, required as int) == (self@, r));
            proof {
                if layout_ok(before) {
                    lemma_plan_keeps_layout(before, None, required as int);
                }
            }
            r
        }
    }
}

/// A region file being read or written through the stream `S`, with its table of sectors.
#[derive(Clone)]
pub struct Region<S> {
    pub stream: S,
    pub table: SectorTable,
}

impl<S> View for Region<S> {
    type V = Seq<u64>;

    open spec fn view(&self) -> Seq<u64> {
        self.table@
    }
}

impl<S> Region<S> {
    /// Gives back the stream.
    pub fn inner(self) -> (r: S)
        ensures
            r == self.stream,
    {
        self.stream
    }

    /// The region of a file just created, whose header of two sectors is all there is.
    pub fn fresh(stream: S) -> (r: Self)
        ensures
            r.stream == stream,
            r@ == seq![2u64],
    {
        Region { stream, table: SectorTable::fresh() }
    }

    /// The region of an existing file, from its header entries (see
    /// `SectorTable::from_locations`).
    pub fn from_locations(stream: S, locations: &Vec<Option<ChunkLocation>>) -> (r: Self)
        requires
            farthest(locations@, locations.len() as int).0 + farthest(
                locations@,
                locations.len() as int,
            ).1 <= u64::MAX,
        ensures
            r.stream == stream,
            r@.len() >= 1,
            sorted(r@),
            sorted(r@.drop_last()),
            r@.drop_last().to_multiset() == located_offsets(
                locations@,
                locations.len() as int,
            ).to_multiset(),
            r@.last() == farthest(locations@, locations.len() as int).0 + farthest(
                locations@,
                locations.len() as int,
            ).1,
    {
        Region { stream, table: SectorTable::from_locations(locations) }
    }
}
} // verus!
