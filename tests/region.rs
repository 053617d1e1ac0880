use std::io::Write;

use fastanvil::{
    Builder, CCoord, Chunk, ChunkLocation, ChunkMeta, CompressionScheme, Error, HeightMode,
    IoError, Region, RegionBuffer,
};

struct RawChunk(Vec<u8>);

impl Chunk for RawChunk {
    type Biome = u8;
    type Block = u8;

    fn from_bytes(data: &[u8]) -> Option<Self> {
        Some(RawChunk(data.to_vec()))
    }

    fn status(&self) -> String {
        "full".to_string()
    }

    fn surface_height(&self, _x: usize, _z: usize, _mode: HeightMode) -> isize {
        0
    }

    fn biome(&self, _x: usize, _y: isize, _z: usize) -> Option<u8> {
        None
    }

    fn block(&self, _x: usize, _y: isize, _z: usize) -> Option<&u8> {
        self.0.first()
    }

    fn y_range(&self) -> std::ops::Range<isize> {
        0..16
    }
}

fn zlib(data: &[u8]) -> Vec<u8> {
    let mut enc = flate2::write::ZlibEncoder::new(Vec::new(), flate2::Compression::default());
    enc.write_all(data).unwrap();
    enc.finish().unwrap()
}

/// A region with one table entry per slot, each pointing at a payload
/// stored with the given tag.
fn region_with(entries: &[(usize, usize, u32, u8)], payloads: &[(u32, u8, Vec<u8>)]) -> Vec<u8> {
    let mut data = vec![0u8; 8192];
    for &(x, z, off, count) in entries {
        let p = 4 * (x + z * 32);
        data[p] = (off >> 16) as u8;
        data[p + 1] = (off >> 8) as u8;
        data[p + 2] = off as u8;
        data[p + 3] = count;
    }
    for (sector, tag, payload) in payloads {
        let start = *sector as usize * 4096;
        let end = start + 5 + payload.len();
        let padded = (end + 4095) / 4096 * 4096;
        if data.len() < padded {
            data.resize(padded, 0);
        }
        let len = (payload.len() + 1) as u32;
        data[start..start + 4].copy_from_slice(&len.to_be_bytes());
        data[start + 4] = *tag;
        data[start + 5..end].copy_from_slice(payload);
    }
    data
}

#[test]
fn invalid_offset() {
    let r = Builder::new().location(2, 1).build();
    let r = RegionBuffer::new(r);
    match r.chunk_location(32, 32) {
        Err(Error::InvalidOffset(32, 32)) => {}
        _ => panic!("should error"),
    }
}

#[test]
fn invalid_offset_only_in_x() {
    let r = Builder::new().location(2, 1).build();
    let r = RegionBuffer::new(r);
    match r.chunk_location(32, 0) {
        Err(Error::InvalidOffset(32, 0)) => {}
        _ => panic!("should error"),
    }
}

#[test]
fn invalid_offset_only_in_z() {
    let r = Builder::new().location(2, 1).build();
    let r = RegionBuffer::new(r);
    match r.chunk_location(0, 32) {
        Err(Error::InvalidOffset(0, 32)) => {}
        _ => panic!("should error"),
    }
}

#[test]
fn offset_beyond_data_given() {
    let r = Builder::new().location(2, 1).build_unpadded();
    let r = RegionBuffer::new(r);
    match r.chunk_location(1, 0) {
        Err(Error::IO(IoError::UnexpectedEof)) => {}
        o => panic!("should error {:?}", o),
    }
}

#[test]
fn first_location() -> Result<(), Error> {
    let r = Builder::new().location(2, 1).build();
    let r = RegionBuffer::new(r);

    assert_eq!(
        ChunkLocation {
            begin_sector: 2,
            sector_count: 1,
            x: 0,
            z: 0
        },
        r.chunk_location(0, 0)?
    );
    Ok(())
}

#[test]
fn every_slot_reads_back_its_entry() {
    let mut b = Builder::new();
    for i in 0..1024u32 {
        b = b.location(i * 7919 % 0x100_0000, (i % 256) as u8);
    }
    let r = RegionBuffer::new(b.build());
    for z in 0..32usize {
        for x in 0..32usize {
            let i = (x + z * 32) as u32;
            let loc = r.chunk_location(x, z).unwrap();
            assert_eq!(
                loc,
                ChunkLocation {
                    begin_sector: (i * 7919 % 0x100_0000) as usize,
                    sector_count: (i % 256) as usize,
                    x,
                    z
                }
            );
        }
    }
}

#[test]
fn largest_offset_reads_back() {
    let r = RegionBuffer::new(Builder::new().location(0xFF_FFFF, 255).build());
    let loc = r.chunk_location(0, 0).unwrap();
    assert_eq!(loc.begin_sector, 0xFF_FFFF);
    assert_eq!(loc.sector_count, 255);
}

#[test]
fn builder_pads_to_whole_sectors() {
    assert_eq!(Builder::new().location(2, 1).build().len(), 4096);
    assert_eq!(Builder::new().build().len(), 4096);
    assert_eq!(Builder::new().location(2, 1).build_unpadded(), vec![0, 0, 2, 1]);
}

#[test]
fn large_coordinates_are_invalid() {
    let r = RegionBuffer::new(Builder::new().build());
    match r.chunk_location(100, 5) {
        Err(Error::InvalidOffset(100, 5)) => {}
        o => panic!("unexpected {:?}", o),
    }
    match r.load_chunk(5, 40) {
        Err(Error::InvalidOffset(5, 40)) => {}
        o => panic!("unexpected {:?}", o),
    }
}

#[test]
fn empty_slot_is_not_found() {
    let data = region_with(&[(1, 0, 2, 1)], &[(2, 2, zlib(b"hello"))]);
    let r = RegionBuffer::new(data);
    match r.load_raw_chunk_at(0, 0) {
        Err(Error::ChunkNotFound) => {}
        o => panic!("unexpected {:?}", o),
    }
    match r.load_chunk(0, 0) {
        Err(Error::ChunkNotFound) => {}
        o => panic!("unexpected {:?}", o),
    }
    let c: Option<RawChunk> = r.chunk(CCoord(0), CCoord(0));
    assert!(c.is_none());
    let c: Option<RawChunk> = r.chunk(CCoord(1), CCoord(0));
    assert_eq!(c.unwrap().0, b"hello".to_vec());
}

#[test]
fn chunk_outside_region_is_unavailable() {
    let data = region_with(&[(0, 0, 2, 1)], &[(2, 2, zlib(b"x"))]);
    let r = RegionBuffer::new(data);
    let c: Option<RawChunk> = r.chunk(CCoord(-1), CCoord(0));
    assert!(c.is_none());
    let c: Option<RawChunk> = r.chunk(CCoord(0), CCoord(32));
    assert!(c.is_none());
}

#[test]
fn zlib_chunk_round_trips() {
    let plain: Vec<u8> = (0..10_000u32).map(|i| (i * 31 % 251) as u8).collect();
    let data = region_with(&[(3, 4, 2, 3)], &[(2, 2, zlib(&plain))]);
    let r = RegionBuffer::new(data);
    assert_eq!(r.load_chunk(3, 4).unwrap(), plain);
    let raw = r.load_raw_chunk_at(3, 4).unwrap();
    assert_eq!(raw[4], 2);
    assert_eq!(raw.len(), 5 + zlib(&plain).len());
}

#[test]
fn truncated_payload_is_an_io_error() {
    let mut data = region_with(&[(0, 0, 2, 1)], &[]);
    data.resize(3 * 4096, 0);
    data[8192..8196].copy_from_slice(&100u32.to_be_bytes());
    data[8196] = 2;
    data.truncate(8192 + 50);
    let r = RegionBuffer::new(data);
    match r.load_raw_chunk_at(0, 0) {
        Err(Error::IO(IoError::UnexpectedEof)) => {}
        o => panic!("unexpected {:?}", o),
    }
}

#[test]
fn sector_beyond_data_is_an_io_error() {
    let data = region_with(&[(0, 0, 9, 1)], &[]);
    let r = RegionBuffer::new(data);
    match r.load_chunk(0, 0) {
        Err(Error::IO(IoError::UnexpectedEof)) => {}
        o => panic!("unexpected {:?}", o),
    }
}

#[test]
fn corrupt_zlib_stream_is_an_io_error() {
    let data = region_with(&[(0, 0, 2, 1)], &[(2, 2, vec![1, 2, 3, 4, 5, 6])]);
    let r = RegionBuffer::new(data);
    match r.load_chunk(0, 0) {
        Err(Error::IO(IoError::Other(_))) => {}
        o => panic!("unexpected {:?}", o),
    }
}

#[test]
fn unknown_scheme_is_invalid_meta() {
    match ChunkMeta::new(&[0, 0, 0, 10, 9]) {
        Err(Error::InvalidChunkMeta) => {}
        o => panic!("unexpected {:?}", o),
    }
    let data = region_with(&[(0, 0, 2, 1)], &[(2, 9, vec![1, 2, 3])]);
    let r = RegionBuffer::new(data);
    match r.load_raw_chunk_at(0, 0) {
        Err(Error::InvalidChunkMeta) => {}
        o => panic!("unexpected {:?}", o),
    }
}

#[test]
fn gzip_and_uncompressed_are_unsupported() {
    for tag in [1u8, 3u8] {
        let data = region_with(&[(0, 0, 2, 1)], &[(2, tag, vec![1, 2, 3])]);
        let r = RegionBuffer::new(data);
        match r.load_chunk(0, 0) {
            Err(Error::UnsupportedCompression) => {}
            o => panic!("unexpected {:?}", o),
        }
    }
}

#[test]
fn chunk_meta_fields() {
    let m = ChunkMeta::new(&[0, 0, 1, 0, 2, 99]).unwrap();
    assert_eq!(m.compressed_len, 255);
    assert_eq!(m.compression_scheme, CompressionScheme::Zlib);
    let m = ChunkMeta::new(&[0, 0, 0, 1, 1]).unwrap();
    assert_eq!(m.compressed_len, 0);
    assert_eq!(m.compression_scheme, CompressionScheme::Gzip);
    assert_eq!(CompressionScheme::from_tag(3), Some(CompressionScheme::Uncompressed));
    assert_eq!(CompressionScheme::from_tag(0), None);
}

#[test]
fn short_meta_is_insufficient_data() {
    match ChunkMeta::new(&[0, 0, 0, 1]) {
        Err(Error::InsufficientData) => {}
        o => panic!("unexpected {:?}", o),
    }
}

#[test]
fn zero_length_meta_is_invalid() {
    match ChunkMeta::new(&[0, 0, 0, 0, 2]) {
        Err(Error::InvalidChunkMeta) => {}
        o => panic!("unexpected {:?}", o),
    }
}

#[test]
fn for_each_chunk_visits_each_occupied_slot_once() {
    // physical order reversed relative to slot order
    let slots = [(0usize, 0usize), (5, 1), (31, 31), (7, 30)];
    let mut entries = Vec::new();
    let mut payloads = Vec::new();
    for (i, &(x, z)) in slots.iter().enumerate() {
        let sector = 2 + 2 * (slots.len() - i) as u32;
        entries.push((x, z, sector, 1u8));
        payloads.push((sector, 2u8, zlib(format!("chunk {} {}", x, z).as_bytes())));
    }
    // a slot with a count but no offset is not occupied
    entries.push((9, 9, 0, 3));
    let mut r = RegionBuffer::new(region_with(&entries, &payloads));
    let mut seen = Vec::new();
    r.for_each_chunk(|x, z, data| seen.push((x, z, data.clone())))
        .unwrap();
    assert_eq!(seen.len(), slots.len());
    for &(x, z) in slots.iter() {
        let hits: Vec<_> = seen.iter().filter(|s| s.0 == x && s.1 == z).collect();
        assert_eq!(hits.len(), 1);
        assert_eq!(hits[0].2, format!("chunk {} {}", x, z).into_bytes());
    }
    let locs = r.occupied_locations().unwrap();
    assert_eq!(locs.len(), slots.len());
}

#[test]
fn for_each_chunk_stops_at_first_failure() {
    let data = region_with(
        &[(0, 0, 3, 1), (0, 1, 2, 1)],
        &[(3, 2, zlib(b"ok")), (2, 1, vec![1])],
    );
    let mut r = RegionBuffer::new(data);
    let mut count = 0;
    match r.for_each_chunk(|_, _, _| count += 1) {
        Err(Error::UnsupportedCompression) => {}
        o => panic!("unexpected {:?}", o),
    }
    assert_eq!(count, 1);
}

#[test]
fn for_each_chunk_on_short_table_fails() {
    let mut r = RegionBuffer::new(vec![0u8; 100]);
    match r.for_each_chunk(|_, _, _| {}) {
        Err(Error::IO(IoError::UnexpectedEof)) => {}
        o => panic!("unexpected {:?}", o),
    }
}

#[test]
fn empty_region_visits_nothing() {
    let mut r = RegionBuffer::new(Builder::new().build());
    let mut count = 0;
    r.for_each_chunk(|_, _, _| count += 1).unwrap();
    assert_eq!(count, 0);
}

#[test]
fn error_messages() {
    assert_eq!(
        Error::InvalidOffset(32, 7).message(),
        "invalid offset: x = 32, z = 7"
    );
    assert_eq!(Error::ChunkNotFound.message(), "chunk not found in region");
    assert_eq!(
        Error::InsufficientData.message(),
        "insufficient data to parse chunk metadata"
    );
    assert_eq!(
        Error::IO(IoError::Other("bad".to_string())).message(),
        "io error: bad"
    );
    assert_eq!(
        Error::UnsupportedCompression.message(),
        "compression scheme is not supported for chunk"
    );
}

#[test]
fn scan_order_descends_by_first_sector() {
    let entries = [(0usize, 0usize, 2u32, 1u8), (1, 0, 9, 1), (0, 1, 5, 1), (3, 3, 7, 1)];
    let r = RegionBuffer::new(region_with(&entries, &[]));
    let order = r.scan_order().unwrap();
    let sectors: Vec<usize> = order.iter().map(|l| l.begin_sector).collect();
    assert_eq!(sectors, vec![9, 7, 5, 2]);
    assert_eq!((order[0].x, order[0].z), (1, 0));
    let slots = r.occupied_locations().unwrap();
    let keys: Vec<(usize, usize)> = slots.iter().map(|l| (l.x, l.z)).collect();
    assert_eq!(keys, vec![(0, 0), (0, 1), (1, 0), (3, 3)]);
}
