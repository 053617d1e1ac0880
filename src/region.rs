use vstd::prelude::*;

use vstd::slice::{slice_subrange, slice_to_vec};

use crate::dimension::{CCoord, Chunk, Region};
use crate::error::{Error, IoError};
use crate::inflate::{inflate_zlib, zlib_inflate};
use crate::meta::{be_u32, meta_of, ChunkMeta, CompressionScheme};

verus! {

/// The size in bytes of a sector, the unit in which chunk data is allocated.
pub const SECTOR_SIZE: usize = 4096;

/// The size in bytes of the sector table at the start of a region.
pub const HEADER_SIZE: usize = 8192;

/// Where a chunk's data lies in a region, in sectors, and which slot it is.
#[derive(Debug, Clone, Copy, PartialEq, Eq, Structural)]
pub struct ChunkLocation {
    pub begin_sector: usize,
    pub sector_count: usize,
    pub x: usize,
    pub z: usize,
}

impl ChunkLocation {
    /// A slot whose offset or count is zero holds no chunk.
    pub open spec fn occupied(self) -> bool {
        self.begin_sector != 0 && self.sector_count != 0
    }
}

/// Byte position of the sector table entry of slot `(x, z)`.
pub open spec fn entry_pos(x: int, z: int) -> int {
    4 * ((x % 32) + (z % 32) * 32)
}

/// The three-byte big-endian sector offset starting at `p`.
pub open spec fn be_u24_at(d: Seq<u8>, p: int) -> int {
    d[p] * 0x1_0000 + d[p + 1] * 0x100 + d[p + 2]
}

/// What looking up slot `(x, z)` in the sector table of `d` gives.
pub open spec fn location_of(d: Seq<u8>, x: usize, z: usize) -> Result<ChunkLocation, Error> {
    if x >= 32 || z >= 32 {
        Err(Error::InvalidOffset(x, z))
    } else if d.len() < entry_pos(x as int, z as int) + 4 {
        Err(Error::IO(IoError::UnexpectedEof))
    } else {
        let p = entry_pos(x as int, z as int);
        Ok(
            ChunkLocation {
                begin_sector: be_u24_at(d, p) as usize,
                sector_count: d[p + 3] as usize,
                x,
                z,
            },
        )
    }
}

/// The compressed bytes (meta prefix included) of the chunk in slot `(x, z)`.
pub open spec fn raw_chunk_of(d: Seq<u8>, x: usize, z: usize) -> Result<Seq<u8>, Error> {
    match location_of(d, x, z) {
        Err(e) => Err(e),
        Ok(loc) => {
            if !loc.occupied() {
                Err(Error::ChunkNotFound)
            } else {
                let start = loc.begin_sector * 4096;
                if d.len() < start + 5 {
                    Err(Error::IO(IoError::UnexpectedEof))
                } else {
                    match meta_of(d.subrange(start, start + 5)) {
                        Err(e) => Err(e),
                        Ok(m) => {
                            let end = start + 5 + m.compressed_len;
                            if d.len() < end {
                                Err(Error::IO(IoError::UnexpectedEof))
                            } else {
                                Ok(d.subrange(start, end))
                            }
                        },
                    }
                }
            }
        },
    }
}

/// `r` is what decompressing the raw chunk `raw` may give: the meta error,
/// the refusal of a scheme other than zlib, or the outcome of inflating.
pub open spec fn decompressed(raw: Seq<u8>, r: Result<Vec<u8>, Error>) -> bool {
    match meta_of(raw) {
        Err(e) => r == Err::<Vec<u8>, Error>(e),
        Ok(m) => {
            if m.compression_scheme != CompressionScheme::Zlib {
                r == Err::<Vec<u8>, Error>(Error::UnsupportedCompression)
            } else {
                match zlib_inflate(raw.subrange(5, raw.len() as int)) {
                    Some(out) => r is Ok && r->Ok_0@ == out,
                    None => r is Err && r->Err_0 is IO,
                }
            }
        },
    }
}

/// `r` is what loading the chunk in slot `(x, z)` of `d` may give.
pub open spec fn loaded(d: Seq<u8>, x: usize, z: usize, r: Result<Vec<u8>, Error>) -> bool {
    match raw_chunk_of(d, x, z) {
        Err(e) => r == Err::<Vec<u8>, Error>(e),
        Ok(raw) => decompressed(raw, r),
    }
}

/// The decompressed payload of the chunk in slot `(x, z)`, where loading it
/// succeeds.
pub open spec fn chunk_payload(d: Seq<u8>, x: usize, z: usize) -> Option<Seq<u8>> {
    match raw_chunk_of(d, x, z) {
        Err(_) => None,
        Ok(raw) => match meta_of(raw) {
            Ok(m) => {
                if m.compression_scheme == CompressionScheme::Zlib {
                    zlib_inflate(raw.subrange(5, raw.len() as int))
                } else {
                    None
                }
            },
            Err(_) => None,
        },
    }
}

/// Every occupied slot of `d` holds a chunk that loads.
pub open spec fn all_chunks_load(d: Seq<u8>) -> bool {
    forall|x: usize, z: usize|
        x < 32 && z < 32 && (#[trigger] location_of(d, x, z))->Ok_0.occupied() ==> chunk_payload(
            d,
            x,
            z,
        ) is Some
}

/// `v` is ordered by descending first sector.
pub open spec fn by_descending_sector(v: Seq<ChunkLocation>) -> bool {
    forall|a: int, b: int| 0 <= a < b < v.len() ==> v[a].begin_sector >= v[b].begin_sector
}

/// No two entries of `v` are for the same slot.
pub open spec fn slots_distinct(v: Seq<ChunkLocation>) -> bool {
    forall|a: int, b: int| 0 <= a < b < v.len() ==> slot_key(v[a]) != slot_key(v[b])
}

proof fn lemma_insert_by_sector(v: Seq<ChunkLocation>, p: int, loc: ChunkLocation)
    requires
        0 <= p <= v.len(),
        by_descending_sector(v),
        slots_distinct(v),
        forall|k: int| 0 <= k < p ==> v[k].begin_sector >= loc.begin_sector,
        p < v.len() ==> v[p].begin_sector < loc.begin_sector,
        !v.contains(loc),
        forall|k: int| 0 <= k < v.len() ==> slot_key(#[trigger] v[k]) != slot_key(loc),
    ensures
        by_descending_sector(v.insert(p, loc)),
        slots_distinct(v.insert(p, loc)),
        forall|c: ChunkLocation| v.insert(p, loc).contains(c) <==> (v.contains(c) || c == loc),
{
    let w = v.insert(p, loc);
    v.insert_ensures(p, loc);
    assert forall|a: int, b: int| 0 <= a < b < w.len() implies w[a].begin_sector
        >= w[b].begin_sector && slot_key(w[a]) != slot_key(w[b]) by {
        if b < p {
        } else if b == p {
        } else if a < p {
            assert(w[b] == v[b - 1]);
        } else if a == p {
            assert(w[b] == v[b - 1]);
            assert(v[p].begin_sector >= v[b - 1].begin_sector);
        } else {
            assert(w[a] == v[a - 1] && w[b] == v[b - 1]);
        }
    }
    assert forall|c: ChunkLocation| w.contains(c) <==> (v.contains(c) || c == loc) by {
        if w.contains(c) {
            let k = choose|k: int| 0 <= k < w.len() && w[k] == c;
            if k > p {
                assert(v[k - 1] == c);
            }
        }
        if v.contains(c) {
            let k = choose|k: int| 0 <= k < v.len() && v[k] == c;
            if k < p {
                assert(w[k] == c);
            } else {
                assert(w[k + 1] == c);
            }
        }
        if c == loc {
            assert(w[p] == c);
        }
    }
}

/// Orders locations by descending first sector.
fn sort_by_descending_sector(locs: &Vec<ChunkLocation>) -> (r: Vec<ChunkLocation>)
    requires
        slots_distinct(locs@),
    ensures
        by_descending_sector(r@),
        slots_distinct(r@),
        forall|c: ChunkLocation| r@.contains(c) <==> locs@.contains(c),
{
    let mut sorted: Vec<ChunkLocation> = Vec::new();
    let mut i: usize = 0;
    while i < locs.len()
        invariant
            0 <= i <= locs@.len(),
            slots_distinct(locs@),
            by_descending_sector(sorted@),
            slots_distinct(sorted@),
            forall|c: ChunkLocation|
                sorted@.contains(c) <==> locs@.subrange(0, i as int).contains(c),
        decreases locs@.len() - i,
    {
        let loc = locs[i];
        let mut p: usize = 0;
        while p < sorted.len() && sorted[p].begin_sector >= loc.begin_sector
            invariant
                0 <= p <= sorted@.len(),
                forall|k: int| 0 <= k < p ==> sorted@[k].begin_sector >= loc.begin_sector,
            decreases sorted@.len() - p,
        {
            p = p + 1;
        }
        proof {
            assert forall|k: int| 0 <= k < sorted@.len() implies slot_key(#[trigger] sorted@[k])
                != slot_key(loc) by {
                assert(sorted@.contains(sorted@[k]));
                let j = choose|j: int|
                    0 <= j < i && #[trigger] locs@.subrange(0, i as int)[j] == sorted@[k];
                assert(locs@[j] == sorted@[k]);
            }
            if sorted@.contains(loc) {
                let k = choose|k: int| 0 <= k < sorted@.len() && sorted@[k] == loc;
                assert(slot_key(sorted@[k]) != slot_key(loc));
            }
            lemma_insert_by_sector(sorted@, p as int, loc);
            assert forall|c: ChunkLocation|
                locs@.subrange(0, i + 1).contains(c) <==> (locs@.subrange(0, i as int).contains(c)
                    || c == loc) by {
                if locs@.subrange(0, i + 1).contains(c) {
                    let j = choose|j: int|
                        0 <= j < i + 1 && #[trigger] locs@.subrange(0, i + 1)[j] == c;
                    if j < i {
                        assert(locs@.subrange(0, i as int)[j] == c);
                    }
                }
                if locs@.subrange(0, i as int).contains(c) {
                    let j = choose|j: int|
                        0 <= j < i && #[trigger] locs@.subrange(0, i as int)[j] == c;
                    assert(locs@.subrange(0, i + 1)[j] == c);
                }
                if c == loc {
                    assert(locs@.subrange(0, i + 1)[i as int] == c);
                }
            }
        }
        let ghost before = sorted@;
        sorted.insert(p, loc);
        proof {
            assert forall|c: ChunkLocation|
                sorted@.contains(c) <==> locs@.subrange(0, i + 1).contains(c) by {
                assert(sorted@.contains(c) <==> (before.contains(c) || c == loc));
                assert(before.contains(c) <==> locs@.subrange(0, i as int).contains(c));
            }
        }
        i = i + 1;
    }
    assert(locs@.subrange(0, locs@.len() as int) =~= locs@);
    sorted
}

/// `v` is an order in which to visit the chunks of `d`: every occupied slot
/// once, by descending first sector, and nothing else.
#[verifier::opaque]
pub open spec fn is_scan_order(d: Seq<u8>, v: Seq<ChunkLocation>) -> bool {
    &&& forall|i: int|
        0 <= i < v.len() ==> v[i].occupied() && location_of(d, v[i].x, v[i].z) == Ok::<
            ChunkLocation,
            Error,
        >(v[i])
    &&& by_descending_sector(v)
    &&& slots_distinct(v)
    &&& forall|x: usize, z: usize|
        x < 32 && z < 32 && (#[trigger] location_of(d, x, z))->Ok_0.occupied() ==> exists|i: int|
            0 <= i < v.len() && v[i].x == x && v[i].z == z
}

/// `f` has been called on slot `(x, z)` with the slot's decompressed payload.
pub open spec fn visited<F: FnMut(usize, usize, &Vec<u8>)>(
    f: F,
    d: Seq<u8>,
    x: usize,
    z: usize,
) -> bool {
    exists|c: &Vec<u8>| c@ == chunk_payload(d, x, z)->Some_0 && f.ensures((x, z, c), ())
}

/// Scanning `d` in the order `v` called `f` on the first `k` chunks, each
/// with its payload, and then stopped at chunk `k`, whose loading fails with `e`.
#[verifier::opaque]
pub open spec fn stopped_at<F: FnMut(usize, usize, &Vec<u8>)>(
    f: F,
    d: Seq<u8>,
    v: Seq<ChunkLocation>,
    k: int,
    e: Error,
) -> bool {
    &&& is_scan_order(d, v)
    &&& 0 <= k < v.len()
    &&& forall|j: int|
        0 <= j < k ==> chunk_payload(d, v[j].x, v[j].z) is Some && visited(f, d, v[j].x, v[j].z)
    &&& loaded(d, v[k].x, v[k].z, Err::<Vec<u8>, Error>(e))
}

/// Inflates a raw chunk (meta prefix followed by payload).
fn decompress_chunk(data: &[u8]) -> (r: Result<Vec<u8>, Error>)
    ensures
        decompressed(data@, r),
{
    let meta = match ChunkMeta::new(data) {
        Ok(m) => m,
        Err(e) => return Err(e),
    };
    match meta.compression_scheme {
        CompressionScheme::Zlib => {
            let payload = slice_subrange(data, 5, data.len());
            match inflate_zlib(payload) {
                Ok(out) => Ok(out),
                Err(msg) => Err(Error::IO(IoError::Other(msg))),
            }
        },
        _ => Err(Error::UnsupportedCompression),
    }
}


/// A region whose backing data is held in memory: the whole region file,
/// read by the caller. Every lookup reads its bytes at the positions the
/// sector table gives, so random access needs no seekable reader and no
/// lock; the cost is holding the file in memory. Decodes the sector table
/// and hands out chunk payloads, decompressed.
pub struct RegionBuffer {
    data: Vec<u8>,
}

impl View for RegionBuffer {
    type V = Seq<u8>;

    closed spec fn view(&self) -> Seq<u8> {
        self.data@
    }
}

/// The position of a location's slot in scanning order, `x` major.
pub open spec fn slot_key(loc: ChunkLocation) -> int {
    loc.x * 32 + loc.z
}

impl RegionBuffer {
    /// A region over the whole contents of a region file.
    pub fn new(data: Vec<u8>) -> (r: RegionBuffer)
        ensures
            r@ == data@,
    {
        RegionBuffer { data }
    }

    /// Looks up the region-relative chunk `(x, z)` in the sector table.
    pub fn chunk_location(&self, x: usize, z: usize) -> (r: Result<ChunkLocation, Error>)
        ensures
            r == location_of(self@, x, z),
            r is Ok ==> r->Ok_0.begin_sector < 0x100_0000 && r->Ok_0.sector_count < 0x100,
    {
        if x >= 32 || z >= 32 {
            return Err(Error::InvalidOffset(x, z));
        }
        let pos: usize = 4 * ((x % 32) + (z % 32) * 32);
        if self.data.len() < pos + 4 {
            return Err(Error::IO(IoError::UnexpectedEof));
        }
        let off: usize = (self.data[pos] as usize) * 0x1_0000 + (self.data[pos + 1] as usize) * 0x100
            + (self.data[pos + 2] as usize);
        let count: usize = self.data[pos + 3] as usize;
        Ok(ChunkLocation { begin_sector: off, sector_count: count, x, z })
    }

    /// The compressed bytes of chunk `(x, z)`, its five-byte meta prefix first.
    pub fn load_raw_chunk_at(&self, x: usize, z: usize) -> (r: Result<Vec<u8>, Error>)
        ensures
            match raw_chunk_of(self@, x, z) {
                Ok(raw) => r is Ok && r->Ok_0@ == raw,
                Err(e) => r == Err::<Vec<u8>, Error>(e),
            },
    {
        let loc = match self.chunk_location(x, z) {
            Ok(l) => l,
            Err(e) => return Err(e),
        };
        if !(loc.begin_sector != 0 && loc.sector_count != 0) {
            return Err(Error::ChunkNotFound);
        }
        let len = self.data.len() as u64;
        let start = loc.begin_sector as u64 * SECTOR_SIZE as u64;
        if len < start + 5 {
            return Err(Error::IO(IoError::UnexpectedEof));
        }
        let start = start as usize;
        let meta = match ChunkMeta::new(slice_subrange(self.data.as_slice(), start, start + 5)) {
            Ok(m) => m,
            Err(e) => return Err(e),
        };
        let end = start as u64 + 5 + meta.compressed_len as u64;
        if len < end {
            return Err(Error::IO(IoError::UnexpectedEof));
        }
        Ok(slice_to_vec(slice_subrange(self.data.as_slice(), start, end as usize)))
    }

    /// The locations of all occupied slots, each once, in slot order
    /// (`x` major, `z` minor). Fails only where the sector table is cut short.
    pub fn occupied_locations(&self) -> (r: Result<Vec<ChunkLocation>, Error>)
        ensures
            r is Ok <==> self@.len() >= 4096,
            r is Err ==> r == Err::<Vec<ChunkLocation>, Error>(Error::IO(IoError::UnexpectedEof)),
            r is Ok ==> {
                let v = r->Ok_0@;
                &&& forall|i: int|
                    0 <= i < v.len() ==> v[i].occupied() && location_of(self@, v[i].x, v[i].z) == Ok::<
                        ChunkLocation,
                        Error,
                    >(v[i])
                &&& forall|i: int, j: int| 0 <= i < j < v.len() ==> slot_key(v[i]) < slot_key(v[j])
                &&& forall|x: usize, z: usize|
                    x < 32 && z < 32 && (#[trigger] location_of(self@, x, z))->Ok_0.occupied() ==> exists|
                        i: int,
                    |
                        0 <= i < v.len() && v[i].x == x && v[i].z == z
            },
    {
        if self.data.len() < SECTOR_SIZE {
            return Err(Error::IO(IoError::UnexpectedEof));
        }
        let mut out: Vec<ChunkLocation> = Vec::new();
        let mut x: usize = 0;
        while x < 32
            invariant
                0 <= x <= 32,
                self@.len() >= 4096,
                forall|i: int|
                    0 <= i < out@.len() ==> out@[i].occupied() && location_of(
                        self@,
                        out@[i].x,
                        out@[i].z,
                    ) == Ok::<ChunkLocation, Error>(out@[i]) && slot_key(out@[i]) < x * 32,
                forall|i: int, j: int|
                    0 <= i < j < out@.len() ==> slot_key(out@[i]) < slot_key(out@[j]),
                forall|a: usize, b: usize|
                    a < x && b < 32 && (#[trigger] location_of(self@, a, b))->Ok_0.occupied()
                        ==> exists|i: int| 0 <= i < out@.len() && out@[i].x == a && out@[i].z == b,
            decreases 32 - x,
        {
            let mut z: usize = 0;
            while z < 32
                invariant
                    0 <= x < 32,
                    0 <= z <= 32,
                    self@.len() >= 4096,
                    forall|i: int|
                        0 <= i < out@.len() ==> out@[i].occupied() && location_of(
                            self@,
                            out@[i].x,
                            out@[i].z,
                        ) == Ok::<ChunkLocation, Error>(out@[i]) && slot_key(out@[i]) < x * 32 + z,
                    forall|i: int, j: int|
                        0 <= i < j < out@.len() ==> slot_key(out@[i]) < slot_key(out@[j]),
                    forall|a: usize, b: usize|
                        (a < x && b < 32 || a == x && b < z) && (#[trigger] location_of(
                            self@,
                            a,
                            b,
                        ))->Ok_0.occupied() ==> exists|i: int|
                            0 <= i < out@.len() && out@[i].x == a && out@[i].z == b,
                decreases 32 - z,
            {
                let loc = match self.chunk_location(x, z) {
                    Ok(l) => l,
                    Err(e) => return Err(e),
                };
                let ghost before = out@;
                if loc.begin_sector != 0 && loc.sector_count != 0 {
                    out.push(loc);
                }
                proof {
                    assert forall|a: usize, b: usize|
                        (a < x && b < 32 || a == x && b < z + 1) && (#[trigger] location_of(
                            self@,
                            a,
                            b,
                        ))->Ok_0.occupied() implies exists|i: int|
                        0 <= i < out@.len() && out@[i].x == a && out@[i].z == b by {
                        if a == x && b == z {
                            assert(out@[out@.len() - 1].x == a && out@[out@.len() - 1].z == b);
                        } else {
                            let i = choose|i: int|
                                0 <= i < before.len() && before[i].x == a && before[i].z == b;
                            assert(out@[i] == before[i]);
                        }
                    }
                }
                z = z + 1;
            }
            x = x + 1;
        }
        Ok(out)
    }

    /// The locations of all occupied slots, each once, by descending first
    /// sector, so that reading them in turn moves through the data in one
    /// direction. Fails only where the sector table is cut short.
    pub fn scan_order(&self) -> (r: Result<Vec<ChunkLocation>, Error>)
        ensures
            r is Ok <==> self@.len() >= 4096,
            r is Err ==> r == Err::<Vec<ChunkLocation>, Error>(Error::IO(IoError::UnexpectedEof)),
            r is Ok ==> is_scan_order(self@, r->Ok_0@),
    {
        let locs = match self.occupied_locations() {
            Ok(v) => v,
            Err(e) => return Err(e),
        };
        let sorted = sort_by_descending_sector(&locs);
        proof {
            assert forall|i: int| 0 <= i < sorted@.len() implies #[trigger] sorted@[i].occupied()
                && location_of(self@, sorted@[i].x, sorted@[i].z) == Ok::<ChunkLocation, Error>(
                sorted@[i],
            ) by {
                assert(sorted@.contains(sorted@[i]));
                let j = choose|j: int| 0 <= j < locs@.len() && locs@[j] == sorted@[i];
            }
            assert forall|x: usize, z: usize|
                x < 32 && z < 32 && (#[trigger] location_of(self@, x, z))->Ok_0.occupied() implies exists|
                i: int,
            | 0 <= i < sorted@.len() && sorted@[i].x == x && sorted@[i].z == z by {
                let j = choose|j: int| 0 <= j < locs@.len() && locs@[j].x == x && locs@[j].z == z;
                assert(locs@.contains(locs@[j]));
                let i = choose|i: int| 0 <= i < sorted@.len() && sorted@[i] == locs@[j];
            }
            reveal(is_scan_order);
        }
        Ok(sorted)
    }

    /// Calls `f(x, z, payload)` with the decompressed payload of every
    /// occupied slot, once each, in the order of `scan_order`. Stops at the
    /// first chunk that fails to load and returns its error; where the
    /// sector table is cut short, fails before any call.
    pub fn for_each_chunk<F: FnMut(usize, usize, &Vec<u8>)>(&mut self, f: F) -> (r: Result<
        (),
        Error,
    >)
        requires
            forall|x: usize, z: usize, d: &Vec<u8>|
                old(self)@.len() >= 4096 && x < 32 && z < 32 && location_of(old(self)@, x, z)->Ok_0.occupied()
                    && chunk_payload(old(self)@, x, z) is Some && d@ == chunk_payload(
                    old(self)@,
                    x,
                    z,
                )->Some_0 ==> #[trigger] f.requires((x, z, d)),
        ensures
            final(self)@ == old(self)@,
            r is Ok <==> old(self)@.len() >= 4096 && all_chunks_load(old(self)@),
            old(self)@.len() < 4096 ==> r == Err::<(), Error>(Error::IO(IoError::UnexpectedEof)),
            r is Ok ==> forall|x: usize, z: usize|
                x < 32 && z < 32 && (#[trigger] location_of(old(self)@, x, z))->Ok_0.occupied()
                    ==> visited(f, old(self)@, x, z),
            r is Err && old(self)@.len() >= 4096 ==> exists|v: Seq<ChunkLocation>, k: int|
                #[trigger] stopped_at(f, old(self)@, v, k, r->Err_0),
    {
        let locs = match self.scan_order() {
            Ok(v) => v,
            Err(e) => return Err(e),
        };
        let ghost f0 = f;
        let mut g = f;
        proof {
            reveal(is_scan_order);
        }
        let mut i: usize = 0;
        while i < locs.len()
            invariant
                0 <= i <= locs@.len(),
                self@ == old(self)@,
                self@.len() >= 4096,
                forall|x: usize, z: usize, d: &Vec<u8>|
                    self@.len() >= 4096 && x < 32 && z < 32 && location_of(self@, x, z)->Ok_0.occupied()
                        && chunk_payload(self@, x, z) is Some && d@ == chunk_payload(
                        self@,
                        x,
                        z,
                    )->Some_0 ==> #[trigger] g.requires((x, z, d)),
                is_scan_order(self@, locs@),
                forall|j: int|
                    0 <= j < i ==> chunk_payload(self@, locs@[j].x, locs@[j].z) is Some && visited(
                        f0,
                        self@,
                        locs@[j].x,
                        locs@[j].z,
                    ),
                g == f0,
                f == f0,
            decreases locs@.len() - i,
        {
            let loc = locs[i];
            proof {
                reveal(is_scan_order);
            }
            let chunk = match self.load_chunk(loc.x, loc.z) {
                Ok(c) => c,
                Err(e) => {
                    proof {
                        assert(location_of(self@, loc.x, loc.z)->Ok_0.occupied());
                        reveal(stopped_at);
                        let ghost r: Result<(), Error> = Err(e);
                        assert(stopped_at(f, old(self)@, locs@, i as int, r->Err_0));
                    }
                    return Err(e);
                },
            };
            g(loc.x, loc.z, &chunk);
            proof {
                assert(visited(f0, self@, loc.x, loc.z));
            }
            i = i + 1;
        }
        proof {
            assert forall|x: usize, z: usize|
                x < 32 && z < 32 && (#[trigger] location_of(self@, x, z))->Ok_0.occupied() implies chunk_payload(
                self@,
                x,
                z,
            ) is Some by {
                let j = choose|j: int| 0 <= j < locs@.len() && locs@[j].x == x && locs@[j].z == z;
            }
            assert forall|x: usize, z: usize|
                x < 32 && z < 32 && (#[trigger] location_of(self@, x, z))->Ok_0.occupied() implies visited(
                f0,
                self@,
                x,
                z,
            ) by {
                let j = choose|j: int| 0 <= j < locs@.len() && locs@[j].x == x && locs@[j].z == z;
            }
        }
        Ok(())
    }

    /// The decompressed payload of chunk `(x, z)`.
    pub fn load_chunk(&self, x: usize, z: usize) -> (r: Result<Vec<u8>, Error>)
        ensures
            loaded(self@, x, z, r),
            r is Ok <==> chunk_payload(self@, x, z) is Some,
            r is Ok ==> r->Ok_0@ == chunk_payload(self@, x, z)->Some_0,
    {
        let raw = match self.load_raw_chunk_at(x, z) {
            Ok(raw) => raw,
            Err(e) => return Err(e),
        };
        decompress_chunk(raw.as_slice())
    }
}


impl RegionBuffer {
    /// The chunk at `(x, z)`, decoded; `None` where the coordinates lie
    /// outside `0..32`, the slot is empty, or its data cannot be read,
    /// decompressed or decoded.
    pub fn decode_chunk<C: Chunk>(&self, x: CCoord, z: CCoord) -> (r: Option<C>)
        ensures
            !(0 <= x.0 < 32 && 0 <= z.0 < 32) ==> r is None,
            0 <= x.0 < 32 && 0 <= z.0 < 32 && chunk_payload(self@, x.0 as usize, z.0 as usize) is None
                ==> r is None,
            0 <= x.0 < 32 && 0 <= z.0 < 32 && chunk_payload(self@, x.0 as usize, z.0 as usize) is Some
                ==> exists|d: &[u8]|
                d@ == chunk_payload(self@, x.0 as usize, z.0 as usize)->Some_0 && call_ensures(
                    C::from_bytes,
                    (d,),
                    r,
                ),
    {
        if x.0 < 0 || x.0 >= 32 || z.0 < 0 || z.0 >= 32 {
            return None;
        }
        let data = match self.load_chunk(x.0 as usize, z.0 as usize) {
            Ok(d) => d,
            Err(_) => return None,
        };
        C::from_bytes(data.as_slice())
    }
}

impl<C: Chunk> Region<C> for RegionBuffer {
    fn chunk(&self, x: CCoord, z: CCoord) -> (r: Option<C>)
        ensures
            !(0 <= x.0 < 32 && 0 <= z.0 < 32) ==> r is None,
            0 <= x.0 < 32 && 0 <= z.0 < 32 && chunk_payload(self@, x.0 as usize, z.0 as usize) is None
                ==> r is None,
            0 <= x.0 < 32 && 0 <= z.0 < 32 && chunk_payload(self@, x.0 as usize, z.0 as usize) is Some
                ==> exists|d: &[u8]|
                d@ == chunk_payload(self@, x.0 as usize, z.0 as usize)->Some_0 && call_ensures(
                    C::from_bytes,
                    (d,),
                    r,
                ),
    {
        self.decode_chunk(x, z)
    }
}

/// The four bytes of a sector table entry: the low three bytes of `offset`
/// in big-endian order, then the sector count.
pub open spec fn entry_bytes(offset: u32, sectors: u8) -> Seq<u8> {
    seq![
        (offset / 0x1_0000 % 0x100) as u8,
        (offset / 0x100 % 0x100) as u8,
        (offset % 0x100) as u8,
        sectors,
    ]
}

/// Writes the sector table of a region, entry by entry from slot `(0, 0)`.
pub struct Builder {
    inner: Vec<u8>,
}

impl View for Builder {
    type V = Seq<u8>;

    closed spec fn view(&self) -> Seq<u8> {
        self.inner@
    }
}

impl Builder {
    /// A builder with no bytes written.
    pub fn new() -> (r: Builder)
        ensures
            r@ == Seq::<u8>::empty(),
    {
        Builder { inner: Vec::new() }
    }

    /// Appends the entry for the next slot: `offset` (its low three bytes)
    /// and `sectors`.
    pub fn location(self, offset: u32, sectors: u8) -> (r: Builder)
        ensures
            r@ == self@ + entry_bytes(offset, sectors),
    {
        let mut inner = self.inner;
        inner.push((offset / 0x1_0000 % 0x100) as u8);
        inner.push((offset / 0x100 % 0x100) as u8);
        inner.push((offset % 0x100) as u8);
        inner.push(sectors);
        Builder { inner }
    }

    /// The bytes written, padded with zeros up to the next whole sector
    /// (a whole sector more where they already end on a sector boundary).
    pub fn build(self) -> (r: Vec<u8>)
        requires
            self@.len() + 4096 <= usize::MAX,
        ensures
            r@.len() == (self@.len() / 4096 + 1) * 4096,
            r@.subrange(0, self@.len() as int) == self@,
            forall|i: int| self@.len() <= i < r@.len() ==> r@[i] == 0,
    {
        let mut inner = self.inner;
        let target: usize = (inner.len() / SECTOR_SIZE + 1) * SECTOR_SIZE;
        let ghost start = inner@;
        while inner.len() < target
            invariant
                start.len() <= inner@.len() <= target,
                target == (start.len() / 4096 + 1) * 4096,
                inner@.subrange(0, start.len() as int) == start,
                forall|i: int| start.len() <= i < inner@.len() ==> inner@[i] == 0,
            decreases target - inner@.len(),
        {
            inner.push(0);
        }
        inner
    }

    /// The bytes written, without padding.
    pub fn build_unpadded(self) -> (r: Vec<u8>)
        ensures
            r@ == self@,
    {
        self.inner
    }
}

/// A sector table entry written for slot `(x, z)` is read back exactly by
/// looking the slot up.
pub proof fn lemma_location_reads_entry(d: Seq<u8>, x: usize, z: usize, offset: u32, sectors: u8)
    requires
        x < 32,
        z < 32,
        offset < 0x100_0000,
        d.len() >= entry_pos(x as int, z as int) + 4,
        d.subrange(entry_pos(x as int, z as int), entry_pos(x as int, z as int) + 4) == entry_bytes(
            offset,
            sectors,
        ),
    ensures
        location_of(d, x, z) == Ok::<ChunkLocation, Error>(
            ChunkLocation {
                begin_sector: offset as usize,
                sector_count: sectors as usize,
                x,
                z,
            },
        ),
{
    let p = entry_pos(x as int, z as int);
    assert(d[p] == entry_bytes(offset, sectors)[0]);
    assert(d[p + 1] == entry_bytes(offset, sectors)[1]);
    assert(d[p + 2] == entry_bytes(offset, sectors)[2]);
    assert(d[p + 3] == entry_bytes(offset, sectors)[3]);
    let o = offset as int;
    assert(o / 0x1_0000 % 0x100 * 0x1_0000 + o / 0x100 % 0x100 * 0x100 + o % 0x100 == o)
        by (nonlinear_arith)
        requires 0 <= o < 0x100_0000;
}


/// The five-byte chunk meta prefix: `len` as four big-endian bytes, then the
/// scheme tag.
pub open spec fn meta_bytes(len: u32, tag: u8) -> Seq<u8> {
    seq![
        (len / 0x100_0000 % 0x100) as u8,
        (len / 0x1_0000 % 0x100) as u8,
        (len / 0x100 % 0x100) as u8,
        (len % 0x100) as u8,
        tag,
    ]
}

/// A zlib payload stored behind its sector table entry and a correct meta
/// prefix loads back as exactly the bytes it inflates to.
pub proof fn lemma_zlib_round_trip(
    d: Seq<u8>,
    x: usize,
    z: usize,
    offset: u32,
    sectors: u8,
    payload: Seq<u8>,
    plain: Seq<u8>,
)
    requires
        x < 32,
        z < 32,
        0 < offset < 0x100_0000,
        0 < sectors,
        d.len() >= entry_pos(x as int, z as int) + 4,
        d.subrange(entry_pos(x as int, z as int), entry_pos(x as int, z as int) + 4) == entry_bytes(
            offset,
            sectors,
        ),
        payload.len() + 1 < 0x1_0000_0000,
        d.len() >= offset * 4096 + 5 + payload.len(),
        d.subrange(offset * 4096, offset * 4096 + 5) == meta_bytes((payload.len() + 1) as u32, 2),
        d.subrange(offset * 4096 + 5, offset * 4096 + 5 + payload.len()) == payload,
        zlib_inflate(payload) == Some(plain),
    ensures
        chunk_payload(d, x, z) == Some(plain),
{
    lemma_location_reads_entry(d, x, z, offset, sectors);
    let start = offset * 4096;
    let n = payload.len() + 1;
    let prefix = d.subrange(start, start + 5);
    assert(prefix == meta_bytes(n as u32, 2));
    assert(n / 0x100_0000 % 0x100 * 0x100_0000 + n / 0x1_0000 % 0x100 * 0x1_0000 + n / 0x100 % 0x100
        * 0x100 + n % 0x100 == n) by (nonlinear_arith)
        requires 0 <= n < 0x1_0000_0000;
    assert(be_u32(prefix) == n);
    let raw = d.subrange(start, start + n + 4);
    assert(raw_chunk_of(d, x, z) == Ok::<Seq<u8>, Error>(raw));
    assert(raw.subrange(0, 5) == prefix);
    assert(raw.subrange(5, raw.len() as int) =~= payload);
}

/// A slot whose sector table entry is written as offset 0 and count 0 holds
/// no chunk: extracting it fails with `ChunkNotFound` and it has no payload.
pub proof fn lemma_empty_slot_not_found(d: Seq<u8>, x: usize, z: usize)
    requires
        x < 32,
        z < 32,
        d.len() >= entry_pos(x as int, z as int) + 4,
        d.subrange(entry_pos(x as int, z as int), entry_pos(x as int, z as int) + 4) == entry_bytes(
            0,
            0,
        ),
    ensures
        raw_chunk_of(d, x, z) == Err::<Seq<u8>, Error>(Error::ChunkNotFound),
        chunk_payload(d, x, z) is None,
        forall|r: Result<Vec<u8>, Error>|
            loaded(d, x, z, r) ==> r == Err::<Vec<u8>, Error>(Error::ChunkNotFound),
{
    lemma_location_reads_entry(d, x, z, 0, 0);
}

/// A meta prefix whose scheme tag is not 1, 2 or 3 is invalid; one with tag
/// 1 (gzip) or 3 (uncompressed) and a non-zero length is read, and the chunk
/// behind it is refused as unsupported rather than decompressed.
pub proof fn lemma_scheme_tags(raw: Seq<u8>, r: Result<Vec<u8>, Error>)
    requires
        raw.len() >= 5,
        decompressed(raw, r),
    ensures
        !(1 <= raw[4] <= 3) ==> meta_of(raw) == Err::<ChunkMeta, Error>(Error::InvalidChunkMeta)
            && r == Err::<Vec<u8>, Error>(Error::InvalidChunkMeta),
        (raw[4] == 1 || raw[4] == 3) && be_u32(raw) != 0 ==> meta_of(raw) is Ok && r == Err::<
            Vec<u8>,
            Error,
        >(Error::UnsupportedCompression),
{
}

/// A stored chunk whose meta prefix is well formed and names gzip or no
/// compression loads as `UnsupportedCompression`; one with any other tag
/// than 1, 2 or 3 fails as `InvalidChunkMeta`.
pub proof fn lemma_scheme_tag_on_load(d: Seq<u8>, x: usize, z: usize, r: Result<Vec<u8>, Error>)
    requires
        loaded(d, x, z, r),
        location_of(d, x, z) is Ok,
        location_of(d, x, z)->Ok_0.occupied(),
        d.len() >= location_of(d, x, z)->Ok_0.begin_sector * 4096 + 5,
    ensures
        ({
            let start = location_of(d, x, z)->Ok_0.begin_sector * 4096;
            let prefix = d.subrange(start, start + 5);
            &&& !(1 <= prefix[4] <= 3) ==> r == Err::<Vec<u8>, Error>(Error::InvalidChunkMeta)
            &&& (prefix[4] == 1 || prefix[4] == 3) && be_u32(prefix) != 0 && d.len() >= start + 4
                + be_u32(prefix) ==> r == Err::<Vec<u8>, Error>(Error::UnsupportedCompression)
        }),
{
    let start = location_of(d, x, z)->Ok_0.begin_sector * 4096;
    let prefix = d.subrange(start, start + 5);
    if raw_chunk_of(d, x, z) is Ok {
        let raw = raw_chunk_of(d, x, z)->Ok_0;
        assert(raw.subrange(0, 5) =~= prefix);
        assert(meta_of(raw) == meta_of(prefix));
    }
}

} // verus!
