//! Random-access decoding of the Anvil region format: a 32 by 32 grid of
//! individually compressed chunks per file, located through a sector table.

mod dimension;
mod error;
mod files;
mod inflate;
mod meta;
mod region;

pub use dimension::{
    lemma_cached_region_is_stable, region_step, CCoord, Chunk, Dimension, HeightMode, LoaderError,
    LoaderResult, RCoord, Region, RegionLoader,
};
pub use error::{error_text, Error, IoError};
pub use files::{
    coords_from_region, coords_of_name, decimal_of, listed_coords, region_file_name,
    region_file_name_of, regions_in, RegionFileEntry, RegionFileLoader,
};
pub use inflate::zlib_inflate;
pub use meta::{be_u32, meta_of, scheme_of_tag, ChunkMeta, CompressionScheme};
pub use region::{
    by_descending_sector, chunk_payload, entry_bytes, is_scan_order, stopped_at, visited, lemma_empty_slot_not_found, lemma_location_reads_entry,
    lemma_scheme_tag_on_load, lemma_scheme_tags, lemma_zlib_round_trip, loaded, location_of, meta_bytes, raw_chunk_of, slots_distinct,
    Builder, ChunkLocation, RegionBuffer, HEADER_SIZE, SECTOR_SIZE,
};
