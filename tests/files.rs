use std::path::PathBuf;

use fastanvil::{
    coords_from_region, region_file_name, regions_in, RCoord, RegionFileEntry, RegionFileLoader,
};

struct Plain;

fn entry(name: &str, is_file: bool, len: u64) -> RegionFileEntry {
    RegionFileEntry { name: name.to_string(), is_file, len }
}

#[test]
fn listing_keeps_non_empty_region_files() {
    let entries = vec![
        entry("r.1.2.mca", true, 8192),
        entry("r.-3.4.mca", true, 4096),
        entry("r.0.0.mca", true, 0),
    ];
    let mut got = regions_in(&entries);
    got.sort();
    assert_eq!(got, vec![(RCoord(-3), RCoord(4)), (RCoord(1), RCoord(2))]);
}

#[test]
fn listing_passes_over_other_entries() {
    let entries = vec![
        entry("r.1.2.mcr", true, 10),
        entry("r.5.6.mca", false, 10),
        entry("r.x.2.mca", true, 10),
        entry("notes.mca", true, 10),
        entry(".mca", true, 10),
        entry("q.1.2.mca", true, 10),
        entry("r.1.2.old.mca", true, 10),
        entry("r.7.8.mca", true, 1),
    ];
    assert_eq!(regions_in(&entries), vec![(RCoord(7), RCoord(8))]);
}

#[test]
fn coords_parse_signed_fields() {
    assert_eq!(coords_from_region("r.1.2.mca"), Some((RCoord(1), RCoord(2))));
    assert_eq!(coords_from_region("r.-3.4.mca"), Some((RCoord(-3), RCoord(4))));
    assert_eq!(coords_from_region("r.+5.-0.mca"), Some((RCoord(5), RCoord(0))));
    assert_eq!(coords_from_region("r.1.2"), None);
    assert_eq!(coords_from_region("q.1.2.mca"), None);
    assert_eq!(coords_from_region("r.1.2.old.mca"), None);
    assert_eq!(coords_from_region("rr.1.2.mca"), None);
    assert_eq!(coords_from_region("r.1"), None);
    assert_eq!(coords_from_region("r..2.mca"), None);
    assert_eq!(coords_from_region("r.-.2.mca"), None);
    assert_eq!(coords_from_region("r.1a.2.mca"), None);
    assert_eq!(
        coords_from_region("r.9223372036854775807.-9223372036854775808.mca"),
        Some((RCoord(isize::MAX), RCoord(isize::MIN)))
    );
    assert_eq!(coords_from_region("r.9223372036854775808.0.mca"), None);
    assert_eq!(coords_from_region("r.99999999999999999999999.0.mca"), None);
}

#[test]
fn file_name_spells_coordinates() {
    assert_eq!(region_file_name(RCoord(1), RCoord(2)), "r.1.2.mca");
    assert_eq!(region_file_name(RCoord(-3), RCoord(40)), "r.-3.40.mca");
    let name = region_file_name(RCoord(-17), RCoord(0));
    assert_eq!(coords_from_region(&name), Some((RCoord(-17), RCoord(0))));
}

impl fastanvil::Chunk for Plain {
    type Biome = ();
    type Block = ();
    fn from_bytes(_data: &[u8]) -> Option<Self> {
        None
    }
    fn status(&self) -> String {
        String::new()
    }
    fn surface_height(&self, _x: usize, _z: usize, _m: fastanvil::HeightMode) -> isize {
        0
    }
    fn biome(&self, _x: usize, _y: isize, _z: usize) -> Option<()> {
        None
    }
    fn block(&self, _x: usize, _y: isize, _z: usize) -> Option<&()> {
        None
    }
    fn y_range(&self) -> std::ops::Range<isize> {
        0..0
    }
}

#[test]
fn loader_keeps_its_directory() {
    let l: RegionFileLoader<Plain> = RegionFileLoader::new(PathBuf::from("/tmp/world/region"));
    assert_eq!(l.region_dir(), &PathBuf::from("/tmp/world/region"));
}
