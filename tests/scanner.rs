use gt4timing::anchor::{anchor_needle, NEEDLE_LEN};
use gt4timing::guest::{HostRegion, Ps2Error, Ps2Memory};
use gt4timing::scan::{
    chunk_len, find_all_offsets, matches_in_chunk, next_chunk, occurs_at, scan_all_regions, scan_region,
    CHUNK_SIZE,
};

struct Image {
    base: u64,
    bytes: Vec<u8>,
    regions: Vec<HostRegion>,
}

impl Ps2Memory for Image {
    fn read_host(&self, host_address: u64, len: usize) -> Result<Vec<u8>, Ps2Error> {
        if host_address < self.base
            || host_address - self.base + len as u64 > self.bytes.len() as u64
        {
            return Err(Ps2Error::ReadFailure("outside the image".to_string()));
        }
        let at = (host_address - self.base) as usize;
        Ok(self.bytes[at..at + len].to_vec())
    }

    fn scan_regions(&self) -> Vec<HostRegion> {
        self.regions.clone()
    }
}

#[test]
fn finds_every_copy_in_sixteen_mib() {
    let needle = anchor_needle();
    assert_eq!(needle.len(), NEEDLE_LEN);
    let base = 0x2000_0000u64;
    let mut bytes = vec![0u8; 16 << 20];
    // copies straddling chunk boundaries and at both ends
    let offsets = [
        0usize,
        CHUNK_SIZE - 30,
        2 * CHUNK_SIZE - 30,
        3 * CHUNK_SIZE,
        1 << 20,
        (8 << 20) + 12345,
        (16 << 20) - NEEDLE_LEN,
    ];
    for &o in offsets.iter() {
        bytes[o..o + NEEDLE_LEN].copy_from_slice(&needle);
    }
    let size = bytes.len() as u64;
    let img = Image { base, bytes, regions: vec![HostRegion { base, size }] };
    let expected: Vec<u64> = offsets.iter().map(|&o| base + o as u64).collect();
    assert_eq!(scan_region(&img, &HostRegion { base, size }, &needle), expected);
    assert_eq!(find_all_offsets(&img, &needle), Some(expected));
}

#[test]
fn finds_nothing_in_short_chunk() {
    assert_eq!(matches_in_chunk(&[], &[1, 2]), Vec::<usize>::new());
    assert_eq!(matches_in_chunk(&[1], &[1, 2]), Vec::<usize>::new());
}

#[test]
fn finds_overlapping_occurrences() {
    assert_eq!(matches_in_chunk(&[7, 7, 7, 7], &[7, 7]), vec![0, 1, 2]);
}

#[test]
fn chunk_schedule() {
    assert_eq!(chunk_len(0, 10_000, 68), Some(CHUNK_SIZE));
    assert_eq!(chunk_len(9_000, 10_000, 68), Some(1_000));
    assert_eq!(chunk_len(9_950, 10_000, 68), None);
    // consecutive chunks overlap by one byte less than the needle
    assert_eq!(next_chunk(0, CHUNK_SIZE, 10_000, 68), Some(CHUNK_SIZE as u64 - 67));
    assert_eq!(next_chunk(9_000, 1_000, 10_000, 68), None);
}

#[test]
fn occurs_at_compares_window() {
    assert!(occurs_at(&[1, 2, 3, 4], 1, &[2, 3]));
    assert!(!occurs_at(&[1, 2, 3, 4], 2, &[2, 3]));
}

#[test]
fn region_scan_reports_host_addresses() {
    let base = 0x4000_0000u64;
    let mut bytes = vec![0u8; 3 * CHUNK_SIZE + 100];
    for &o in [10usize, CHUNK_SIZE - 2, 3 * CHUNK_SIZE + 96].iter() {
        bytes[o..o + 4].copy_from_slice(&[9, 8, 7, 6]);
    }
    let size = bytes.len() as u64;
    let img = Image { base, bytes, regions: vec![] };
    let region = HostRegion { base, size };
    assert_eq!(
        scan_region(&img, &region, &[9, 8, 7, 6]),
        vec![base + 10, base + CHUNK_SIZE as u64 - 2, base + 3 * CHUNK_SIZE as u64 + 96]
    );
}

#[test]
fn region_smaller_than_needle_is_skipped() {
    let img = Image { base: 0x1000, bytes: vec![1, 2], regions: vec![] };
    assert_eq!(scan_region(&img, &HostRegion { base: 0x1000, size: 2 }, &[1, 2, 3]), vec![]);
}

#[test]
fn failed_region_read_ends_that_region_only() {
    let base = 0x1000u64;
    let mut bytes = vec![0u8; 64];
    bytes[4..6].copy_from_slice(&[5, 5]);
    let img = Image {
        base,
        bytes,
        regions: vec![
            HostRegion { base: 0x10, size: 16 },
            HostRegion { base, size: 64 },
        ],
    };
    assert_eq!(find_all_offsets(&img, &[5, 5]), Some(vec![base + 4]));
}

#[test]
fn empty_needle_is_rejected() {
    let img = Image { base: 0, bytes: vec![0; 8], regions: vec![HostRegion { base: 0, size: 8 }] };
    assert_eq!(find_all_offsets(&img, &[]), None);
}

#[test]
fn matches_of_all_regions_ascend() {
    let mut bytes = vec![0u8; 256];
    bytes[10] = 3;
    bytes[100] = 3;
    bytes[200] = 3;
    let img = Image {
        base: 0,
        bytes,
        regions: vec![
            HostRegion { base: 0, size: 50 },
            HostRegion { base: 50, size: 150 },
            HostRegion { base: 200, size: 56 },
        ],
    };
    assert_eq!(find_all_offsets(&img, &[3]), Some(vec![10, 100, 200]));
}

#[test]
fn regions_are_reported_in_the_order_given() {
    let mut bytes = vec![0u8; 64];
    bytes[5] = 4;
    bytes[40] = 4;
    let img = Image { base: 0, bytes, regions: vec![] };
    let regions = vec![HostRegion { base: 32, size: 32 }, HostRegion { base: 0, size: 32 }];
    assert_eq!(scan_all_regions(&img, &regions, &[4]), vec![40, 5]);
}
