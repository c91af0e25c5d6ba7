use gt4timing::anchor::{
    anchor_needle, ee_base_from_matches, locate_ee_base, select_layout, AnchorLayout, Addresses,
    CHAMP_ANCHOR, NORMAL_ANCHOR,
};
use gt4timing::guest::{GuestMemory, HostRegion, Ps2Error, Ps2Memory};
use gt4timing::ps2_types::F32Bits;

/// Host memory that holds `bytes` from `base` on and zeros elsewhere.
struct Image {
    base: u64,
    bytes: Vec<u8>,
}

impl Ps2Memory for Image {
    fn read_host(&self, host_address: u64, len: usize) -> Result<Vec<u8>, Ps2Error> {
        let mut out = vec![0u8; len];
        for (i, b) in out.iter_mut().enumerate() {
            let a = host_address + i as u64;
            if a >= self.base && a < self.base + self.bytes.len() as u64 {
                *b = self.bytes[(a - self.base) as usize];
            }
        }
        Ok(out)
    }

    fn scan_regions(&self) -> Vec<HostRegion> {
        vec![HostRegion { base: self.base, size: self.bytes.len() as u64 }]
    }
}

const EE: u64 = 0x7000_0000;
const NAN: u32 = 0x7FC0_0000;

/// A guest image around both anchors, with the given floats at them.
fn probe_image(normal: u32, champ: u32) -> Image {
    let base = EE + NORMAL_ANCHOR as u64;
    let mut bytes = vec![0u8; 0x1000];
    bytes[0..4].copy_from_slice(&normal.to_le_bytes());
    let c = (CHAMP_ANCHOR - NORMAL_ANCHOR) as usize;
    bytes[c..c + 4].copy_from_slice(&champ.to_le_bytes());
    Image { base, bytes }
}

#[test]
fn selects_champ_when_only_champ_is_nan() {
    let img = probe_image(1.0f32.to_bits(), NAN);
    let a = Addresses::resolve(&GuestMemory { host: &img, ee_base: EE }).unwrap();
    assert_eq!(a.layout, AnchorLayout::Champ);
    assert_eq!(a.cars.address, CHAMP_ANCHOR - 140 - 4256);
    assert_eq!(a.entries.address, CHAMP_ANCHOR - 0x2E0A4);
    assert_eq!(a.race_time.address, CHAMP_ANCHOR - 0xA4A0);
    assert_eq!(a.track_length.offsets, vec![0x01BF_5DBC, 404, 20]);
}

#[test]
fn selects_normal_when_only_normal_is_nan() {
    let img = probe_image(0xFFFF_FFFF, 0);
    let a = Addresses::resolve(&GuestMemory { host: &img, ee_base: EE }).unwrap();
    assert_eq!(a.layout, AnchorLayout::Normal);
    assert_eq!(a.ee_base, EE);
    assert_eq!(a.cars.address, 0x01C0_EEA4 - 4396);
    assert_eq!(a.entries.address, 0x01C0_EEA4 - 0x2E0A4);
    assert_eq!(a.race_time.address, 0x01C0_EEA4 - 0xA4A0);
    assert_eq!(a.track_length.offsets, vec![0x01BF_52FC, 404, 20]);
}

#[test]
fn fails_when_neither_is_nan() {
    let img = probe_image(0, 2.0f32.to_bits());
    assert!(matches!(
        Addresses::resolve(&GuestMemory { host: &img, ee_base: EE }),
        Err(Ps2Error::NoAnchor)
    ));
}

#[test]
fn infinity_is_not_nan() {
    assert_eq!(
        select_layout(F32Bits { bits: 0x7F80_0000 }, F32Bits { bits: 0xFF80_0000 }),
        Err(Ps2Error::NoAnchor)
    );
    assert_eq!(
        select_layout(F32Bits { bits: 0x7F80_0000 }, F32Bits { bits: 0xFF80_0001 }),
        Ok(AnchorLayout::Champ)
    );
    assert_eq!(select_layout(F32Bits { bits: NAN }, F32Bits { bits: NAN }), Ok(AnchorLayout::Normal));
}

#[test]
fn ee_base_needs_exactly_five_matches() {
    assert_eq!(ee_base_from_matches(&vec![]), Err(Ps2Error::NoAnchor));
    let four = vec![0x7100_0000u64, 0x7100_1000, 0x7100_2000, 0x7100_3000];
    assert_eq!(ee_base_from_matches(&four), Err(Ps2Error::UnexpectedAnchorCount(4)));
    let mut five = four.clone();
    five.push(0x7100_4000);
    assert_eq!(ee_base_from_matches(&five), Ok(0x7100_0000 - NORMAL_ANCHOR as u64));
}

#[test]
fn ee_base_below_zero_is_no_anchor() {
    let five = vec![0x10u64, 0x20, 0x30, 0x40, 0x50];
    assert_eq!(ee_base_from_matches(&five), Err(Ps2Error::NoAnchor));
}

#[test]
fn locates_main_memory_from_five_vehicle_records() {
    let needle = anchor_needle();
    let base = EE + NORMAL_ANCHOR as u64 - 0x1000;
    let mut bytes = vec![0u8; 0x1000 + 6 * 4256];
    for slot in 0..5usize {
        let at = 0x1000 + slot * 4256;
        bytes[at..at + needle.len()].copy_from_slice(&needle);
    }
    let img = Image { base, bytes };
    assert_eq!(locate_ee_base(&img), Ok(EE));
    let a = Addresses::find(&img).unwrap();
    assert_eq!(a.layout, AnchorLayout::Normal);
    assert_eq!(a.ee_base, EE);
}

#[test]
fn wrong_anchor_count_is_reported() {
    let needle = anchor_needle();
    let mut bytes = vec![0u8; 3 * 4256];
    for slot in 0..2usize {
        bytes[slot * 4256..slot * 4256 + needle.len()].copy_from_slice(&needle);
    }
    let img = Image { base: 0x9000_0000, bytes };
    assert_eq!(locate_ee_base(&img), Err(Ps2Error::UnexpectedAnchorCount(2)));
    assert!(matches!(Addresses::find(&img), Err(Ps2Error::UnexpectedAnchorCount(2))));
}

#[test]
fn no_signature_is_no_anchor() {
    let img = Image { base: 0x9000_0000, bytes: vec![0u8; 5000] };
    assert_eq!(locate_ee_base(&img), Err(Ps2Error::NoAnchor));
}
