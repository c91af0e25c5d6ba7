use gt4timing::guest::{remap_ps2_address, GuestMemory, HostRegion, Ps2Error, Ps2Memory};
use gt4timing::ps2_types::{chain_step, decode_many, F32Bits, Ps2Ptr, Ps2PtrChain, Ps2String};

/// Host memory that holds `bytes` from `base` on and zeros elsewhere.
struct Image {
    base: u64,
    bytes: Vec<u8>,
}

impl Ps2Memory for Image {
    fn read_host(&self, host_address: u64, len: usize) -> Result<Vec<u8>, Ps2Error> {
        let mut out = vec![0u8; len];
        for (i, b) in out.iter_mut().enumerate() {
            let a = host_address + i as u64;
            if a >= self.base && a < self.base + self.bytes.len() as u64 {
                *b = self.bytes[(a - self.base) as usize];
            }
        }
        Ok(out)
    }

    fn scan_regions(&self) -> Vec<HostRegion> {
        vec![HostRegion { base: self.base, size: self.bytes.len() as u64 }]
    }
}

struct Failing;

impl Ps2Memory for Failing {
    fn read_host(&self, _host_address: u64, _len: usize) -> Result<Vec<u8>, Ps2Error> {
        Err(Ps2Error::ReadFailure("denied".to_string()))
    }

    fn scan_regions(&self) -> Vec<HostRegion> {
        Vec::new()
    }
}

const EE: u64 = 0x10_0000_0000;

fn put_u32(img: &mut Image, guest: u32, v: u32) {
    let at = (EE + guest as u64 - img.base) as usize;
    img.bytes[at..at + 4].copy_from_slice(&v.to_le_bytes());
}

fn image() -> Image {
    Image { base: EE, bytes: vec![0u8; 0x1_0000] }
}

#[test]
fn remap_direct() {
    assert_eq!(remap_ps2_address(EE, 0x0000_1234), Ok(0x10_0000_1234));
}

#[test]
fn remap_uncached_mirror() {
    assert_eq!(remap_ps2_address(EE, 0x2010_0000), Ok(0x10_0010_0000));
}

#[test]
fn remap_accelerated_mirror() {
    assert_eq!(remap_ps2_address(EE, 0x3010_0000), Ok(0x10_0010_0000));
    assert_eq!(remap_ps2_address(EE, 0x31FF_FFFF), Ok(0x10_01FF_FFFF));
}

#[test]
fn remap_matches_modulo_in_direct_and_uncached_ranges() {
    for a in [0u32, 0x1234, 0x01FF_FFFF, 0x2000_0000, 0x2000_0004, 0x21FF_FFFF] {
        assert_eq!(remap_ps2_address(EE, a), Ok(EE + (a % 0x2000_0000) as u64));
    }
}

#[test]
fn remap_refuses_unmapped() {
    for a in [0x0200_0000u32, 0x1FFF_FFFF, 0x2200_0000, 0x2FFF_FFFF, 0x3200_0000, 0xFFFF_FFFF] {
        assert_eq!(remap_ps2_address(EE, a), Err(Ps2Error::UnmappedGuestAddress(a)));
    }
}

#[test]
fn pointer_reads_little_endian() {
    let mut img = image();
    put_u32(&mut img, 0x100, 0xDEAD_BEEF);
    let mem = GuestMemory { host: &img, ee_base: EE };
    assert_eq!(Ps2Ptr::<u32>::new(0x100).get(&mem), Ok(0xDEAD_BEEF));
    assert_eq!(Ps2Ptr::<u32>::new(0x2000_0100).get(&mem), Ok(0xDEAD_BEEF));
    assert_eq!(Ps2Ptr::<i32>::new(0x100).get(&mem), Ok(0xDEAD_BEEFu32 as i32));
    assert_eq!(Ps2Ptr::<F32Bits>::new(0x100).get(&mem), Ok(F32Bits { bits: 0xDEAD_BEEF }));
}

#[test]
fn pointer_to_unmapped_address_fails() {
    let img = image();
    let mem = GuestMemory { host: &img, ee_base: EE };
    assert_eq!(
        Ps2Ptr::<u32>::new(0x0400_0000).get(&mem),
        Err(Ps2Error::UnmappedGuestAddress(0x0400_0000))
    );
}

#[test]
fn read_failure_is_reported() {
    let mem = GuestMemory { host: &Failing, ee_base: EE };
    assert!(matches!(Ps2Ptr::<u32>::new(0x100).get(&mem), Err(Ps2Error::ReadFailure(_))));
}

#[test]
fn get_many_reads_consecutive_values() {
    let mut img = image();
    put_u32(&mut img, 0x200, 7);
    put_u32(&mut img, 0x204, 8);
    put_u32(&mut img, 0x208, 9);
    let mem = GuestMemory { host: &img, ee_base: EE };
    assert_eq!(Ps2Ptr::<u32>::new(0x200).get_many(&mem, 3), Ok(vec![7, 8, 9]));
}

#[test]
fn chain_follows_pointers() {
    let mut img = image();
    put_u32(&mut img, 0x1000, 0x2000_3000);
    put_u32(&mut img, 0x3000 + 404, 0x4000);
    put_u32(&mut img, 0x4000 + 20, 2000.0f32.to_bits());
    let mem = GuestMemory { host: &img, ee_base: EE };
    let chain = Ps2PtrChain::<F32Bits>::new(vec![0x1000, 404, 20]);
    assert_eq!(chain.get(&mem), Ok(F32Bits { bits: 2000.0f32.to_bits() }));
}

#[test]
fn chain_reports_null_step() {
    let mut img = image();
    put_u32(&mut img, 0x1000, 0x3000);
    let mem = GuestMemory { host: &img, ee_base: EE };
    let chain = Ps2PtrChain::<u32>::new(vec![0x1000, 404, 20]);
    assert_eq!(chain.get(&mem), Err(Ps2Error::NullInChain(1, 0x3000 + 404)));
}

#[test]
fn chain_reports_unmapped_start() {
    let img = image();
    let mem = GuestMemory { host: &img, ee_base: EE };
    let chain = Ps2PtrChain::<u32>::new(vec![0x0500_0000, 4]);
    assert_eq!(chain.get(&mem), Err(Ps2Error::UnmappedGuestAddress(0x0500_0000)));
}

#[test]
fn chain_overflow_is_unmapped() {
    let mut img = image();
    put_u32(&mut img, 0x1000, 0xFFFF_FF00);
    let mem = GuestMemory { host: &img, ee_base: EE };
    let chain = Ps2PtrChain::<u32>::new(vec![0x1000, 0x200]);
    assert_eq!(chain.get(&mem), Err(Ps2Error::UnmappedGuestAddress(0xFFFF_FF00)));
}

#[test]
fn chain_end_outside_ranges_is_unmapped() {
    let mut img = image();
    put_u32(&mut img, 0x1000, 0x0300_0000);
    let mem = GuestMemory { host: &img, ee_base: EE };
    let chain = Ps2PtrChain::<u32>::new(vec![0x1000, 8]);
    assert_eq!(chain.get(&mem), Err(Ps2Error::UnmappedGuestAddress(0x0300_0008)));
}

#[test]
fn chain_passes_read_failure_on() {
    let mem = GuestMemory { host: &Failing, ee_base: EE };
    let chain = Ps2PtrChain::<u32>::new(vec![0x1000, 8]);
    assert_eq!(chain.get(&mem), Err(Ps2Error::ReadFailure("denied".to_string())));
}

#[test]
fn chain_steps() {
    assert_eq!(chain_step(2, 0x40, 0, 4), Err(Ps2Error::NullInChain(2, 0x40)));
    assert_eq!(chain_step(0, 0x40, 0x100, 4), Ok(0x104));
    assert_eq!(chain_step(0, 0x40, 0xFFFF_FFFF, 1), Err(Ps2Error::UnmappedGuestAddress(0xFFFF_FFFF)));
}

#[test]
fn decodes_consecutive_values() {
    let bytes = [1u8, 0, 0, 0, 2, 0, 0, 0, 0xFF, 0xFF, 0xFF, 0xFF];
    assert_eq!(decode_many::<u32>(&bytes, 3), vec![1, 2, 0xFFFF_FFFF]);
    assert_eq!(decode_many::<i32>(&bytes, 3), vec![1, 2, -1]);
}

#[test]
fn string_stops_at_first_zero() {
    let s = Ps2String::<8>::new(&[b'S', b'k', b'y', 0, b'x', b'y']);
    assert_eq!(s.to_text(), "Sky");
}

#[test]
fn string_ignores_bytes_after_zero() {
    let a = Ps2String::<16>::new(&[b'G', b'T', 0, 1, 2, 3]);
    let b = Ps2String::<16>::new(&[b'G', b'T', 0, 0xFF, 0x41]);
    assert_eq!(a.to_text(), b.to_text());
    assert_eq!(a.to_text(), "GT");
}

#[test]
fn string_decodes_latin1() {
    let s = Ps2String::<4>::new(&[0x43, 0xE9, 0xFC, 0]);
    assert_eq!(s.to_text(), "C\u{e9}\u{fc}");
}

#[test]
fn string_without_zero_uses_all_bytes() {
    let s = Ps2String::<3>::new(&[b'a', b'b', b'c']);
    assert_eq!(s.to_text(), "abc");
    assert_eq!(Ps2String::<3>::new(&[]).to_text(), "");
}
