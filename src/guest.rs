//! Guest (emulated console) addresses and their mapping into host memory.
use vstd::prelude::*;

verus! {

/// Size of the emulated main memory that every valid guest range maps onto.
pub const EE_MEMORY_SIZE: u32 = 0x0200_0000;

/// Start of the kernel-uncached mirror of main memory.
pub const UNCACHED_MIRROR: u32 = 0x2000_0000;

/// Start of the kernel-accelerated mirror of main memory.
pub const ACCELERATED_MIRROR: u32 = 0x3000_0000;

/// The errors of guest memory access and of the race sampler.
#[derive(Clone, Debug, PartialEq, Eq)]
pub enum Ps2Error {
    /// No anchor signature was found, or neither known layout probed as valid.
    NoAnchor,
    /// A guest address lies outside the three ranges that map onto main memory.
    UnmappedGuestAddress(u32),
    /// A pointer chain read a null pointer at the given step and address.
    NullInChain(usize, u32),
    /// The host refused or failed a read.
    ReadFailure(String),
    /// The signature scanner returned a number of matches other than the expected one.
    UnexpectedAnchorCount(usize),
}

/// The offset into main memory that a guest address denotes, if it lies in
/// one of the three valid ranges.
pub open spec fn guest_offset(address: u32) -> Option<int> {
    if address < EE_MEMORY_SIZE {
        Some(address as int)
    } else if UNCACHED_MIRROR <= address < UNCACHED_MIRROR + EE_MEMORY_SIZE {
        Some(address - UNCACHED_MIRROR)
    } else if ACCELERATED_MIRROR <= address < ACCELERATED_MIRROR + EE_MEMORY_SIZE {
        Some(address - ACCELERATED_MIRROR)
    } else {
        None
    }
}

/// Whether `ee_base` leaves room for all of main memory below the top of
/// the host address space.
pub open spec fn valid_ee_base(ee_base: u64) -> bool {
    ee_base + EE_MEMORY_SIZE <= u64::MAX
}

/// Maps a guest address to the host address inside the emulator's copy of
/// main memory, which starts at `ee_base`.
pub fn remap_ps2_address(ee_base: u64, address: u32) -> (r: Result<u64, Ps2Error>)
    requires
        valid_ee_base(ee_base),
    ensures
        match guest_offset(address) {
            Some(off) => r == Ok::<u64, Ps2Error>((ee_base + off) as u64),
            None => r == Err::<u64, Ps2Error>(Ps2Error::UnmappedGuestAddress(address)),
        },
{
    if address < EE_MEMORY_SIZE {
        Ok(ee_base + address as u64)
    } else if UNCACHED_MIRROR <= address && address < UNCACHED_MIRROR + EE_MEMORY_SIZE {
        Ok(ee_base + (address - UNCACHED_MIRROR) as u64)
    } else if ACCELERATED_MIRROR <= address && address < ACCELERATED_MIRROR + EE_MEMORY_SIZE {
        Ok(ee_base + (address - ACCELERATED_MIRROR) as u64)
    } else {
        Err(Ps2Error::UnmappedGuestAddress(address))
    }
}

/// Every address of the direct and the uncached range lands at `ee_base`
/// plus the address modulo `0x2000_0000`; every address outside the three
/// ranges is refused.
pub proof fn lemma_remap_is_modulo(ee_base: u64, address: u32)
    requires
        valid_ee_base(ee_base),
        address < ACCELERATED_MIRROR,
    ensures
        guest_offset(address) is Some ==> guest_offset(address) == Some(
            (address as int) % (UNCACHED_MIRROR as int),
        ),
{
}

/// A contiguous range of host memory, as the host's region query reports it.
#[derive(Clone, Copy, Debug)]
pub struct HostRegion {
    pub base: u64,
    pub size: u64,
}

/// Read access to the host process that holds the emulator's memory: the
/// emulator itself, or a separate observer of it.
pub trait Ps2Memory {
    /// Reads `len` bytes of host memory starting at `host_address`.
    fn read_host(&self, host_address: u64, len: usize) -> (r: Result<Vec<u8>, Ps2Error>)
        ensures
            r is Ok ==> r->Ok_0@.len() == len,
    ;

    /// The committed, private, read/write regions that belong to no loaded
    /// module, in ascending address order.
    fn scan_regions(&self) -> Vec<HostRegion>;
}

/// Guest memory: a host memory together with the host address at which the
/// emulator keeps the start of main memory.
pub struct GuestMemory<'a, M: Ps2Memory> {
    pub host: &'a M,
    pub ee_base: u64,
}

impl<'a, M: Ps2Memory> GuestMemory<'a, M> {
    pub open spec fn wf(&self) -> bool {
        valid_ee_base(self.ee_base)
    }

    /// Reads `len` bytes at a guest address.
    pub fn read(&self, address: u32, len: usize) -> (r: Result<Vec<u8>, Ps2Error>)
        requires
            self.wf(),
        ensures
            guest_offset(address) is None <==> r == Err::<Vec<u8>, Ps2Error>(
                Ps2Error::UnmappedGuestAddress(address),
            ),
            guest_offset(address) is Some ==> (r is Ok || r->Err_0 is ReadFailure),
            r is Ok ==> r->Ok_0@.len() == len,
    {
        let host_address = remap_ps2_address(self.ee_base, address)?;
        match self.host.read_host(host_address, len) {
            Ok(v) => Ok(v),
            Err(e) => Err(read_failure(e)),
        }
    }
}

/// Any failure of the host to read becomes a read failure, so that it
/// cannot be mistaken for an unmapped guest address.
fn read_failure(e: Ps2Error) -> (r: Ps2Error)
    ensures
        r is ReadFailure,
{
    match e {
        Ps2Error::ReadFailure(reason) => Ps2Error::ReadFailure(reason),
        _ => Ps2Error::ReadFailure(String::new()),
    }
}

} // verus!
