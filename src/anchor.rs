//! Anchor discovery: locating the emulator's main memory and the race data
//! in it from a distinctive byte signature.
use crate::guest::{valid_ee_base, GuestMemory, Ps2Error, Ps2Memory};
use crate::ps2_types::{f32_is_nan, F32Bits, Ps2Ptr, Ps2PtrChain};
use crate::records::{Automobile, Entry, AUTOMOBILE_SIZE, NAN_BLOCK_OFFSET};
use crate::scan::find_all_offsets;
use vstd::prelude::*;

verus! {

/// Offset from the start of main memory to the NaN block of the second car
/// in an ordinary race.
pub const NORMAL_ANCHOR: u32 = 0x01C0_EEA4;

/// The same offset in a championship race.
pub const CHAMP_ANCHOR: u32 = 0x01C0_F964;

/// Length of the anchor signature.
pub const NEEDLE_LEN: usize = 68;

/// Number of anchor signatures that a running race shows.
pub const EXPECTED_ANCHORS: usize = 5;

/// Offset from the anchor back to the entry records.
pub const ENTRIES_BEFORE_ANCHOR: u32 = 0x2E0A4;

/// Offset from the anchor back to the race clock.
pub const RACE_TIME_BEFORE_ANCHOR: u32 = 0xA4A0;

/// First offset of the track-length chain in an ordinary race.
pub const NORMAL_TRACK_ROOT: u32 = 0x01BF_52FC;

/// First offset of the track-length chain in a championship race.
pub const CHAMP_TRACK_ROOT: u32 = 0x01BF_5DBC;

/// The anchor signature: 64 bytes of `0xFF` followed by a float constant
/// that every vehicle record holds after them.
pub open spec fn anchor_needle_spec() -> Seq<u8> {
    Seq::new(64, |i: int| 0xFFu8) + seq![0xA3u8, 0x70u8, 0x7Du8, 0x3Fu8]
}

pub fn anchor_needle() -> (r: Vec<u8>)
    ensures
        r@ == anchor_needle_spec(),
{
    let mut v: Vec<u8> = Vec::new();
    let mut i: usize = 0;
    while i < 64
        invariant
            i <= 64,
            v@ == Seq::new(i as nat, |k: int| 0xFFu8),
        decreases 64 - i,
    {
        v.push(0xFF);
        i = i + 1;
        assert(v@ =~= Seq::new(i as nat, |k: int| 0xFFu8));
    }
    v.push(0xA3);
    v.push(0x70);
    v.push(0x7D);
    v.push(0x3F);
    assert(v@ =~= anchor_needle_spec());
    v
}

/// The two known arrangements of the race data.
#[derive(Clone, Copy, Debug, PartialEq, Eq, Structural)]
pub enum AnchorLayout {
    Normal,
    Champ,
}

/// The anchor offset of a layout.
pub open spec fn anchor_of(layout: AnchorLayout) -> u32 {
    match layout {
        AnchorLayout::Normal => NORMAL_ANCHOR,
        AnchorLayout::Champ => CHAMP_ANCHOR,
    }
}

/// The layout that the floats read at the two anchors select: the ordinary
/// one if its anchor holds a NaN, else the championship one if its anchor
/// does; none otherwise.
pub fn select_layout(normal: F32Bits, champ: F32Bits) -> (r: Result<AnchorLayout, Ps2Error>)
    ensures
        f32_is_nan(normal.bits) ==> r == Ok::<AnchorLayout, Ps2Error>(AnchorLayout::Normal),
        !f32_is_nan(normal.bits) && f32_is_nan(champ.bits) ==> r == Ok::<AnchorLayout, Ps2Error>(
            AnchorLayout::Champ,
        ),
        !f32_is_nan(normal.bits) && !f32_is_nan(champ.bits) ==> r == Err::<AnchorLayout, Ps2Error>(
            Ps2Error::NoAnchor,
        ),
{
    if normal.is_nan() {
        Ok(AnchorLayout::Normal)
    } else if champ.is_nan() {
        Ok(AnchorLayout::Champ)
    } else {
        Err(Ps2Error::NoAnchor)
    }
}

/// Where the race data lies in guest memory.
pub struct Addresses {
    /// Host address of the start of main memory.
    pub ee_base: u64,
    pub layout: AnchorLayout,
    /// The first of six vehicle records.
    pub cars: Ps2Ptr<Automobile>,
    /// The first of six entry records.
    pub entries: Ps2Ptr<Entry>,
    /// The race clock, in milliseconds.
    pub race_time: Ps2Ptr<i32>,
    /// The track length in metres.
    pub track_length: Ps2PtrChain<F32Bits>,
}

impl Addresses {
    /// Whether these are the addresses that `layout` gives, with main memory
    /// at `ee_base`.
    pub open spec fn derived_from(&self, ee_base: u64, layout: AnchorLayout) -> bool {
        let k = anchor_of(layout);
        &&& self.ee_base == ee_base
        &&& self.layout == layout
        &&& self.cars.address == k - NAN_BLOCK_OFFSET - AUTOMOBILE_SIZE
        &&& self.entries.address == k - ENTRIES_BEFORE_ANCHOR
        &&& self.race_time.address == k - RACE_TIME_BEFORE_ANCHOR
        &&& self.track_length.offsets@ == seq![
            if layout == AnchorLayout::Normal {
                NORMAL_TRACK_ROOT
            } else {
                CHAMP_TRACK_ROOT
            },
            404u32,
            20u32,
        ]
    }

    /// The addresses that `layout` gives, with main memory at `ee_base`.
    pub fn for_layout(ee_base: u64, layout: AnchorLayout) -> (r: Addresses)
        ensures
            r.derived_from(ee_base, layout),
    {
        let k: u32 = match layout {
            AnchorLayout::Normal => NORMAL_ANCHOR,
            AnchorLayout::Champ => CHAMP_ANCHOR,
        };
        let root: u32 = match layout {
            AnchorLayout::Normal => NORMAL_TRACK_ROOT,
            AnchorLayout::Champ => CHAMP_TRACK_ROOT,
        };
        let r = Addresses {
            ee_base,
            layout,
            cars: Ps2Ptr::new(k - NAN_BLOCK_OFFSET as u32 - AUTOMOBILE_SIZE as u32),
            entries: Ps2Ptr::new(k - ENTRIES_BEFORE_ANCHOR),
            race_time: Ps2Ptr::new(k - RACE_TIME_BEFORE_ANCHOR),
            track_length: Ps2PtrChain::new(vec![root, 404, 20]),
        };
        assert(r.track_length.offsets@ =~= seq![root, 404u32, 20u32]);
        r
    }

    /// Chooses the layout by probing the two anchors in guest memory: the
    /// ordinary one if a NaN is found there, else the championship one if a
    /// NaN is found there.
    pub fn resolve<M: Ps2Memory>(mem: &GuestMemory<'_, M>) -> (r: Result<Addresses, Ps2Error>)
        requires
            mem.wf(),
        ensures
            r matches Ok(a) ==> a.derived_from(mem.ee_base, a.layout),
            r matches Err(e) ==> (e is NoAnchor || e is ReadFailure),
    {
        let normal = match Ps2Ptr::<F32Bits>::new(NORMAL_ANCHOR).get(mem) {
            Ok(v) => v,
            Err(e) => {
                return Err(e);
            },
        };
        let layout = if normal.is_nan() {
            AnchorLayout::Normal
        } else {
            let champ = match Ps2Ptr::<F32Bits>::new(CHAMP_ANCHOR).get(mem) {
                Ok(v) => v,
                Err(e) => {
                    return Err(e);
                },
            };
            match select_layout(normal, champ) {
                Ok(layout) => layout,
                Err(e) => {
                    return Err(e);
                },
            }
        };
        Ok(Addresses::for_layout(mem.ee_base, layout))
    }

    /// Finds the race data: locates main memory (see `locate_ee_base`) and
    /// then chooses the layout (see `resolve`).
    pub fn find<M: Ps2Memory>(host: &M) -> (r: Result<Addresses, Ps2Error>)
        ensures
            r matches Ok(a) ==> valid_ee_base(a.ee_base) && a.derived_from(a.ee_base, a.layout),
            r matches Err(e) ==> (e is NoAnchor || e is UnexpectedAnchorCount || e is ReadFailure),
    {
        let ee_base = match locate_ee_base(host) {
            Ok(b) => b,
            Err(e) => {
                return Err(e);
            },
        };
        Addresses::resolve(&GuestMemory { host, ee_base })
    }
}

/// The least of the addresses in `s`.
pub open spec fn lowest(s: Seq<u64>) -> u64
    decreases s.len(),
{
    if s.len() <= 1 {
        s[0]
    } else if s.last() < lowest(s.drop_last()) {
        s.last()
    } else {
        lowest(s.drop_last())
    }
}

/// Where main memory starts, from the host addresses of the anchor
/// signatures: none without a match; a count other than the expected one is
/// refused; otherwise the lowest match is taken as the second car's NaN
/// block in the ordinary layout.
pub fn ee_base_from_matches(matches: &Vec<u64>) -> (r: Result<u64, Ps2Error>)
    ensures
        matches@.len() == 0 ==> r == Err::<u64, Ps2Error>(Ps2Error::NoAnchor),
        matches@.len() != 0 && matches@.len() != EXPECTED_ANCHORS ==> r == Err::<u64, Ps2Error>(
            Ps2Error::UnexpectedAnchorCount(matches@.len() as usize),
        ),
        matches@.len() == EXPECTED_ANCHORS ==> r == if lowest(matches@) >= NORMAL_ANCHOR
            && valid_ee_base((lowest(matches@) - NORMAL_ANCHOR) as u64) {
            Ok::<u64, Ps2Error>((lowest(matches@) - NORMAL_ANCHOR) as u64)
        } else {
            Err::<u64, Ps2Error>(Ps2Error::NoAnchor)
        },
{
    if matches.len() == 0 {
        return Err(Ps2Error::NoAnchor);
    }
    if matches.len() != EXPECTED_ANCHORS {
        return Err(Ps2Error::UnexpectedAnchorCount(matches.len()));
    }
    let mut low = matches[0];
    let mut i: usize = 1;
    while i < matches.len()
        invariant
            1 <= i <= matches@.len(),
            low == lowest(matches@.take(i as int)),
        decreases matches@.len() - i,
    {
        proof {
            assert(matches@.take(i + 1).drop_last() =~= matches@.take(i as int));
        }
        if matches[i] < low {
            low = matches[i];
        }
        i = i + 1;
    }
    assert(matches@.take(matches@.len() as int) =~= matches@);
    if low < NORMAL_ANCHOR as u64 || low - (NORMAL_ANCHOR as u64) > u64::MAX - 0x0200_0000 {
        return Err(Ps2Error::NoAnchor);
    }
    Ok(low - NORMAL_ANCHOR as u64)
}

/// Scans the host memory for the anchor signature and places main memory
/// from the matches (see `ee_base_from_matches`).
pub fn locate_ee_base<M: Ps2Memory>(host: &M) -> (r: Result<u64, Ps2Error>)
    ensures
        r matches Ok(b) ==> valid_ee_base(b),
        r matches Err(e) ==> (e is NoAnchor || e is UnexpectedAnchorCount),
{
    let needle = anchor_needle();
    match find_all_offsets(host, needle.as_slice()) {
        Some(matches) => ee_base_from_matches(&matches),
        None => Err(Ps2Error::NoAnchor),
    }
}

} // verus!
