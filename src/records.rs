//! The game's per-car records, decoded from their exact byte layout.
use crate::ps2_types::{
    le_i16, le_i32, le_u32, lemma_field_bytes, read_i16_le, read_i32_le, read_u32_le, F32Bits,
    Ps2Ptr, Ps2String, Ps2Value,
};
use vstd::prelude::*;

verus! {

/// Size in bytes of a vehicle record.
pub const AUTOMOBILE_SIZE: usize = 4256;

/// Size in bytes of an entry record.
pub const ENTRY_SIZE: usize = 13792;

/// Size in bytes of the part of a car specification that is read.
pub const CAR_SPEC_SIZE: usize = 76;

/// Offset of the 64-byte block of `0xFF` bytes in a vehicle record.
pub const NAN_BLOCK_OFFSET: usize = 140;

/// Length of that block.
pub const NAN_BLOCK_LEN: usize = 64;

/// Number of tuning items at the start of an entry record.
pub const TUNING_ITEMS: usize = 34;

/// The little-endian `u32` at offset `off` of the bytes `e`.
pub open spec fn u32_at(e: Seq<u8>, off: int) -> int {
    le_u32(e.subrange(off, off + 4))
}

/// The little-endian `i32` at offset `off` of the bytes `e`.
pub open spec fn i32_at(e: Seq<u8>, off: int) -> int {
    le_i32(e.subrange(off, off + 4))
}

/// Reads the `u32` at offset `off` of the record of `size` bytes at `pos`.
fn u32_field(b: &[u8], pos: usize, size: usize, off: usize) -> (r: u32)
    requires
        pos + size <= b@.len(),
        off + 4 <= size,
    ensures
        r == u32_at(b@.subrange(pos as int, pos + size), off as int),
{
    let _len = b.len();
    proof {
        lemma_field_bytes(b@, pos as int, size as int, off as int, 4);
    }
    read_u32_le(b, pos + off)
}

/// Reads the `i32` at offset `off` of the record of `size` bytes at `pos`.
fn i32_field(b: &[u8], pos: usize, size: usize, off: usize) -> (r: i32)
    requires
        pos + size <= b@.len(),
        off + 4 <= size,
    ensures
        r == i32_at(b@.subrange(pos as int, pos + size), off as int),
{
    let _len = b.len();
    proof {
        lemma_field_bytes(b@, pos as int, size as int, off as int, 4);
    }
    read_i32_le(b, pos + off)
}

/// Copies the `w` bytes at offset `off` of the record of `size` bytes at `pos`.
fn bytes_field(b: &[u8], pos: usize, size: usize, off: usize, w: usize) -> (r: Vec<u8>)
    requires
        pos + size <= b@.len(),
        off + w <= size,
    ensures
        r@ == b@.subrange(pos as int, pos + size).subrange(off as int, off + w),
{
    let blen = b.len();
    proof {
        lemma_field_bytes(b@, pos as int, size as int, off as int, w as int);
    }
    let mut out: Vec<u8> = Vec::new();
    let mut i: usize = 0;
    while i < w
        invariant
            pos + size <= b@.len(),
            blen == b@.len(),
            off + w <= size,
            i <= w,
            out@ == b@.subrange(pos + off, pos + off + i),
        decreases w - i,
    {
        out.push(b[pos + off + i]);
        assert(b@.subrange(pos + off, pos + off + i + 1) =~= b@.subrange(pos + off, pos + off + i).push(
            b@[pos + off + i],
        ));
        i = i + 1;
    }
    out
}

/// The part of a car's specification record that is read: its mass.
pub struct CarSpec {
    /// Mass, a 32-bit float at byte 72.
    pub mass: F32Bits,
}

impl Ps2Value for CarSpec {
    open spec fn byte_len() -> nat {
        CAR_SPEC_SIZE as nat
    }

    open spec fn decodes(&self, e: Seq<u8>) -> bool {
        self.mass.bits == u32_at(e, 72)
    }

    fn size() -> (r: usize) {
        CAR_SPEC_SIZE
    }

    fn decode_at(b: &[u8], pos: usize) -> (r: CarSpec) {
        CarSpec { mass: F32Bits { bits: u32_field(b, pos, CAR_SPEC_SIZE, 72) } }
    }
}

/// A vehicle record: live telemetry of one car, 4,256 bytes.
pub struct Automobile {
    pub race_organisation: Ps2Ptr<()>,
    pub dynamics_conductor: Ps2Ptr<()>,
    pub car_spec: Ps2Ptr<CarSpec>,
    /// Whether the 64 bytes at offset 140 are all `0xFF`.
    pub nan_block_intact: bool,
    pub throttle_pedal: F32Bits,
    pub brake_primary: F32Bits,
    pub throttle_actual: F32Bits,
    pub meters_driven_in_current_lap: F32Bits,
    /// Negative before the start.
    pub current_lap_index: i16,
    pub almost_rpm: F32Bits,
    pub gear: u8,
    pub rpm: F32Bits,
    pub throttle_tertiary: F32Bits,
    pub throttle_quaternary: F32Bits,
    pub brake_secondary: F32Bits,
}

/// Whether every byte of `e` in `off..off + len` is `0xFF`.
pub open spec fn all_ff(e: Seq<u8>, off: int, len: int) -> bool {
    forall|i: int| off <= i < off + len ==> e[i] == 0xFF
}

impl Ps2Value for Automobile {
    open spec fn byte_len() -> nat {
        AUTOMOBILE_SIZE as nat
    }

    open spec fn decodes(&self, e: Seq<u8>) -> bool {
        &&& self.race_organisation.address == u32_at(e, 0)
        &&& self.dynamics_conductor.address == u32_at(e, 4)
        &&& self.car_spec.address == u32_at(e, 16)
        &&& self.nan_block_intact == all_ff(e, NAN_BLOCK_OFFSET as int, NAN_BLOCK_LEN as int)
        &&& self.throttle_pedal.bits == u32_at(e, 1280)
        &&& self.brake_primary.bits == u32_at(e, 1284)
        &&& self.throttle_actual.bits == u32_at(e, 1292)
        &&& self.meters_driven_in_current_lap.bits == u32_at(e, 1308)
        &&& self.current_lap_index == le_i16(e.subrange(1316, 1318))
        &&& self.almost_rpm.bits == u32_at(e, 1396)
        &&& self.gear == e[1432]
        &&& self.rpm.bits == u32_at(e, 1708)
        &&& self.throttle_tertiary.bits == u32_at(e, 1724)
        &&& self.throttle_quaternary.bits == u32_at(e, 1780)
        &&& self.brake_secondary.bits == u32_at(e, 1784)
    }

    fn size() -> (r: usize) {
        AUTOMOBILE_SIZE
    }

    fn decode_at(b: &[u8], pos: usize) -> (r: Automobile) {
        let ghost e = b@.subrange(pos as int, pos + AUTOMOBILE_SIZE);
        let n = AUTOMOBILE_SIZE;
        let blen = b.len();
        let mut intact = true;
        let mut i: usize = 0;
        while i < NAN_BLOCK_LEN
            invariant
                pos + n <= b@.len(),
                blen == b@.len(),
                n == AUTOMOBILE_SIZE,
                e == b@.subrange(pos as int, pos + n),
                i <= NAN_BLOCK_LEN,
                intact == all_ff(e, NAN_BLOCK_OFFSET as int, i as int),
            decreases NAN_BLOCK_LEN - i,
        {
            if b[pos + NAN_BLOCK_OFFSET + i] != 0xFF {
                intact = false;
            }
            assert(e[NAN_BLOCK_OFFSET + i] == b@[pos + NAN_BLOCK_OFFSET + i]);
            i = i + 1;
        }
        proof {
            lemma_field_bytes(b@, pos as int, n as int, 1316, 2);
        }
        let gear = b[pos + 1432];
        assert(e[1432] == gear);
        Automobile {
            race_organisation: Ps2Ptr::new(u32_field(b, pos, n, 0)),
            dynamics_conductor: Ps2Ptr::new(u32_field(b, pos, n, 4)),
            car_spec: Ps2Ptr::new(u32_field(b, pos, n, 16)),
            nan_block_intact: intact,
            throttle_pedal: F32Bits { bits: u32_field(b, pos, n, 1280) },
            brake_primary: F32Bits { bits: u32_field(b, pos, n, 1284) },
            throttle_actual: F32Bits { bits: u32_field(b, pos, n, 1292) },
            meters_driven_in_current_lap: F32Bits { bits: u32_field(b, pos, n, 1308) },
            current_lap_index: read_i16_le(b, pos + 1316),
            almost_rpm: F32Bits { bits: u32_field(b, pos, n, 1396) },
            gear,
            rpm: F32Bits { bits: u32_field(b, pos, n, 1708) },
            throttle_tertiary: F32Bits { bits: u32_field(b, pos, n, 1724) },
            throttle_quaternary: F32Bits { bits: u32_field(b, pos, n, 1780) },
            brake_secondary: F32Bits { bits: u32_field(b, pos, n, 1784) },
        }
    }
}

/// The tuning tables that an entry's tuning items refer to.
#[allow(non_camel_case_types)]
#[derive(Clone, Copy, Debug, PartialEq, Eq, Structural)]
pub enum TuningTable {
    GENERIC_CAR,
    BRAKE,
    CHASSIS,
    RACING_MODIFY,
    DRIVETRAIN,
    GEARING,
    ENGINE,
    RACING_CHIP,
    FRONT_TIRE,
    REAR_TIRE,
}

/// The table that a tag in guest memory names, if it names one.
pub open spec fn table_of_tag(tag: int) -> Option<TuningTable> {
    if tag == 0 {
        Some(TuningTable::GENERIC_CAR)
    } else if tag == 1 {
        Some(TuningTable::BRAKE)
    } else if tag == 6 {
        Some(TuningTable::CHASSIS)
    } else if tag == 7 {
        Some(TuningTable::RACING_MODIFY)
    } else if tag == 10 {
        Some(TuningTable::DRIVETRAIN)
    } else if tag == 11 {
        Some(TuningTable::GEARING)
    } else if tag == 12 {
        Some(TuningTable::ENGINE)
    } else if tag == 18 {
        Some(TuningTable::RACING_CHIP)
    } else if tag == 25 {
        Some(TuningTable::FRONT_TIRE)
    } else if tag == 26 {
        Some(TuningTable::REAR_TIRE)
    } else {
        None
    }
}

impl TuningTable {
    pub fn from_tag(tag: i32) -> (r: Option<TuningTable>)
        ensures
            r == table_of_tag(tag as int),
    {
        match tag {
            0 => Some(TuningTable::GENERIC_CAR),
            1 => Some(TuningTable::BRAKE),
            6 => Some(TuningTable::CHASSIS),
            7 => Some(TuningTable::RACING_MODIFY),
            10 => Some(TuningTable::DRIVETRAIN),
            11 => Some(TuningTable::GEARING),
            12 => Some(TuningTable::ENGINE),
            18 => Some(TuningTable::RACING_CHIP),
            25 => Some(TuningTable::FRONT_TIRE),
            26 => Some(TuningTable::REAR_TIRE),
            _ => None,
        }
    }
}

/// One tuning item: a row of a tuning table. `table` is `None` where the
/// tag in guest memory names no known table.
#[derive(Clone, Copy)]
pub struct TuningItem {
    pub row_id: i32,
    pub table: Option<TuningTable>,
}

/// An entry record: slowly changing metadata of one car, 13,792 bytes.
pub struct Entry {
    pub tuning_data: Vec<TuningItem>,
    pub engine_sound_path: Vec<u8>,
    pub normal_sound_path: Vec<u8>,
    pub car_name_short: Ps2String<128>,
    pub car_name: Ps2String<192>,
}

/// Offset of the engine sound path in an entry record.
pub const ENGINE_SOUND_OFFSET: usize = 13276;

/// Offset of the normal sound path in an entry record.
pub const NORMAL_SOUND_OFFSET: usize = 13308;

/// Offset of the short car name in an entry record.
pub const SHORT_NAME_OFFSET: usize = 13420;

/// Offset of the full car name in an entry record.
pub const FULL_NAME_OFFSET: usize = 13548;

/// The row id of the first item of `items` that belongs to `table`.
pub open spec fn first_row_of(items: Seq<TuningItem>, table: TuningTable) -> Option<i32> {
    if exists|k: int| 0 <= k < items.len() && items[k].table == Some(table) {
        let k = choose|k: int|
            0 <= k < items.len() && items[k].table == Some(table) && forall|j: int|
                0 <= j < k ==> items[j].table != Some(table);
        Some(items[k].row_id)
    } else {
        None
    }
}

impl Entry {
    /// The row id of the first tuning item that belongs to `table`.
    pub fn tuning(&self, table: TuningTable) -> (r: Option<i32>)
        ensures
            r == first_row_of(self.tuning_data@, table),
    {
        let mut i: usize = 0;
        while i < self.tuning_data.len()
            invariant
                i <= self.tuning_data@.len(),
                forall|j: int| 0 <= j < i ==> self.tuning_data@[j].table != Some(table),
            decreases self.tuning_data@.len() - i,
        {
            if self.tuning_data[i].table == Some(table) {
                proof {
                    let items = self.tuning_data@;
                    let k = choose|k: int|
                        0 <= k < items.len() && items[k].table == Some(table) && forall|j: int|
                            0 <= j < k ==> items[j].table != Some(table);
                    assert(k == i);
                }
                return Some(self.tuning_data[i].row_id);
            }
            i = i + 1;
        }
        None
    }
}

impl Ps2Value for Entry {
    open spec fn byte_len() -> nat {
        ENTRY_SIZE as nat
    }

    open spec fn decodes(&self, e: Seq<u8>) -> bool {
        &&& self.tuning_data@.len() == TUNING_ITEMS
        &&& forall|k: int|
            0 <= k < TUNING_ITEMS ==> {
                &&& #[trigger] self.tuning_data@[k].row_id == i32_at(e, 8 * k)
                &&& self.tuning_data@[k].table == table_of_tag(i32_at(e, 8 * k + 4))
            }
        &&& self.engine_sound_path@ == e.subrange(
            ENGINE_SOUND_OFFSET as int,
            ENGINE_SOUND_OFFSET + 32,
        )
        &&& self.normal_sound_path@ == e.subrange(
            NORMAL_SOUND_OFFSET as int,
            NORMAL_SOUND_OFFSET + 32,
        )
        &&& self.car_name_short.wf()
        &&& self.car_name_short.view() == e.subrange(SHORT_NAME_OFFSET as int, SHORT_NAME_OFFSET + 128)
        &&& self.car_name.wf()
        &&& self.car_name.view() == e.subrange(FULL_NAME_OFFSET as int, FULL_NAME_OFFSET + 192)
    }

    fn size() -> (r: usize) {
        ENTRY_SIZE
    }

    fn decode_at(b: &[u8], pos: usize) -> (r: Entry) {
        let n = ENTRY_SIZE;
        let mut tuning_data: Vec<TuningItem> = Vec::new();
        let mut k: usize = 0;
        while k < TUNING_ITEMS
            invariant
                pos + n <= b@.len(),
                n == ENTRY_SIZE,
                k <= TUNING_ITEMS,
                tuning_data@.len() == k,
                forall|j: int|
                    0 <= j < k ==> {
                        &&& #[trigger] tuning_data@[j].row_id == i32_at(
                            b@.subrange(pos as int, pos + n),
                            8 * j,
                        )
                        &&& tuning_data@[j].table == table_of_tag(
                            i32_at(b@.subrange(pos as int, pos + n), 8 * j + 4),
                        )
                    },
            decreases TUNING_ITEMS - k,
        {
            let row_id = i32_field(b, pos, n, 8 * k);
            let tag = i32_field(b, pos, n, 8 * k + 4);
            tuning_data.push(TuningItem { row_id, table: TuningTable::from_tag(tag) });
            k = k + 1;
        }
        let short = bytes_field(b, pos, n, SHORT_NAME_OFFSET, 128);
        let full = bytes_field(b, pos, n, FULL_NAME_OFFSET, 192);
        let car_name_short = Ps2String::<128>::new(short.as_slice());
        let car_name = Ps2String::<192>::new(full.as_slice());
        assert(short@ + Seq::new(0, |i: int| 0u8) =~= short@);
        assert(full@ + Seq::new(0, |i: int| 0u8) =~= full@);
        Entry {
            tuning_data,
            engine_sound_path: bytes_field(b, pos, n, ENGINE_SOUND_OFFSET, 32),
            normal_sound_path: bytes_field(b, pos, n, NORMAL_SOUND_OFFSET, 32),
            car_name_short,
            car_name,
        }
    }
}

/// A vehicle record is 4,256 bytes and an entry record 13,792; every field
/// that is read lies inside its record, and none overlaps the NaN block.
pub proof fn lemma_record_sizes()
    ensures
        <Automobile as Ps2Value>::byte_len() == 4256,
        <Entry as Ps2Value>::byte_len() == 13792,
        NAN_BLOCK_OFFSET + NAN_BLOCK_LEN <= 1280,
        1784 + 4 <= AUTOMOBILE_SIZE,
        8 * TUNING_ITEMS <= ENGINE_SOUND_OFFSET,
        ENGINE_SOUND_OFFSET + 32 <= NORMAL_SOUND_OFFSET,
        NORMAL_SOUND_OFFSET + 32 <= SHORT_NAME_OFFSET,
        SHORT_NAME_OFFSET + 128 <= FULL_NAME_OFFSET,
        FULL_NAME_OFFSET + 192 <= ENTRY_SIZE,
{
}

} // verus!
