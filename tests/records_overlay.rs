use gt4timing::game_data::{RaceState, MAX_CARS};
use gt4timing::overlay::{display_order, gap_text, overlay_rows, position_letter};
use gt4timing::ps2_types::{F32Bits, Ps2Value};
use gt4timing::records::{
    Automobile, CarSpec, Entry, TuningTable, AUTOMOBILE_SIZE, ENTRY_SIZE,
};

fn automobile_bytes() -> Vec<u8> {
    let mut b = vec![0u8; AUTOMOBILE_SIZE];
    b[0..4].copy_from_slice(&0x0010_0000u32.to_le_bytes());
    b[4..8].copy_from_slice(&0x0020_0000u32.to_le_bytes());
    b[16..20].copy_from_slice(&0x0030_0000u32.to_le_bytes());
    for x in b[140..204].iter_mut() {
        *x = 0xFF;
    }
    b[1280..1284].copy_from_slice(&0.5f32.to_le_bytes());
    b[1284..1288].copy_from_slice(&0.25f32.to_le_bytes());
    b[1308..1312].copy_from_slice(&1234.5f32.to_le_bytes());
    b[1316..1318].copy_from_slice(&(-1i16).to_le_bytes());
    b[1432] = 4;
    b[1708..1712].copy_from_slice(&6500.0f32.to_le_bytes());
    b[1784..1788].copy_from_slice(&0.75f32.to_le_bytes());
    b
}

#[test]
fn record_sizes() {
    assert_eq!(Automobile::size(), 4256);
    assert_eq!(Entry::size(), 13792);
    assert_eq!(CarSpec::size(), 76);
}

#[test]
fn automobile_fields_at_their_offsets() {
    let b = automobile_bytes();
    let a = Automobile::decode_at(&b, 0);
    assert_eq!(a.race_organisation.address, 0x0010_0000);
    assert_eq!(a.dynamics_conductor.address, 0x0020_0000);
    assert_eq!(a.car_spec.address, 0x0030_0000);
    assert!(a.nan_block_intact);
    assert_eq!(a.throttle_pedal, F32Bits { bits: 0.5f32.to_bits() });
    assert_eq!(a.brake_primary, F32Bits { bits: 0.25f32.to_bits() });
    assert_eq!(a.meters_driven_in_current_lap, F32Bits { bits: 1234.5f32.to_bits() });
    assert_eq!(a.current_lap_index, -1);
    assert_eq!(a.gear, 4);
    assert_eq!(a.rpm, F32Bits { bits: 6500.0f32.to_bits() });
    assert_eq!(a.brake_secondary, F32Bits { bits: 0.75f32.to_bits() });
}

#[test]
fn automobile_decoded_at_offset() {
    let mut b = vec![0u8; 10];
    b.extend(automobile_bytes());
    b[10 + 150] = 0;
    let a = Automobile::decode_at(&b, 10);
    assert!(!a.nan_block_intact);
    assert_eq!(a.gear, 4);
}

#[test]
fn car_spec_mass() {
    let mut b = vec![0u8; 76];
    b[72..76].copy_from_slice(&1250.0f32.to_le_bytes());
    assert_eq!(CarSpec::decode_at(&b, 0).mass, F32Bits { bits: 1250.0f32.to_bits() });
}

fn entry_bytes() -> Vec<u8> {
    let mut b = vec![0u8; ENTRY_SIZE];
    let items: [(i32, i32); 4] = [(5, 1), (9, 12), (3, 99), (7, 12)];
    for (k, &(row, tag)) in items.iter().enumerate() {
        b[8 * k..8 * k + 4].copy_from_slice(&row.to_le_bytes());
        b[8 * k + 4..8 * k + 8].copy_from_slice(&tag.to_le_bytes());
    }
    for k in items.len()..34 {
        b[8 * k + 4..8 * k + 8].copy_from_slice(&(-1i32).to_le_bytes());
    }
    b[13276..13281].copy_from_slice(b"eng.s");
    b[13420..13428].copy_from_slice(b"Skyline\0");
    b[13548..13560].copy_from_slice(b"Skyline GT-R");
    b
}

#[test]
fn entry_fields_and_tuning() {
    let e = Entry::decode_at(&entry_bytes(), 0);
    assert_eq!(e.tuning_data.len(), 34);
    assert_eq!(e.tuning(TuningTable::BRAKE), Some(5));
    assert_eq!(e.tuning(TuningTable::ENGINE), Some(9));
    assert_eq!(e.tuning(TuningTable::GEARING), None);
    assert_eq!(e.tuning_data[2].table, None);
    assert_eq!(&e.engine_sound_path[0..5], b"eng.s");
    assert_eq!(e.car_name_short.to_text(), "Skyline");
    assert_eq!(e.car_name.to_text(), "Skyline GT-R");
}

#[test]
fn tuning_tags() {
    assert_eq!(TuningTable::from_tag(0), Some(TuningTable::GENERIC_CAR));
    assert_eq!(TuningTable::from_tag(26), Some(TuningTable::REAR_TIRE));
    assert_eq!(TuningTable::from_tag(25), Some(TuningTable::FRONT_TIRE));
    assert_eq!(TuningTable::from_tag(2), None);
}

#[test]
fn gap_texts() {
    assert_eq!(gap_text(Some(15_000)), "+15.00");
    assert_eq!(gap_text(Some(1_234)), "+1.23");
    assert_eq!(gap_text(Some(1_235)), "+1.24");
    assert_eq!(gap_text(Some(0)), "+0.00");
    assert_eq!(gap_text(Some(123_456_789)), "+123456.79");
    assert_eq!(gap_text(Some(-250)), "-0.25");
    assert_eq!(gap_text(None), "\u{2014}");
}

#[test]
fn letters_by_slot() {
    let letters: String = (0..MAX_CARS).map(position_letter).collect();
    assert_eq!(letters, "FABCDE");
}

#[test]
fn rows_by_descending_progress() {
    let p = vec![Some(10), None, Some(30), Some(10), Some(-5), Some(30)];
    assert_eq!(display_order(&p), vec![2, 5, 0, 3, 4, 1]);
    assert_eq!(display_order(&vec![]), Vec::<usize>::new());
}

#[test]
fn overlay_rows_of_a_snapshot() {
    let entry = Entry::decode_at(&entry_bytes(), 0);
    let entries: Vec<Entry> = (0..MAX_CARS).map(|_| Entry::decode_at(&entry_bytes(), 0)).collect();
    drop(entry);
    let cars: Vec<Automobile> =
        (0..MAX_CARS).map(|_| Automobile::decode_at(&automobile_bytes(), 0)).collect();
    let state = RaceState {
        track_length: F32Bits { bits: 2000.0f32.to_bits() },
        race_time: 50_000,
        cars,
        entries,
        progress: vec![Some(5), Some(9), None, Some(1), Some(7), Some(3)],
        gaps_to_leader: vec![Some(4_000), None, None, Some(12_345), Some(2_000), None],
    };
    let rows = overlay_rows(&state);
    let slots: Vec<usize> = rows.iter().map(|r| r.slot).collect();
    assert_eq!(slots, vec![1, 4, 0, 5, 3, 2]);
    assert_eq!(rows[0].letter, 'A');
    assert_eq!(rows[0].gap, "\u{2014}");
    assert_eq!(rows[1].letter, 'D');
    assert_eq!(rows[1].gap, "+2.00");
    assert_eq!(rows[4].gap, "+12.35");
    assert_eq!(rows[2].name, "Skyline");
}
