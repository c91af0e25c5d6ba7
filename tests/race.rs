use gt4timing::anchor::{anchor_needle, NORMAL_ANCHOR};
use gt4timing::checkpoints::CheckpointMap;
use gt4timing::game_data::{GameData, MAX_CARS};
use gt4timing::guest::{HostRegion, Ps2Error, Ps2Memory};
use gt4timing::progress::{progress, PROGRESS_ONE};
use gt4timing::ps2_types::F32Bits;

struct Nothing;

impl Ps2Memory for Nothing {
    fn read_host(&self, _host_address: u64, _len: usize) -> Result<Vec<u8>, Ps2Error> {
        Err(Ps2Error::ReadFailure("no memory".to_string()))
    }

    fn scan_regions(&self) -> Vec<HostRegion> {
        Vec::new()
    }
}

fn f(x: f32) -> F32Bits {
    F32Bits { bits: x.to_bits() }
}

fn laps(x: f64) -> i64 {
    (x * PROGRESS_ONE as f64) as i64
}

fn all_none() -> Vec<Option<i64>> {
    vec![None; MAX_CARS]
}

#[test]
fn progress_three_and_a_quarter() {
    assert_eq!(progress(3, f(500.0), f(2000.0)), Some(laps(3.25)));
    assert_eq!(laps(3.25), 3_407_872);
}

#[test]
fn progress_rounds_down() {
    // a third of a lap
    assert_eq!(progress(0, f(1.0), f(3.0)), Some(349_525));
    assert_eq!(progress(0, f(-1.0), f(3.0)), Some(-349_526));
}

#[test]
fn progress_before_the_start() {
    assert_eq!(progress(-1, f(0.0), f(2000.0)), Some(-PROGRESS_ONE));
    assert_eq!(progress(0, f(-0.0), f(2000.0)), Some(0));
}

#[test]
fn progress_of_tiny_and_huge_numbers() {
    assert_eq!(progress(1, F32Bits { bits: 1 }, f(1.0)), Some(PROGRESS_ONE));
    assert_eq!(progress(0, f(1.0e30), f(1.0e-30)), None);
    assert_eq!(progress(2, f(2f32.powi(100)), f(2f32.powi(98))), Some(laps(6.0)));
}

#[test]
fn progress_rejects_nan_infinity_and_bad_length() {
    assert_eq!(progress(1, f(f32::NAN), f(2000.0)), None);
    assert_eq!(progress(1, f(10.0), f(f32::NAN)), None);
    assert_eq!(progress(1, f(f32::INFINITY), f(2000.0)), None);
    assert_eq!(progress(1, f(10.0), f(0.0)), None);
    assert_eq!(progress(1, f(10.0), f(-5.0)), None);
}

#[test]
fn checkpoint_map_keeps_keys_sorted_and_replaces() {
    let mut m = CheckpointMap::new();
    m.insert(30, 3);
    m.insert(10, 1);
    m.insert(20, 2);
    m.insert(20, 5);
    assert_eq!(m.len(), 3);
    assert_eq!((m.get(0), m.get(1), m.get(2)), ((10, 1), (20, 5), (30, 3)));
    assert_eq!(m.bracket(25), (Some((20, 5)), Some((30, 3))));
    assert_eq!(m.bracket(20), (Some((20, 5)), Some((20, 5))));
    assert_eq!(m.bracket(5), (None, Some((10, 1))));
    m.clear();
    assert_eq!(m.len(), 0);
}

#[test]
fn interpolation_between_checkpoints() {
    let mut m = CheckpointMap::new();
    m.insert(laps(2.0), 100_000);
    m.insert(laps(3.0), 110_000);
    assert_eq!(m.interpolate(laps(2.5)), Some(105_000));
    assert_eq!(m.interpolate(laps(2.0)), Some(100_000));
    assert_eq!(m.interpolate(laps(3.5)), None);
}

#[test]
fn gap_interpolation() {
    let mut g = GameData::new(Nothing);
    let mut p = all_none();
    p[1] = Some(laps(2.0));
    g.record_tick(100_000, &p);
    p[1] = Some(laps(3.0));
    g.record_tick(110_000, &p);
    let mut now = all_none();
    now[0] = Some(laps(2.5));
    g.record_tick(120_000, &now);
    assert_eq!(g.calculate_gap_to_leader_ms(0, Some(laps(2.5))), Some(15_000));
    let gaps = g.gaps_to_leader(&now);
    assert_eq!(gaps[0], Some(15_000));
    assert_eq!(gaps[1], None);
}

#[test]
fn gap_unavailable() {
    let mut g = GameData::new(Nothing);
    let mut p = all_none();
    p[1] = Some(laps(2.0));
    g.record_tick(100_000, &p);
    let mut now = all_none();
    now[0] = Some(laps(2.5));
    g.record_tick(120_000, &now);
    assert_eq!(g.calculate_gap_to_leader_ms(0, Some(laps(2.5))), None);
}

#[test]
fn gap_takes_the_leader() {
    let mut g = GameData::new(Nothing);
    let mut p = all_none();
    p[1] = Some(laps(2.0));
    p[2] = Some(laps(2.2));
    g.record_tick(100_000, &p);
    p[1] = Some(laps(3.0));
    p[2] = Some(laps(3.2));
    g.record_tick(110_000, &p);
    // car 2 reached 2.5 laps at 103,000 ms, car 1 at 105,000
    assert_eq!(g.calculate_gap_to_leader_ms(0, Some(laps(2.5))), Some(110_000 - 103_000));
}

#[test]
fn gap_is_none_on_the_grid() {
    let g = GameData::new(Nothing);
    assert_eq!(g.calculate_gap_to_leader_ms(0, Some(laps(0.5))), None);
    assert_eq!(g.calculate_gap_to_leader_ms(0, None), None);
}

#[test]
fn grid_progress_is_not_recorded() {
    let mut g = GameData::new(Nothing);
    let mut p = all_none();
    p[0] = Some(laps(0.99));
    p[1] = Some(laps(1.0));
    g.record_tick(1_000, &p);
    assert_eq!(g.checkpoints(0).len(), 0);
    assert_eq!(g.checkpoints(1).len(), 1);
    assert_eq!(g.race_time(), 1_000);
}

#[test]
fn reset_on_regression() {
    let mut g = GameData::new(Nothing);
    for (t, lap) in [(1_000, 1.1), (3_000, 1.2), (5_000, 1.3)] {
        let p: Vec<Option<i64>> = (0..MAX_CARS).map(|i| Some(laps(lap + i as f64 * 0.01))).collect();
        g.record_tick(t, &p);
    }
    for i in 0..MAX_CARS {
        assert_eq!(g.checkpoints(i).len(), 3);
    }
    g.record_tick(4_000, &all_none());
    for i in 0..MAX_CARS {
        assert_eq!(g.checkpoints(i).len(), 0);
    }
    let mut p = all_none();
    p[2] = Some(laps(1.05));
    g.record_tick(4_500, &p);
    assert_eq!(g.checkpoints(2).len(), 1);
    assert_eq!(g.checkpoints(2).get(0), (laps(1.05), 4_500));
    assert_eq!(g.checkpoints(0).len(), 0);
}

#[test]
fn regression_keeps_only_this_ticks_checkpoint() {
    let mut g = GameData::new(Nothing);
    let p: Vec<Option<i64>> = vec![Some(laps(1.5)); MAX_CARS];
    g.record_tick(9_000, &p);
    let q: Vec<Option<i64>> = vec![Some(laps(1.1)); MAX_CARS];
    g.record_tick(2_000, &q);
    for i in 0..MAX_CARS {
        assert_eq!(g.checkpoints(i).len(), 1);
        assert_eq!(g.checkpoints(i).get(0), (laps(1.1), 2_000));
    }
}

/// A guest image of a running race in the ordinary layout.
struct Race {
    base: u64,
    bytes: Vec<u8>,
}

const EE: u64 = 0x5000_0000;
const K: u32 = NORMAL_ANCHOR;
const LOW: u32 = K - 0x30000;

impl Race {
    fn put(&mut self, guest: u32, b: &[u8]) {
        let at = (guest - LOW) as usize;
        self.bytes[at..at + b.len()].copy_from_slice(b);
    }

    fn new(race_time: i32, track: f32, cars: &[(i16, f32)]) -> Race {
        let mut r = Race { base: EE + LOW as u64, bytes: vec![0u8; 0x30000 + 6 * 4256] };
        let needle = anchor_needle();
        let cars_at = K - 140 - 4256;
        for (slot, &(lap, meters)) in cars.iter().enumerate() {
            let rec = cars_at + slot as u32 * 4256;
            if slot > 0 {
                r.put(rec + 140, &needle);
            }
            r.put(rec + 1308, &meters.to_le_bytes());
            r.put(rec + 1316, &lap.to_le_bytes());
        }
        let entries_at = K - 0x2E0A4;
        for slot in 0..6u32 {
            let name = format!("Car {}", slot);
            r.put(entries_at + slot * 13792 + 13420, name.as_bytes());
        }
        r.put(K - 0xA4A0, &race_time.to_le_bytes());
        let outer = K - 0x9000;
        let inner = K - 0x8000;
        r.put(0x01BF_52FC, &outer.to_le_bytes());
        r.put(outer + 404, &inner.to_le_bytes());
        r.put(inner + 20, &track.to_le_bytes());
        r
    }
}

impl Ps2Memory for Race {
    fn read_host(&self, host_address: u64, len: usize) -> Result<Vec<u8>, Ps2Error> {
        if host_address < self.base
            || host_address - self.base + len as u64 > self.bytes.len() as u64
        {
            return Err(Ps2Error::ReadFailure("outside the image".to_string()));
        }
        let at = (host_address - self.base) as usize;
        Ok(self.bytes[at..at + len].to_vec())
    }

    fn scan_regions(&self) -> Vec<HostRegion> {
        vec![HostRegion { base: self.base, size: self.bytes.len() as u64 }]
    }
}

#[test]
fn sample_race_reads_and_times_the_cars() {
    let cars = [(2i16, 500.0f32), (2, 1000.0), (1, 1500.0), (0, 100.0), (3, 0.0), (2, 0.0)];
    let mut g = GameData::new(Race::new(60_000, 2000.0, &cars));
    let s = g.sample_race().unwrap();
    assert_eq!(s.race_time, 60_000);
    assert_eq!(s.track_length, f(2000.0));
    assert_eq!(s.cars.len(), MAX_CARS);
    assert_eq!(s.entries.len(), MAX_CARS);
    assert_eq!(s.entries[3].car_name_short.to_text(), "Car 3");
    assert_eq!(s.cars[1].current_lap_index, 2);
    assert!(s.cars[1].nan_block_intact);
    assert!(!s.cars[0].nan_block_intact);
    assert_eq!(s.progress[0], Some(laps(2.25)));
    assert_eq!(s.progress[3], Some(laps(0.05)));
    assert_eq!(s.gaps_to_leader, vec![None; MAX_CARS]);
    assert_eq!(g.checkpoints(3).len(), 0);
    assert_eq!(g.checkpoints(4).len(), 1);

    // later, car 5 reaches the progress car 0 had before
    let cars2 = [(2i16, 900.0f32), (2, 1400.0), (1, 1900.0), (0, 400.0), (3, 300.0), (2, 700.0)];
    g.ps2 = Race::new(62_000, 2000.0, &cars2);
    let s2 = g.sample_race().unwrap();
    // only car 0's history brackets 2.35 laps: 2.25 at 60,000 ms and 2.45
    // at 62,000 ms, so it passed there at 60,999 ms (rounded down)
    assert_eq!(s2.progress[5], Some(laps(2.35)));
    assert_eq!(s2.gaps_to_leader[5], Some(62_000 - 60_999));
    assert_eq!(g.race_time(), 62_000);
}

#[test]
fn sample_race_without_anchor_fails() {
    let mut g = GameData::new(Nothing);
    assert_eq!(g.sample_race().err(), Some(Ps2Error::NoAnchor));
}
