//! The race sampler: reads the race data once per frame, keeps each car's
//! checkpoint history, and estimates every car's gap to the leader.
use crate::anchor::Addresses;
use crate::checkpoints::{
    gap_of, interpolate, keys_ascending, leader_time_upto, lemma_gap_is_race_time_minus_leader, views,
    CheckpointMap,
};
use crate::guest::{valid_ee_base, GuestMemory, Ps2Error, Ps2Memory};
use crate::progress::{progress, progress_value, PROGRESS_ONE};
use crate::ps2_types::F32Bits;
use crate::records::{Automobile, Entry};
use vstd::prelude::*;

verus! {

/// Number of cars in a race.
pub const MAX_CARS: usize = 6;

/// Whether a tick with this progress records a checkpoint: the progress is
/// known and the car has left the grid.
pub open spec fn records_checkpoint(progress: Option<i64>) -> bool {
    progress matches Some(p) && p >= PROGRESS_ONE
}

/// Whether `new_maps` is the checkpoint history after a tick at
/// `new_time` with the cars' progress `progress`, from `old_maps` after a
/// tick at `old_time`: a clock that went backwards drops every earlier
/// checkpoint; each car that has left the grid records its progress at the
/// new time, replacing an earlier checkpoint at the same progress.
pub open spec fn after_tick(
    old_maps: Seq<Seq<(i64, i32)>>,
    old_time: i32,
    new_maps: Seq<Seq<(i64, i32)>>,
    new_time: i32,
    progress: Seq<Option<i64>>,
) -> bool {
    &&& new_maps.len() == MAX_CARS
    &&& forall|i: int, e: (i64, i32)|
        0 <= i < MAX_CARS ==> (#[trigger] new_maps[i].contains(e) <==> ((records_checkpoint(
        progress[i]) && e == (progress[i]->Some_0, new_time)) || (new_time >= old_time
            && old_maps[i].contains(e) && !(records_checkpoint(progress[i]) && e.0
            == progress[i]->Some_0))))
}

/// What one snapshot of the race shows.
pub struct RaceState {
    pub track_length: F32Bits,
    pub race_time: i32,
    pub cars: Vec<Automobile>,
    pub entries: Vec<Entry>,
    /// Each car's progress, where it is defined.
    pub progress: Vec<Option<i64>>,
    /// Each car's gap to the leader in milliseconds, where there is one.
    pub gaps_to_leader: Vec<Option<i64>>,
}

/// The sampler's state: the memory it reads, the addresses found in it
/// once, and the checkpoint history of the current race.
pub struct GameData<M: Ps2Memory> {
    pub ps2: M,
    addresses: Option<Addresses>,
    car_checkpoints: Vec<CheckpointMap>,
    race_time: i32,
}

impl<M: Ps2Memory> GameData<M> {
    /// The checkpoint maps, one per car.
    pub closed spec fn maps(&self) -> Seq<Seq<(i64, i32)>> {
        views(self.car_checkpoints@)
    }

    /// The memory that the sampler reads.
    pub closed spec fn reader(&self) -> M {
        self.ps2
    }

    /// The last race time seen.
    pub closed spec fn last_race_time(&self) -> i32 {
        self.race_time
    }

    /// Six maps with ascending keys, none holding a progress below one lap
    /// or a time after the last race time seen; cached addresses place main
    /// memory validly.
    pub closed spec fn wf(&self) -> bool {
        &&& self.car_checkpoints@.len() == MAX_CARS
        &&& forall|i: int| 0 <= i < MAX_CARS ==> #[trigger] self.car_checkpoints@[i].wf()
        &&& forall|i: int, e: (i64, i32)|
            0 <= i < MAX_CARS && #[trigger] self.car_checkpoints@[i]@.contains(e) ==> e.1
                <= self.race_time && e.0 >= PROGRESS_ONE
        &&& self.addresses matches Some(a) ==> valid_ee_base(a.ee_base) && a.derived_from(
            a.ee_base,
            a.layout,
        )
    }

    /// What the invariant gives callers: six maps, each with ascending
    /// keys of at least one lap and no time after the last race time seen.
    pub proof fn lemma_wf_facts(&self)
        requires
            self.wf(),
        ensures
            self.maps().len() == MAX_CARS,
            forall|i: int| 0 <= i < MAX_CARS ==> keys_ascending(#[trigger] self.maps()[i]),
            forall|i: int, e: (i64, i32)|
                0 <= i < MAX_CARS && #[trigger] self.maps()[i].contains(e) ==> e.1
                    <= self.last_race_time() && e.0 >= PROGRESS_ONE,
    {
        assert forall|i: int| 0 <= i < MAX_CARS implies keys_ascending(#[trigger] self.maps()[i]) by {
            assert(self.maps()[i] == self.car_checkpoints@[i]@);
            assert(self.car_checkpoints@[i].wf());
        }
        assert forall|i: int, e: (i64, i32)|
            0 <= i < MAX_CARS && #[trigger] self.maps()[i].contains(e) implies e.1
                <= self.last_race_time() && e.0 >= PROGRESS_ONE by {
            assert(self.maps()[i] == self.car_checkpoints@[i]@);
        }
    }

    pub fn new(ps2: M) -> (r: Self)
        ensures
            r.reader() == ps2,
            r.wf(),
            r.last_race_time() == 0,
            r.maps().len() == MAX_CARS,
            forall|i: int| 0 <= i < MAX_CARS ==> (#[trigger] r.maps()[i]).len() == 0,
    {
        let mut car_checkpoints: Vec<CheckpointMap> = Vec::new();
        let mut i: usize = 0;
        while i < MAX_CARS
            invariant
                i <= MAX_CARS,
                car_checkpoints@.len() == i,
                forall|j: int| 0 <= j < i ==> (#[trigger] car_checkpoints@[j])@.len() == 0,
            decreases MAX_CARS - i,
        {
            car_checkpoints.push(CheckpointMap::new());
            i = i + 1;
        }
        GameData { ps2, addresses: None, car_checkpoints, race_time: 0 }
    }

    /// The last race time seen.
    pub fn race_time(&self) -> (r: i32)
        ensures
            r == self.last_race_time(),
    {
        self.race_time
    }

    /// The checkpoint map of car `car`.
    pub fn checkpoints(&self, car: usize) -> (r: &CheckpointMap)
        requires
            self.wf(),
            car < MAX_CARS,
        ensures
            r@ == self.maps()[car as int],
    {
        &self.car_checkpoints[car]
    }

    /// Takes in one tick: a race clock that went backwards starts a new
    /// race and clears every history; then each car that has left the grid
    /// records its progress at the new race time.
    pub fn record_tick(&mut self, new_race_time: i32, progress: &Vec<Option<i64>>)
        requires
            old(self).wf(),
            progress@.len() == MAX_CARS,
        ensures
            final(self).wf(),
            final(self).last_race_time() == new_race_time,
            after_tick(
                old(self).maps(),
                old(self).last_race_time(),
                final(self).maps(),
                new_race_time,
                progress@,
            ),
    {
        let ghost old_maps = self.car_checkpoints@;
        let regressed = new_race_time < self.race_time;
        let ghost old_time = self.race_time;
        let ghost old_addresses = self.addresses;
        let mut i: usize = 0;
        while i < MAX_CARS
            invariant
                i <= MAX_CARS,
                progress@.len() == MAX_CARS,
                self.car_checkpoints@.len() == MAX_CARS,
                old_maps.len() == MAX_CARS,
                self.race_time == old_time,
                self.addresses == old_addresses,
                regressed == (new_race_time < old_time),
                forall|j: int| 0 <= j < MAX_CARS ==> #[trigger] self.car_checkpoints@[j].wf(),
                forall|j: int, e: (i64, i32)|
                    i <= j < MAX_CARS ==> (#[trigger] self.car_checkpoints@[j]@.contains(e)
                        <==> old_maps[j]@.contains(e)),
                forall|j: int, e: (i64, i32)|
                    0 <= j < i ==> (#[trigger] self.car_checkpoints@[j]@.contains(e) <==> ((
                    records_checkpoint(progress@[j]) && e == (progress@[j]->Some_0, new_race_time))
                        || (!regressed && old_maps[j]@.contains(e) && !(records_checkpoint(
                    progress@[j]) && e.0 == progress@[j]->Some_0)))),
                forall|j: int, e: (i64, i32)|
                    0 <= j < MAX_CARS && #[trigger] old_maps[j]@.contains(e) ==> e.1 <= old_time
                        && e.0 >= PROGRESS_ONE,
            decreases MAX_CARS - i,
        {
            let ghost before_all = self.car_checkpoints@;
            if regressed {
                self.car_checkpoints[i].clear();
            }
            let ghost mid = self.car_checkpoints@[i as int]@;
            match progress[i] {
                Some(p) => {
                    if p >= PROGRESS_ONE {
                        self.car_checkpoints[i].insert(p, new_race_time);
                    }
                },
                None => {},
            }
            proof {
                let map = self.car_checkpoints@[i as int];
                assert forall|e: (i64, i32)| #[trigger] map@.contains(e) <==> ((records_checkpoint(
                progress@[i as int]) && e == (progress@[i as int]->Some_0, new_race_time)) || (
                !regressed && old_maps[i as int]@.contains(e) && !(records_checkpoint(
                progress@[i as int]) && e.0 == progress@[i as int]->Some_0))) by {
                    if regressed {
                        assert(!mid.contains(e));
                    }
                }
                assert forall|j: int| 0 <= j < MAX_CARS && j != i implies self.car_checkpoints@[j]
                    == before_all[j] by {}
            }
            i = i + 1;
        }
        self.race_time = new_race_time;
        proof {
            assert forall|i: int, e: (i64, i32)|
                0 <= i < MAX_CARS && #[trigger] self.car_checkpoints@[i]@.contains(
                    e,
                ) implies e.1 <= self.race_time && e.0 >= PROGRESS_ONE by {
                if !(records_checkpoint(progress@[i]) && e == (progress@[i]->Some_0, new_race_time)) {
                    assert(old_maps[i]@.contains(e));
                }
            }
            assert(self.maps().len() == MAX_CARS);
            assert(self.car_checkpoints@.len() == MAX_CARS);
            assert(forall|i: int| 0 <= i < MAX_CARS ==> #[trigger] self.car_checkpoints@[i].wf());
            assert(self.addresses matches Some(a) ==> valid_ee_base(a.ee_base) && a.derived_from(
            a.ee_base, a.layout));
            assert forall|i: int, e: (i64, i32)|
                0 <= i < MAX_CARS implies (#[trigger] self.maps()[i].contains(e) <==> ((
                records_checkpoint(progress@[i]) && e == (progress@[i]->Some_0, new_race_time))
                    || (new_race_time >= old_time && views(old_maps)[i].contains(e) && !(
                records_checkpoint(progress@[i]) && e.0 == progress@[i]->Some_0)))) by {
                assert(self.maps()[i] == self.car_checkpoints@[i]@);
                assert(views(old_maps)[i] == old_maps[i]@);
            }
        }
    }

    /// The gap to the leader, in milliseconds, of car `car` at `progress`.
    pub fn calculate_gap_to_leader_ms(&self, car: usize, progress: Option<i64>) -> (r: Option<i64>)
        requires
            self.wf(),
            car < MAX_CARS,
        ensures
            r matches Some(g) ==> gap_of(self.maps(), car as int, progress, self.last_race_time())
                == Some(g as int),
            r is None ==> gap_of(self.maps(), car as int, progress, self.last_race_time()) is None,
    {
        let p = match progress {
            Some(p) => p,
            None => {
                return None;
            },
        };
        if p < PROGRESS_ONE {
            return None;
        }
        let ghost maps = self.maps();
        let mut leader: Option<i64> = None;
        let mut j: usize = 0;
        while j < MAX_CARS
            invariant
                self.wf(),
                maps == self.maps(),
                maps.len() == MAX_CARS,
                j <= MAX_CARS,
                leader matches Some(t) ==> leader_time_upto(maps, car as int, p as int, j as int)
                    == Some(t as int) && i32::MIN <= t <= i32::MAX,
                leader is None ==> leader_time_upto(maps, car as int, p as int, j as int) is None,
            decreases MAX_CARS - j,
        {
            if j != car {
                assert(maps[j as int] == self.car_checkpoints@[j as int]@);
                match self.car_checkpoints[j].interpolate(p) {
                    Some(t) => {
                        leader = match leader {
                            Some(u) => if t < u {
                                Some(t)
                            } else {
                                Some(u)
                            },
                            None => Some(t),
                        };
                    },
                    None => {},
                }
            }
            j = j + 1;
        }
        match leader {
            Some(t) => Some(self.race_time as i64 - t),
            None => None,
        }
    }

    /// Every car's gap to the leader, for the cars' progress in `progress`.
    pub fn gaps_to_leader(&self, progress: &Vec<Option<i64>>) -> (r: Vec<Option<i64>>)
        requires
            self.wf(),
            progress@.len() == MAX_CARS,
        ensures
            r@.len() == MAX_CARS,
            forall|i: int|
                0 <= i < MAX_CARS ==> match #[trigger] r@[i] {
                    Some(g) => gap_of(self.maps(), i, progress@[i], self.last_race_time()) == Some(
                        g as int,
                    ),
                    None => gap_of(self.maps(), i, progress@[i], self.last_race_time()) is None,
                },
    {
        let mut gaps: Vec<Option<i64>> = Vec::new();
        let mut i: usize = 0;
        while i < MAX_CARS
            invariant
                self.wf(),
                progress@.len() == MAX_CARS,
                i <= MAX_CARS,
                gaps@.len() == i,
                forall|k: int|
                    0 <= k < i ==> match #[trigger] gaps@[k] {
                        Some(g) => gap_of(self.maps(), k, progress@[k], self.last_race_time())
                            == Some(g as int),
                        None => gap_of(self.maps(), k, progress@[k], self.last_race_time()) is None,
                    },
            decreases MAX_CARS - i,
        {
            gaps.push(self.calculate_gap_to_leader_ms(i, progress[i]));
            i = i + 1;
        }
        gaps
    }

    /// Reads the race data once: finds the addresses if they are not
    /// known yet (and keeps them once found), reads the six vehicle records,
    /// the six entry records, the race clock and the track length, records
    /// the tick (see `record_tick`) and estimates every car's gap to the
    /// leader. A failed read leaves the history as it was.
    pub fn sample_race(&mut self) -> (r: Result<RaceState, Ps2Error>)
        requires
            old(self).wf(),
        ensures
            final(self).wf(),
            r is Err ==> final(self).maps() == old(self).maps() && final(self).last_race_time()
                == old(self).last_race_time(),
            r matches Ok(s) ==> {
                &&& s.cars@.len() == MAX_CARS
                &&& s.entries@.len() == MAX_CARS
                &&& s.progress@.len() == MAX_CARS
                &&& s.gaps_to_leader@.len() == MAX_CARS
                &&& final(self).last_race_time() == s.race_time
                &&& forall|i: int|
                    0 <= i < MAX_CARS ==> #[trigger] s.progress@[i] == progress_value(
                        s.cars@[i].current_lap_index,
                        s.cars@[i].meters_driven_in_current_lap.bits,
                        s.track_length.bits,
                    )
                &&& after_tick(
                    old(self).maps(),
                    old(self).last_race_time(),
                    final(self).maps(),
                    s.race_time,
                    s.progress@,
                )
                &&& forall|i: int|
                    0 <= i < MAX_CARS ==> match #[trigger] s.gaps_to_leader@[i] {
                        Some(g) => gap_of(final(self).maps(), i, s.progress@[i], s.race_time)
                            == Some(g as int),
                        None => gap_of(final(self).maps(), i, s.progress@[i], s.race_time) is None,
                    }
            },
    {
        if self.addresses.is_none() {
            match Addresses::find(&self.ps2) {
                Ok(a) => {
                    self.addresses = Some(a);
                },
                Err(e) => {
                    return Err(e);
                },
            }
        }
        let (cars, entries, race_time, track_length) = match &self.addresses {
            Some(a) => {
                let mem = GuestMemory { host: &self.ps2, ee_base: a.ee_base };
                let cars = match a.cars.get_many(&mem, MAX_CARS) {
                    Ok(v) => v,
                    Err(e) => {
                        return Err(e);
                    },
                };
                let entries = match a.entries.get_many(&mem, MAX_CARS) {
                    Ok(v) => v,
                    Err(e) => {
                        return Err(e);
                    },
                };
                let race_time = match a.race_time.get(&mem) {
                    Ok(v) => v,
                    Err(e) => {
                        return Err(e);
                    },
                };
                let track_length = match a.track_length.get(&mem) {
                    Ok(v) => v,
                    Err(e) => {
                        return Err(e);
                    },
                };
                (cars, entries, race_time, track_length)
            },
            None => {
                return Err(Ps2Error::NoAnchor);
            },
        };
        let mut progress_all: Vec<Option<i64>> = Vec::new();
        let mut i: usize = 0;
        while i < MAX_CARS
            invariant
                cars@.len() == MAX_CARS,
                i <= MAX_CARS,
                progress_all@.len() == i,
                forall|k: int|
                    0 <= k < i ==> #[trigger] progress_all@[k] == progress_value(
                        cars@[k].current_lap_index,
                        cars@[k].meters_driven_in_current_lap.bits,
                        track_length.bits,
                    ),
            decreases MAX_CARS - i,
        {
            progress_all.push(
                progress(cars[i].current_lap_index, cars[i].meters_driven_in_current_lap, track_length),
            );
            i = i + 1;
        }
        self.record_tick(race_time, &progress_all);
        let gaps_to_leader = self.gaps_to_leader(&progress_all);
        Ok(RaceState { track_length, race_time, cars, entries, progress: progress_all, gaps_to_leader })
    }
}

/// In every state of the sampler, where another car's history brackets
/// progress `p` (one lap or more), the gap of `car` exists, is not
/// negative, and is the last race time minus the earliest time at which
/// another car reached `p`.
pub proof fn lemma_sampler_gap_not_negative<M: Ps2Memory>(g: &GameData<M>, car: int, p: i64)
    requires
        g.wf(),
        0 <= car < MAX_CARS,
        p >= PROGRESS_ONE,
        exists|j: int|
            0 <= j < MAX_CARS && j != car && #[trigger] interpolate(g.maps()[j], p as int) is Some,
    ensures
        gap_of(g.maps(), car, Some(p), g.last_race_time()) matches Some(gap) && gap >= 0,
{
    g.lemma_wf_facts();
    lemma_gap_is_race_time_minus_leader(g.maps(), car, p, g.last_race_time());
}

/// After a tick whose race clock is earlier than the previous one, no
/// checkpoint of the earlier race is left: a car's map is empty unless the
/// car has left the grid, and then it holds just this tick's checkpoint.
pub proof fn lemma_regression_resets_history(
    old_maps: Seq<Seq<(i64, i32)>>,
    old_time: i32,
    new_maps: Seq<Seq<(i64, i32)>>,
    new_time: i32,
    progress: Seq<Option<i64>>,
    car: int,
)
    requires
        after_tick(old_maps, old_time, new_maps, new_time, progress),
        new_time < old_time,
        0 <= car < MAX_CARS,
    ensures
        !records_checkpoint(progress[car]) ==> new_maps[car].len() == 0,
        forall|e: (i64, i32)|
            #[trigger] new_maps[car].contains(e) ==> e == (progress[car]->Some_0, new_time),
{
    if !records_checkpoint(progress[car]) && new_maps[car].len() > 0 {
        assert(new_maps[car].contains(new_maps[car][0]));
    }
}

/// A history whose checkpoints all lie at or after time `t0` keeps that
/// property through a tick at `t0` or later: with the reset above, no
/// checkpoint of a race before a clock regression comes back.
pub proof fn lemma_history_stays_after(
    old_maps: Seq<Seq<(i64, i32)>>,
    old_time: i32,
    new_maps: Seq<Seq<(i64, i32)>>,
    new_time: i32,
    progress: Seq<Option<i64>>,
    t0: i32,
)
    requires
        after_tick(old_maps, old_time, new_maps, new_time, progress),
        forall|i: int, e: (i64, i32)|
            0 <= i < MAX_CARS && #[trigger] old_maps[i].contains(e) ==> t0 <= e.1,
        t0 <= new_time,
    ensures
        forall|i: int, e: (i64, i32)|
            0 <= i < MAX_CARS && #[trigger] new_maps[i].contains(e) ==> t0 <= e.1,
{
}

} // verus!
