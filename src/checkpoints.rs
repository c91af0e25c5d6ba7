//! Per-car checkpoint history and the gap-to-leader estimate.
use crate::progress::PROGRESS_ONE;
use vstd::prelude::*;

verus! {

/// Whether the keys of `s` are strictly ascending.
pub open spec fn keys_ascending(s: Seq<(i64, i32)>) -> bool {
    forall|i: int, j: int| 0 <= i < j < s.len() ==> s[i].0 < s[j].0
}

/// A sorted mapping from progress to the race-clock time (ms) at which
/// that progress was reached.
pub struct CheckpointMap {
    entries: Vec<(i64, i32)>,
}

impl View for CheckpointMap {
    type V = Seq<(i64, i32)>;

    closed spec fn view(&self) -> Seq<(i64, i32)> {
        self.entries@
    }
}

impl CheckpointMap {
    pub open spec fn wf(&self) -> bool {
        keys_ascending(self@)
    }

    pub fn new() -> (r: CheckpointMap)
        ensures
            r@ == Seq::<(i64, i32)>::empty(),
            r.wf(),
    {
        CheckpointMap { entries: Vec::new() }
    }

    pub fn len(&self) -> (r: usize)
        ensures
            r == self@.len(),
    {
        self.entries.len()
    }

    /// The checkpoint at position `i` in ascending order of progress.
    pub fn get(&self, i: usize) -> (r: (i64, i32))
        requires
            i < self@.len(),
        ensures
            r == self@[i as int],
    {
        self.entries[i]
    }

    /// Removes every checkpoint.
    pub fn clear(&mut self)
        ensures
            final(self)@ == Seq::<(i64, i32)>::empty(),
            final(self).wf(),
    {
        self.entries.clear();
    }

    /// Records that progress `key` was reached at `time`, replacing what was
    /// recorded for the same progress before.
    pub fn insert(&mut self, key: i64, time: i32)
        requires
            old(self).wf(),
        ensures
            final(self).wf(),
            forall|e: (i64, i32)|
                #[trigger] final(self)@.contains(e) <==> (e == (key, time) || (old(self)@.contains(
                    e,
                ) && e.0 != key)),
    {
        let ghost s = self.entries@;
        let n = self.entries.len();
        let mut i: usize = 0;
        while i < n && self.entries[i].0 < key
            invariant
                n == self.entries@.len(),
                self.entries@ == s,
                i <= n,
                forall|j: int| 0 <= j < i ==> s[j].0 < key,
            decreases n - i,
        {
            i = i + 1;
        }
        if i < n && self.entries[i].0 == key {
            self.entries.set(i, (key, time));
            proof {
                let t = self.entries@;
                assert forall|e: (i64, i32)| #[trigger] t.contains(e) <==> (e == (key, time) || (
                s.contains(e) && e.0 != key)) by {
                    if t.contains(e) {
                        let k = choose|k: int| 0 <= k < t.len() && t[k] == e;
                        if k != i {
                            assert(s[k] == e);
                        }
                    }
                    if e == (key, time) {
                        assert(t[i as int] == e);
                    }
                    if s.contains(e) && e.0 != key {
                        let k = choose|k: int| 0 <= k < s.len() && s[k] == e;
                        assert(t[k] == e);
                    }
                }
            }
        } else {
            self.entries.insert(i, (key, time));
            proof {
                let t = self.entries@;
                assert(t == s.insert(i as int, (key, time)));
                assert forall|a: int, b: int| 0 <= a < b < t.len() implies t[a].0 < t[b].0 by {
                    if b < i {
                    } else if b == i {
                    } else if a < i {
                        assert(t[b] == s[b - 1]);
                    } else if a == i {
                        assert(t[b] == s[b - 1]);
                        assert(s[i as int].0 > key);
                        if b - 1 > i {
                            assert(s[i as int].0 < s[b - 1].0);
                        }
                    } else {
                        assert(t[a] == s[a - 1] && t[b] == s[b - 1]);
                    }
                }
                assert forall|e: (i64, i32)| #[trigger] t.contains(e) <==> (e == (key, time) || (
                s.contains(e) && e.0 != key)) by {
                    if t.contains(e) {
                        let k = choose|k: int| 0 <= k < t.len() && t[k] == e;
                        if k < i {
                            assert(s[k] == e);
                        } else if k > i {
                            assert(s[k - 1] == e);
                            assert(s[k - 1].0 > key) by {
                                if k - 1 > i {
                                    assert(s[i as int].0 < s[k - 1].0);
                                }
                            }
                        }
                    }
                    if e == (key, time) {
                        assert(t[i as int] == e);
                    }
                    if s.contains(e) && e.0 != key {
                        let k = choose|k: int| 0 <= k < s.len() && s[k] == e;
                        if k < i {
                            assert(t[k] == e);
                        } else {
                            assert(t[k + 1] == e);
                        }
                    }
                }
            }
        }
    }
}

/// Among the first `n` checkpoints, the last whose progress is at most `p`.
pub open spec fn floor_upto(s: Seq<(i64, i32)>, p: int, n: int) -> Option<(i64, i32)>
    decreases n,
{
    if n <= 0 {
        None
    } else if s[n - 1].0 <= p {
        Some(s[n - 1])
    } else {
        floor_upto(s, p, n - 1)
    }
}

/// From position `i` on, the first checkpoint whose progress is at least `p`.
pub open spec fn ceil_from(s: Seq<(i64, i32)>, p: int, i: int) -> Option<(i64, i32)>
    decreases s.len() - i,
{
    if i >= s.len() || i < 0 {
        None
    } else if s[i].0 >= p {
        Some(s[i])
    } else {
        ceil_from(s, p, i + 1)
    }
}

/// The checkpoint with the greatest progress at most `p` (the keys being
/// ascending).
pub open spec fn floor_entry(s: Seq<(i64, i32)>, p: int) -> Option<(i64, i32)> {
    floor_upto(s, p, s.len() as int)
}

/// The checkpoint with the least progress at least `p`.
pub open spec fn ceil_entry(s: Seq<(i64, i32)>, p: int) -> Option<(i64, i32)> {
    ceil_from(s, p, 0)
}

/// The time between two checkpoints `lo` and `hi` at which progress `p`
/// was reached, by linear interpolation; the offset from `lo`'s time is
/// rounded towards zero.
pub open spec fn interpolate_between(lo: (i64, i32), hi: (i64, i32), p: int) -> int {
    if hi.0 == lo.0 {
        lo.1 as int
    } else if hi.1 >= lo.1 {
        lo.1 + (p - lo.0) * (hi.1 - lo.1) / (hi.0 - lo.0)
    } else {
        lo.1 - (p - lo.0) * (lo.1 - hi.1) / (hi.0 - lo.0)
    }
}

/// The time at which a car whose checkpoints are `s` reached progress `p`,
/// if `p` lies between two of its checkpoints (or on one).
pub open spec fn interpolate(s: Seq<(i64, i32)>, p: int) -> Option<int> {
    match (floor_entry(s, p), ceil_entry(s, p)) {
        (Some(lo), Some(hi)) => Some(interpolate_between(lo, hi, p)),
        _ => None,
    }
}

/// The smaller of two optional times, ignoring a missing one.
pub open spec fn min_time(a: Option<int>, b: Option<int>) -> Option<int> {
    match (a, b) {
        (Some(x), Some(y)) => Some(if x <= y { x } else { y }),
        (Some(x), None) => Some(x),
        _ => b,
    }
}

/// The earliest time at which any of the first `n` cars but `car` reached
/// progress `p`.
pub open spec fn leader_time_upto(maps: Seq<Seq<(i64, i32)>>, car: int, p: int, n: int) -> Option<
    int,
>
    decreases n,
{
    if n <= 0 {
        None
    } else if n - 1 == car {
        leader_time_upto(maps, car, p, n - 1)
    } else {
        min_time(leader_time_upto(maps, car, p, n - 1), interpolate(maps[n - 1], p))
    }
}

/// The gap to the leader of car `car` at progress `progress` and the
/// current race time: the race time minus the earliest time at which any
/// other car reached the same progress. There is none for a car still on
/// the grid (progress below one lap) or whose progress no other car's
/// history brackets.
pub open spec fn gap_of(
    maps: Seq<Seq<(i64, i32)>>,
    car: int,
    progress: Option<i64>,
    race_time: i32,
) -> Option<int> {
    match progress {
        Some(p) => if p < PROGRESS_ONE {
            None
        } else {
            match leader_time_upto(maps, car, p as int, maps.len() as int) {
                Some(t) => Some(race_time - t),
                None => None,
            }
        },
        None => None,
    }
}

/// The views of a list of checkpoint maps.
pub open spec fn views(maps: Seq<CheckpointMap>) -> Seq<Seq<(i64, i32)>> {
    maps.map_values(|m: CheckpointMap| m@)
}

impl CheckpointMap {
    /// The checkpoints around progress `p`: the one with the greatest
    /// progress at most `p` and the one with the least progress at least `p`.
    pub fn bracket(&self, p: i64) -> (r: (Option<(i64, i32)>, Option<(i64, i32)>))
        ensures
            r.0 == floor_entry(self@, p as int),
            r.1 == ceil_entry(self@, p as int),
    {
        let n = self.entries.len();
        let mut lo: usize = n;
        while lo > 0 && self.entries[lo - 1].0 > p
            invariant
                n == self@.len(),
                lo <= n,
                floor_upto(self@, p as int, n as int) == floor_upto(self@, p as int, lo as int),
            decreases lo,
        {
            lo = lo - 1;
        }
        let floor = if lo > 0 {
            Some(self.entries[lo - 1])
        } else {
            None
        };
        let mut hi: usize = 0;
        while hi < n && self.entries[hi].0 < p
            invariant
                n == self@.len(),
                hi <= n,
                ceil_from(self@, p as int, 0) == ceil_from(self@, p as int, hi as int),
            decreases n - hi,
        {
            hi = hi + 1;
        }
        let ceil = if hi < n {
            Some(self.entries[hi])
        } else {
            None
        };
        (floor, ceil)
    }

    /// The time at which this car reached progress `p`, interpolated.
    pub fn interpolate(&self, p: i64) -> (r: Option<i64>)
        ensures
            r matches Some(t) ==> interpolate(self@, p as int) == Some(t as int),
            r is None ==> interpolate(self@, p as int) is None,
            r matches Some(t) ==> i32::MIN <= t <= i32::MAX,
    {
        let (floor, ceil) = self.bracket(p);
        match (floor, ceil) {
            (Some(lo), Some(hi)) => {
                proof {
                    lemma_floor_le(self@, p as int, self@.len() as int);
                    lemma_ceil_ge(self@, p as int, 0);
                }
                Some(interpolate_exec(lo, hi, p))
            },
            _ => None,
        }
    }
}

proof fn lemma_floor_le(s: Seq<(i64, i32)>, p: int, n: int)
    requires
        n <= s.len(),
    ensures
        floor_upto(s, p, n) matches Some(e) ==> e.0 <= p,
    decreases n,
{
    if n > 0 && s[n - 1].0 > p {
        lemma_floor_le(s, p, n - 1);
    }
}

proof fn lemma_ceil_ge(s: Seq<(i64, i32)>, p: int, i: int)
    ensures
        ceil_from(s, p, i) matches Some(e) ==> e.0 >= p,
    decreases s.len() - i,
{
    if 0 <= i < s.len() && s[i].0 < p {
        lemma_ceil_ge(s, p, i + 1);
    }
}

/// Linear interpolation between two checkpoints around `p`.
fn interpolate_exec(lo: (i64, i32), hi: (i64, i32), p: i64) -> (r: i64)
    requires
        lo.0 <= p <= hi.0,
    ensures
        r == interpolate_between(lo, hi, p as int),
        lo.1 <= hi.1 ==> lo.1 <= r <= hi.1,
        hi.1 < lo.1 ==> hi.1 <= r <= lo.1,
{
    if hi.0 == lo.0 {
        return lo.1 as i64;
    }
    let dp = (p as i128 - lo.0 as i128) as u128;
    let dk = (hi.0 as i128 - lo.0 as i128) as u128;
    if hi.1 >= lo.1 {
        let dt = (hi.1 as i64 - lo.1 as i64) as u128;
        proof {
            lemma_product_fits(dp as int, dt as int, dk as int);
            lemma_offset_within(dp as int, dt as int, dk as int);
        }
        let off = dp * dt / dk;
        (lo.1 as i64 + off as i64)
    } else {
        let dt = (lo.1 as i64 - hi.1 as i64) as u128;
        proof {
            lemma_product_fits(dp as int, dt as int, dk as int);
            lemma_offset_within(dp as int, dt as int, dk as int);
        }
        let off = dp * dt / dk;
        (lo.1 as i64 - off as i64)
    }
}

/// The product of a progress difference and a time difference fits a `u128`.
proof fn lemma_product_fits(dp: int, dt: int, dk: int)
    requires
        0 <= dp <= dk,
        dk < 0x1_0000_0000_0000_0000,
        0 <= dt < 0x1_0000_0000,
    ensures
        0 <= dp * dt < 0x1_0000_0000_0000_0000_0000_0000,
{
    assert(0 <= dp * dt < 0x1_0000_0000_0000_0000_0000_0000) by (nonlinear_arith)
        requires
            0 <= dp <= dk,
            dk < 0x1_0000_0000_0000_0000,
            0 <= dt < 0x1_0000_0000,
    ;
}

proof fn lemma_floor_is_entry(s: Seq<(i64, i32)>, p: int, n: int)
    requires
        n <= s.len(),
    ensures
        floor_upto(s, p, n) matches Some(e) ==> s.contains(e) && e.0 <= p,
    decreases n,
{
    if n > 0 {
        if s[n - 1].0 > p {
            lemma_floor_is_entry(s, p, n - 1);
        }
    }
}

proof fn lemma_ceil_is_entry(s: Seq<(i64, i32)>, p: int, i: int)
    requires
        0 <= i,
    ensures
        ceil_from(s, p, i) matches Some(e) ==> s.contains(e) && e.0 >= p,
    decreases s.len() - i,
{
    if i < s.len() && s[i].0 < p {
        lemma_ceil_is_entry(s, p, i + 1);
    }
}

/// An interpolated offset lies between zero and the whole time difference.
proof fn lemma_offset_within(dp: int, dt: int, dk: int)
    requires
        0 <= dp <= dk,
        dk > 0,
        0 <= dt,
    ensures
        0 <= dp * dt / dk <= dt,
{
    assert(dp * dt <= dt * dk) by (nonlinear_arith)
        requires
            0 <= dp <= dk,
            dt >= 0,
    ;
    assert(0 <= dp * dt) by (nonlinear_arith)
        requires
            0 <= dp,
            0 <= dt,
    ;
    vstd::arithmetic::div_mod::lemma_div_is_ordered(dp * dt, dt * dk, dk);
    vstd::arithmetic::div_mod::lemma_div_by_multiple(dt, dk);
    vstd::arithmetic::div_mod::lemma_div_pos_is_pos(dp * dt, dk);
}

/// The interpolated time lies between the times of two recorded checkpoints.
proof fn lemma_interpolate_bounded(s: Seq<(i64, i32)>, p: int, bound: int)
    requires
        forall|e: (i64, i32)| #[trigger] s.contains(e) ==> e.1 <= bound,
    ensures
        interpolate(s, p) matches Some(t) ==> t <= bound,
{
    lemma_floor_is_entry(s, p, s.len() as int);
    lemma_ceil_is_entry(s, p, 0);
    if let (Some(lo), Some(hi)) = (floor_entry(s, p), ceil_entry(s, p)) {
        assert(s.contains(lo) && s.contains(hi));
        if hi.0 != lo.0 {
            if hi.1 >= lo.1 {
                lemma_offset_within(p - lo.0, hi.1 - lo.1, hi.0 - lo.0);
            } else {
                lemma_offset_within(p - lo.0, lo.1 - hi.1, hi.0 - lo.0);
            }
        }
    }
}

/// The leader time over the first `n` cars is the least interpolated time
/// among them, and there is one as soon as one of them has one.
proof fn lemma_leader_is_min(maps: Seq<Seq<(i64, i32)>>, car: int, p: int, n: int)
    requires
        n <= maps.len(),
    ensures
        leader_time_upto(maps, car, p, n) matches Some(t) ==> exists|j: int|
            0 <= j < n && j != car && interpolate(maps[j], p) == Some(t),
        leader_time_upto(maps, car, p, n) matches Some(t) ==> forall|j: int|
            0 <= j < n && j != car && #[trigger] interpolate(maps[j], p) is Some ==> t
                <= interpolate(maps[j], p)->Some_0,
        (exists|j: int| 0 <= j < n && j != car && #[trigger] interpolate(maps[j], p) is Some)
            ==> leader_time_upto(maps, car, p, n) is Some,
    decreases n,
{
    if n > 0 {
        lemma_leader_is_min(maps, car, p, n - 1);
        if (exists|j: int| 0 <= j < n && j != car && #[trigger] interpolate(maps[j], p) is Some) {
            let j = choose|j: int| 0 <= j < n && j != car && #[trigger] interpolate(maps[j], p) is Some;
            if j < n - 1 {
                assert(leader_time_upto(maps, car, p, n - 1) is Some);
            }
        }
        if let Some(t) = leader_time_upto(maps, car, p, n) {
            if n - 1 != car {
                if let Some(u) = leader_time_upto(maps, car, p, n - 1) {
                    let j = choose|j: int|
                        0 <= j < n - 1 && j != car && interpolate(maps[j], p) == Some(u);
                    if interpolate(maps[n - 1], p) is Some && interpolate(maps[n - 1], p)->Some_0 < u {
                        assert(interpolate(maps[n - 1], p) == Some(t));
                    } else {
                        assert(interpolate(maps[j], p) == Some(t));
                    }
                } else {
                    assert(interpolate(maps[n - 1], p) == Some(t));
                }
            } else {
                let j = choose|j: int|
                    0 <= j < n - 1 && j != car && interpolate(maps[j], p) == Some(t);
                assert(interpolate(maps[j], p) == Some(t));
            }
        }
    }
}

/// Where some other car's history brackets progress `p` (one lap or
/// more), the gap of `car` exists, equals the race time minus the least
/// time at which another car reached `p`, and is not negative when no
/// recorded time is later than the race time.
pub proof fn lemma_gap_is_race_time_minus_leader(
    maps: Seq<Seq<(i64, i32)>>,
    car: int,
    p: i64,
    race_time: i32,
)
    requires
        forall|i: int| 0 <= i < maps.len() ==> keys_ascending(#[trigger] maps[i]),
        forall|i: int, e: (i64, i32)|
            0 <= i < maps.len() && #[trigger] maps[i].contains(e) ==> e.1 <= race_time,
        p >= PROGRESS_ONE,
        exists|j: int| 0 <= j < maps.len() && j != car && #[trigger] interpolate(maps[j], p as int) is Some,
    ensures
        gap_of(maps, car, Some(p), race_time) matches Some(g) && g >= 0
            && (exists|j: int|
            0 <= j < maps.len() && j != car && interpolate(maps[j], p as int) == Some(race_time - g))
            && (forall|j: int|
            0 <= j < maps.len() && j != car && #[trigger] interpolate(maps[j], p as int) is Some
                ==> race_time - g <= interpolate(maps[j], p as int)->Some_0),
{
    lemma_leader_is_min(maps, car, p as int, maps.len() as int);
    let t = leader_time_upto(maps, car, p as int, maps.len() as int)->Some_0;
    let j = choose|j: int|
        0 <= j < maps.len() && j != car && interpolate(maps[j], p as int) == Some(t);
    assert forall|e: (i64, i32)| #[trigger] maps[j].contains(e) implies e.1 <= race_time by {}
    lemma_interpolate_bounded(maps[j], p as int, race_time as int);
}

} // verus!
