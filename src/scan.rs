//! Signature scanning: every occurrence of a byte needle in memory, read in
//! overlapping chunks.
use crate::guest::{HostRegion, Ps2Memory};
use vstd::prelude::*;

verus! {

/// Host addresses of the vehicle records' NaN blocks, as a scan reports them.
pub struct Locations {
    pub auto_nan_offsets: Vec<usize>,
}

/// The number of bytes read at a time.
pub const CHUNK_SIZE: usize = 4096;

/// Whether `needle` occurs in `h` starting at position `i`.
pub open spec fn matches_at(h: Seq<u8>, i: int, needle: Seq<u8>) -> bool {
    0 <= i && i + needle.len() <= h.len() && h.subrange(i, i + needle.len()) == needle
}

pub open spec fn strictly_ascending_usize(s: Seq<usize>) -> bool {
    forall|i: int, j: int| 0 <= i < j < s.len() ==> s[i] < s[j]
}

pub open spec fn strictly_ascending_u64(s: Seq<u64>) -> bool {
    forall|i: int, j: int| 0 <= i < j < s.len() ==> s[i] < s[j]
}

/// Whether `needle` occurs in `h` at position `i`.
pub fn occurs_at(h: &[u8], i: usize, needle: &[u8]) -> (r: bool)
    requires
        i + needle@.len() <= h@.len(),
    ensures
        r == matches_at(h@, i as int, needle@),
{
    let n = needle.len();
    let hl = h.len();
    let mut j: usize = 0;
    while j < n
        invariant
            n == needle@.len(),
            hl == h@.len(),
            i + n <= h@.len(),
            j <= n,
            forall|k: int| 0 <= k < j ==> h@[i + k] == needle@[k],
        decreases n - j,
    {
        if h[i + j] != needle[j] {
            assert(h@.subrange(i as int, i + n)[j as int] != needle@[j as int]);
            return false;
        }
        j = j + 1;
    }
    assert(h@.subrange(i as int, i + n) =~= needle@);
    true
}

/// Appends to `out` each position in `start..=end - needle.len()` at which
/// `needle` occurs in `h`, in ascending order.
fn push_matches_in(h: &[u8], start: usize, end: usize, needle: &[u8], out: &mut Vec<usize>)
    requires
        needle@.len() >= 1,
        start + needle@.len() <= end <= h@.len(),
    ensures
        exists|added: Seq<usize>|
            {
                &&& final(out)@ == old(out)@ + added
                &&& strictly_ascending_usize(added)
                &&& forall|k: int| 0 <= k < added.len() ==> start <= #[trigger] added[k]
                    && added[k] + needle@.len() <= end
                &&& forall|i: int|
                    start <= i && i + needle@.len() <= end ==> (matches_at(h@, i, needle@)
                        <==> added.contains(i as usize))
            },
{
    let ghost old_out = out@;
    let ghost mut added: Seq<usize> = Seq::empty();
    let n = needle.len();
    let mut i: usize = start;
    while i <= end - n
        invariant
            n == needle@.len(),
            n >= 1,
            start <= i,
            start + n <= end <= h@.len(),
            i <= end - n + 1,
            out@ == old_out + added,
            strictly_ascending_usize(added),
            forall|k: int| 0 <= k < added.len() ==> start <= #[trigger] added[k] && added[k] < i,
            forall|p: int|
                start <= p < i && p + n <= end ==> (matches_at(h@, p, needle@)
                    <==> added.contains(p as usize)),
        decreases end - n + 1 - i,
    {
        if occurs_at(h, i, needle) {
            out.push(i);
            proof {
                let prev = added;
                added = added.push(i);
                assert forall|p: int|
                    start <= p < i + 1 && p + n <= end implies (matches_at(h@, p, needle@)
                    <==> added.contains(p as usize)) by {
                    if p < i {
                        if added.contains(p as usize) {
                            let k = choose|k: int| 0 <= k < added.len() && added[k] == p as usize;
                            if k < prev.len() {
                                assert(prev[k] == added[k]);
                            }
                        }
                        if prev.contains(p as usize) {
                            let k = choose|k: int| 0 <= k < prev.len() && prev[k] == p as usize;
                            assert(added[k] == prev[k]);
                        }
                    } else {
                        assert(added[added.len() - 1] == i);
                    }
                }
            }
        } else {
            proof {
                assert forall|p: int|
                    start <= p < i + 1 && p + n <= end implies (matches_at(h@, p, needle@)
                    <==> added.contains(p as usize)) by {
                    if p == i && added.contains(p as usize) {
                        let k = choose|k: int| 0 <= k < added.len() && added[k] == p as usize;
                    }
                }
            }
        }
        i = i + 1;
    }
}

/// Every position at which `needle` occurs in `chunk`, in ascending order.
pub fn matches_in_chunk(chunk: &[u8], needle: &[u8]) -> (r: Vec<usize>)
    requires
        needle@.len() >= 1,
    ensures
        strictly_ascending_usize(r@),
        forall|k: int| 0 <= k < r@.len() ==> matches_at(chunk@, #[trigger] r@[k] as int, needle@),
        forall|i: int| #[trigger] matches_at(chunk@, i, needle@) ==> r@.contains(i as usize),
{
    let mut out: Vec<usize> = Vec::new();
    if chunk.len() < needle.len() {
        return out;
    }
    push_matches_in(chunk, 0, chunk.len(), needle, &mut out);
    proof {
        let added = choose|added: Seq<usize>|
            {
                &&& out@ == Seq::<usize>::empty() + added
                &&& strictly_ascending_usize(added)
                &&& forall|k: int|
                    0 <= k < added.len() ==> 0 <= #[trigger] added[k] && added[k] + needle@.len()
                        <= chunk@.len()
                &&& forall|i: int|
                    0 <= i && i + needle@.len() <= chunk@.len() ==> (matches_at(chunk@, i, needle@)
                        <==> added.contains(i as usize))
            };
        assert(out@ =~= added);
        assert forall|k: int| 0 <= k < out@.len() implies matches_at(
            chunk@,
            #[trigger] out@[k] as int,
            needle@,
        ) by {
            assert(added.contains(out@[k]));
        }
    }
    out
}

/// The length of the chunk read at `off` in a region that ends at `upper`:
/// `CHUNK_SIZE` bytes, or what is left of the region if that is less.
pub open spec fn chunk_len_at(off: int, upper: int) -> int {
    if upper - off < CHUNK_SIZE {
        upper - off
    } else {
        CHUNK_SIZE as int
    }
}

/// The start addresses of the chunks that are read from `off` up to
/// `upper` for a needle of `n` bytes. Each chunk after the first starts
/// `n - 1` bytes before the end of the one before it, so that consecutive
/// chunks overlap by `n - 1` bytes; the last ends at `upper`, and nothing
/// is read once fewer than `n` bytes are left.
pub open spec fn schedule_from(off: int, upper: int, n: int) -> Seq<int>
    decreases upper - off,
{
    if n < 1 || n > CHUNK_SIZE || off > upper || chunk_len_at(off, upper) < n {
        Seq::empty()
    } else if off + chunk_len_at(off, upper) == upper {
        seq![off]
    } else {
        seq![off] + schedule_from(off + chunk_len_at(off, upper) - (n - 1), upper, n)
    }
}

/// The end of a region, clipped to the top of the address space.
pub open spec fn region_upper(region: HostRegion) -> int {
    if region.base + region.size <= u64::MAX {
        region.base + region.size
    } else {
        u64::MAX as int
    }
}

/// The chunk schedule of a region.
pub open spec fn region_schedule(region: HostRegion, n: int) -> Seq<int> {
    schedule_from(region.base as int, region_upper(region), n)
}

/// Whether `needle` was found at address `a` in one of the chunks read,
/// the chunk `c` having been read at `starts[c]`.
pub open spec fn found_in(starts: Seq<int>, chunks: Seq<Seq<u8>>, needle: Seq<u8>, a: int) -> bool {
    exists|c: int, i: int|
        0 <= c < chunks.len() && a == starts[c] + i && #[trigger] matches_at(chunks[c], i, needle)
}

/// Whether `found` is what a scan of `region` reports: there are chunks,
/// read in the order of the region's schedule (all of it, or a part of it
/// that a failed read ended), each as long as its place in the schedule
/// asks, and `found` holds, in ascending order, exactly the addresses at
/// which the needle occurs in one of them.
pub open spec fn region_scan(region: HostRegion, needle: Seq<u8>, found: Seq<u64>) -> bool {
    let sched = region_schedule(region, needle.len() as int);
    &&& strictly_ascending_u64(found)
    &&& forall|k: int|
        0 <= k < found.len() ==> region.base <= #[trigger] found[k] && found[k] + needle.len()
            <= region_upper(region)
    &&& exists|chunks: Seq<Seq<u8>>|
        {
            &&& chunks.len() <= sched.len()
            &&& forall|c: int|
                0 <= c < chunks.len() ==> (#[trigger] chunks[c]).len() == chunk_len_at(
                    sched[c],
                    region_upper(region),
                )
            &&& forall|a: int|
                found_in(sched, chunks, needle, a) <==> (0 <= a <= u64::MAX && found.contains(
                    a as u64,
                ))
        }
}

/// The length of the chunk read at `off`, where at least `n` bytes are
/// left before `upper`.
pub fn chunk_len(off: u64, upper: u64, n: usize) -> (r: Option<usize>)
    requires
        off <= upper,
    ensures
        r == if chunk_len_at(off as int, upper as int) < n {
            None::<usize>
        } else {
            Some(chunk_len_at(off as int, upper as int) as usize)
        },
{
    let len: usize = if upper - off < CHUNK_SIZE as u64 {
        (upper - off) as usize
    } else {
        CHUNK_SIZE
    };
    if len < n {
        None
    } else {
        Some(len)
    }
}

/// Where the chunk after the one of `len` bytes at `off` starts: `n - 1`
/// bytes before the end of that one, or nowhere if it ended the region.
pub fn next_chunk(off: u64, len: usize, upper: u64, n: usize) -> (r: Option<u64>)
    requires
        1 <= n <= len,
        off + len <= upper,
    ensures
        r == if off + len == upper {
            None::<u64>
        } else {
            Some((off + len - (n - 1)) as u64)
        },
{
    if off + len as u64 == upper {
        None
    } else {
        Some(off + (len - (n - 1)) as u64)
    }
}

/// The end of a region, clipped to the top of the address space.
fn region_end(region: &HostRegion) -> (r: u64)
    ensures
        r == region_upper(*region),
{
    if region.size > u64::MAX - region.base {
        u64::MAX
    } else {
        region.base + region.size
    }
}

/// Scans one region: reads the chunks of its schedule in turn, each with
/// one call of `read_host`, and reports the host address of every match in
/// them, in ascending order. A failed read ends the scan of the region.
pub fn scan_region<M: Ps2Memory>(mem: &M, region: &HostRegion, needle: &[u8]) -> (r: Vec<u64>)
    requires
        1 <= needle@.len() <= CHUNK_SIZE,
    ensures
        region_scan(*region, needle@, r@),
{
    let n = needle.len();
    let upper = region_end(region);
    let ghost sched = region_schedule(*region, n as int);
    let ghost mut starts: Seq<int> = Seq::empty();
    let ghost mut chunks: Seq<Seq<u8>> = Seq::empty();
    let mut out: Vec<u64> = Vec::new();
    let mut off: u64 = region.base;
    loop
        invariant
            n == needle@.len(),
            1 <= n <= CHUNK_SIZE,
            region.base <= off <= upper,
            upper == region_upper(*region),
            sched == region_schedule(*region, n as int),
            sched == starts + schedule_from(off as int, upper as int, n as int),
            starts.len() == chunks.len(),
            forall|c: int|
                0 <= c < chunks.len() ==> (#[trigger] chunks[c]).len() == chunk_len_at(
                    starts[c],
                    upper as int,
                ),
            strictly_ascending_u64(out@),
            forall|k: int|
                0 <= k < out@.len() ==> region.base <= #[trigger] out@[k] && out@[k] < off
                    && out@[k] + n <= upper,
            forall|a: int|
                found_in(starts, chunks, needle@, a) <==> (0 <= a <= u64::MAX && out@.contains(
                    a as u64,
                )),
        decreases upper - off,
    {
        let len = match chunk_len(off, upper, n) {
            Some(len) => len,
            None => {
                proof {
                    assert(schedule_from(off as int, upper as int, n as int) =~= Seq::empty());
                    assert(sched =~= starts);
                    lemma_found_in_prefix(sched, starts, chunks, needle@);
                }
                return out;
            },
        };
        let ghost rest = schedule_from((off + len - (n - 1)) as int, upper as int, n as int);
        assert(schedule_from(off as int, upper as int, n as int) == if off + len == upper {
            seq![off as int]
        } else {
            seq![off as int] + rest
        });
        let chunk = match mem.read_host(off, len) {
            Ok(chunk) => chunk,
            Err(_) => {
                proof {
                    lemma_found_in_prefix(sched, starts, chunks, needle@);
                }
                return out;
            },
        };
        let positions = matches_in_chunk(chunk.as_slice(), needle);
        let ghost old_out = out@;
        let ghost new_starts = starts.push(off as int);
        let ghost new_chunks = chunks.push(chunk@);
        let mut j: usize = 0;
        while j < positions.len()
            invariant
                n == needle@.len(),
                1 <= n <= CHUNK_SIZE,
                region.base <= off,
                off + len <= upper,
                n <= len,
                chunk@.len() == len,
                strictly_ascending_usize(positions@),
                forall|k: int|
                    0 <= k < positions@.len() ==> matches_at(
                        chunk@,
                        #[trigger] positions@[k] as int,
                        needle@,
                    ),
                j <= positions@.len(),
                strictly_ascending_u64(out@),
                out@.len() == old_out.len() + j,
                forall|k: int| 0 <= k < old_out.len() ==> out@[k] == old_out[k],
                forall|k: int| 0 <= k < j ==> out@[old_out.len() + k] == off + positions@[k],
                forall|k: int|
                    0 <= k < old_out.len() ==> region.base <= #[trigger] old_out[k] && old_out[k]
                        < off,
                forall|k: int|
                    0 <= k < out@.len() ==> region.base <= #[trigger] out@[k] && out@[k] + n
                        <= upper && out@[k] < off + len - n + 1,
                j > 0 ==> out@.last() == off + positions@[j - 1],
                j == 0 ==> out@ == old_out,
            decreases positions@.len() - j,
        {
            proof {
                if j > 0 {
                    assert(positions@[j - 1] < positions@[j as int]);
                }
                assert(matches_at(chunk@, positions@[j as int] as int, needle@));
            }
            out.push(off + positions[j] as u64);
            j = j + 1;
        }
        proof {
            assert forall|a: int|
                found_in(new_starts, new_chunks, needle@, a) <==> (0 <= a <= u64::MAX
                    && out@.contains(a as u64)) by {
                if found_in(new_starts, new_chunks, needle@, a) {
                    let (c, i) = choose|c: int, i: int|
                        0 <= c < new_chunks.len() && a == new_starts[c] + i && #[trigger] matches_at(
                            new_chunks[c],
                            i,
                            needle@,
                        );
                    if c < chunks.len() {
                        assert(matches_at(chunks[c], i, needle@));
                        assert(found_in(starts, chunks, needle@, a));
                        let k = choose|k: int| 0 <= k < old_out.len() && old_out[k] == a as u64;
                        assert(out@[k] == old_out[k]);
                    } else {
                        assert(matches_at(chunk@, i, needle@));
                        assert(positions@.contains(i as usize));
                        let k = choose|k: int| 0 <= k < positions@.len() && positions@[k] == i as usize;
                        assert(out@[old_out.len() + k] == a);
                    }
                }
                if 0 <= a <= u64::MAX && out@.contains(a as u64) {
                    let k = choose|k: int| 0 <= k < out@.len() && out@[k] == a as u64;
                    if k < old_out.len() {
                        assert(old_out[k] == a as u64);
                        assert(old_out.contains(a as u64));
                        assert(found_in(starts, chunks, needle@, a));
                        let (c, i) = choose|c: int, i: int|
                            0 <= c < chunks.len() && a == starts[c] + i && #[trigger] matches_at(
                                chunks[c],
                                i,
                                needle@,
                            );
                        assert(new_chunks[c] == chunks[c] && new_starts[c] == starts[c]);
                        assert(matches_at(new_chunks[c], i, needle@));
                    } else {
                        let q = k - old_out.len();
                        let i = positions@[q] as int;
                        assert(matches_at(chunk@, i, needle@));
                        assert(new_chunks[chunks.len() as int] == chunk@);
                        assert(matches_at(new_chunks[chunks.len() as int], i, needle@));
                    }
                }
            }
            starts = new_starts;
            chunks = new_chunks;
        }
        match next_chunk(off, len, upper, n) {
            None => {
                proof {
                    assert(sched =~= starts);
                    lemma_found_in_prefix(sched, starts, chunks, needle@);
                }
                return out;
            },
            Some(next) => {
                proof {
                    assert(sched =~= starts + rest);
                }
                off = next;
            },
        }
    }
}

/// `found_in` depends only on the starts of the chunks that were read.
proof fn lemma_found_in_prefix(
    sched: Seq<int>,
    starts: Seq<int>,
    chunks: Seq<Seq<u8>>,
    needle: Seq<u8>,
)
    requires
        starts.len() == chunks.len(),
        starts.len() <= sched.len(),
        forall|c: int| 0 <= c < starts.len() ==> sched[c] == starts[c],
    ensures
        forall|a: int| found_in(sched, chunks, needle, a) <==> found_in(starts, chunks, needle, a),
{
    assert forall|a: int| found_in(sched, chunks, needle, a) implies found_in(
        starts,
        chunks,
        needle,
        a,
    ) by {
        let (c, i) = choose|c: int, i: int|
            0 <= c < chunks.len() && a == sched[c] + i && #[trigger] matches_at(chunks[c], i, needle);
        assert(a == starts[c] + i);
    }
    assert forall|a: int| found_in(starts, chunks, needle, a) implies found_in(
        sched,
        chunks,
        needle,
        a,
    ) by {
        let (c, i) = choose|c: int, i: int|
            0 <= c < chunks.len() && a == starts[c] + i && #[trigger] matches_at(chunks[c], i, needle);
        assert(a == sched[c] + i);
    }
}

/// Whether the regions lie in ascending order of address without overlapping.
pub open spec fn regions_ordered(regions: Seq<HostRegion>) -> bool {
    forall|k: int|
        0 <= k < regions.len() - 1 ==> #[trigger] regions[k].base + regions[k].size <= regions[k
            + 1].base
}

/// Whether `found` is what a scan of `regions` reports: the reports of the
/// regions one after the other, each as `region_scan` says; in ascending
/// order where the regions are.
pub open spec fn regions_scan(regions: Seq<HostRegion>, needle: Seq<u8>, found: Seq<u64>) -> bool {
    &&& exists|per: Seq<Seq<u64>>|
        {
            &&& per.len() == regions.len()
            &&& forall|k: int| 0 <= k < regions.len() ==> region_scan(regions[k], needle, #[trigger] per[k])
            &&& found == per.flatten()
        }
    &&& regions_ordered(regions) ==> strictly_ascending_u64(found)
}

/// Whether `found` is what a scan of some list of regions reports.
pub open spec fn scan_of_regions(needle: Seq<u8>, found: Seq<u64>) -> bool {
    exists|regions: Seq<HostRegion>| #[trigger] regions_scan(regions, needle, found)
}

/// Scans each of `regions` in turn (see `scan_region`) and reports all
/// their matches, region after region.
pub fn scan_all_regions<M: Ps2Memory>(mem: &M, regions: &Vec<HostRegion>, needle: &[u8]) -> (r: Vec<
    u64,
>)
    requires
        1 <= needle@.len() <= CHUNK_SIZE,
    ensures
        regions_scan(regions@, needle@, r@),
{
    let n = needle.len();
    let mut out: Vec<u64> = Vec::new();
    let ghost mut per: Seq<Seq<u64>> = Seq::empty();
    let mut i: usize = 0;
    while i < regions.len()
        invariant
            n == needle@.len(),
            1 <= n <= CHUNK_SIZE,
            i <= regions@.len(),
            per.len() == i,
            forall|k: int| 0 <= k < i ==> region_scan(regions@[k], needle@, #[trigger] per[k]),
            out@ == per.flatten(),
            regions_ordered(regions@) ==> strictly_ascending_u64(out@),
            regions_ordered(regions@) && i > 0 ==> forall|k: int|
                0 <= k < out@.len() ==> #[trigger] out@[k] < region_upper(regions@[i - 1]),
        decreases regions@.len() - i,
    {
        let region = regions[i];
        let found = scan_region(mem, &region, needle);
        let ghost before = out@;
        let mut j: usize = 0;
        while j < found.len()
            invariant
                n == needle@.len(),
                1 <= n,
                i < regions@.len(),
                region == regions@[i as int],
                region_scan(region, needle@, found@),
                j <= found@.len(),
                out@ == before + found@.take(j as int),
                regions_ordered(regions@) ==> strictly_ascending_u64(before),
                regions_ordered(regions@) && i > 0 ==> forall|k: int|
                    0 <= k < before.len() ==> #[trigger] before[k] < region_upper(regions@[i - 1]),
            decreases found@.len() - j,
        {
            out.push(found[j]);
            proof {
                assert(found@.take(j + 1) =~= found@.take(j as int).push(found@[j as int]));
            }
            j = j + 1;
        }
        proof {
            assert(found@.take(found@.len() as int) =~= found@);
            vstd::seq_lib::lemma_flatten_concat(per, seq![found@]);
            seq![found@].lemma_flatten_one_element();
            let old_per = per;
            per = per.push(found@);
            assert(per =~= old_per + seq![found@]);
            assert forall|k: int| 0 <= k < i + 1 implies region_scan(
                regions@[k],
                needle@,
                #[trigger] per[k],
            ) by {
                if k < i {
                    assert(per[k] == old_per[k]);
                }
            }
            if regions_ordered(regions@) {
                if i > 0 {
                    assert(regions@[i - 1].base + regions@[i - 1].size <= regions@[i as int].base);
                }
                assert forall|a: int, b: int| 0 <= a < b < out@.len() implies out@[a] < out@[b] by {
                    if b >= before.len() && a < before.len() {
                        assert(found@[b - before.len()] >= region.base);
                    } else if a >= before.len() {
                        assert(out@[a] == found@[a - before.len()]);
                        assert(out@[b] == found@[b - before.len()]);
                    }
                }
                assert forall|k: int| 0 <= k < out@.len() implies #[trigger] out@[k] < region_upper(
                    regions@[i as int],
                ) by {
                    if k >= before.len() {
                        assert(out@[k] == found@[k - before.len()]);
                    } else {
                        if i > 0 {
                            assert(before[k] < region_upper(regions@[i - 1]));
                        }
                        assert(region.base <= region_upper(region) || region.size == 0);
                    }
                }
            }
        }
        i = i + 1;
    }
    out
}

/// Every host address at which `needle` occurs in the scannable regions of
/// `mem` (see `scan_all_regions`); `None` for an empty needle.
pub fn find_all_offsets<M: Ps2Memory>(mem: &M, needle: &[u8]) -> (r: Option<Vec<u64>>)
    requires
        needle@.len() <= CHUNK_SIZE,
    ensures
        r is None <==> needle@.len() == 0,
        r is Some ==> scan_of_regions(needle@, r->Some_0@),
{
    if needle.len() == 0 {
        return None;
    }
    let regions = mem.scan_regions();
    let found = scan_all_regions(mem, &regions, needle);
    proof {
        let rs = regions@;
        assert(regions_scan(rs, needle@, found@));
        assert(scan_of_regions(needle@, found@));
    }
    Some(found)
}

/// Whether the window of `n` bytes at `p` lies inside one of the chunks
/// that start at `sched`.
pub open spec fn covered(sched: Seq<int>, upper: int, n: int, p: int) -> bool {
    exists|c: int|
        0 <= c < sched.len() && #[trigger] sched[c] <= p && p + n <= sched[c] + chunk_len_at(
            sched[c],
            upper,
        )
}

/// Every chunk of a schedule lies inside `off..upper` and holds at least
/// `n` bytes; every window of `n` bytes in `off..upper` lies inside one
/// chunk.
pub proof fn lemma_schedule_covers(off: int, upper: int, n: int)
    requires
        1 <= n <= CHUNK_SIZE,
        off <= upper,
    ensures
        forall|c: int|
            0 <= c < schedule_from(off, upper, n).len() ==> {
                let st = #[trigger] schedule_from(off, upper, n)[c];
                &&& off <= st
                &&& n <= chunk_len_at(st, upper)
                &&& st + chunk_len_at(st, upper) <= upper
            },
        forall|p: int|
            off <= p && p + n <= upper ==> #[trigger] covered(schedule_from(off, upper, n), upper, n, p),
    decreases upper - off,
{
    let sched = schedule_from(off, upper, n);
    let len = chunk_len_at(off, upper);
    if len < n {
    } else if off + len == upper {
        assert(sched =~= seq![off]);
        assert forall|p: int| off <= p && p + n <= upper implies #[trigger] covered(
            sched,
            upper,
            n,
            p,
        ) by {
            assert(sched[0] == off);
        }
    } else {
        let next = off + len - (n - 1);
        let rest = schedule_from(next, upper, n);
        lemma_schedule_covers(next, upper, n);
        assert(sched =~= seq![off] + rest);
        assert forall|c: int| 0 <= c < sched.len() implies {
            let st = #[trigger] sched[c];
            &&& off <= st
            &&& n <= chunk_len_at(st, upper)
            &&& st + chunk_len_at(st, upper) <= upper
        } by {
            if c > 0 {
                assert(sched[c] == rest[c - 1]);
            }
        }
        assert forall|p: int| off <= p && p + n <= upper implies #[trigger] covered(
            sched,
            upper,
            n,
            p,
        ) by {
            if p + n <= off + len {
                assert(sched[0] == off);
            } else {
                assert(covered(rest, upper, n, p));
                let c = choose|c: int|
                    0 <= c < rest.len() && #[trigger] rest[c] <= p && p + n <= rest[c]
                        + chunk_len_at(rest[c], upper);
                assert(sched[c + 1] == rest[c]);
            }
        }
    }
}

/// A scan that reads every chunk of a region's schedule, and reads in each
/// the bytes that the region holds there, reports exactly the addresses at
/// which the needle occurs in the region, also where an occurrence
/// straddles two chunks.
pub proof fn lemma_region_scan_complete(
    region: HostRegion,
    needle: Seq<u8>,
    mem: Seq<u8>,
    chunks: Seq<Seq<u8>>,
)
    requires
        1 <= needle.len() <= CHUNK_SIZE,
        mem.len() == region_upper(region) - region.base,
        chunks.len() == region_schedule(region, needle.len() as int).len(),
        forall|c: int|
            0 <= c < chunks.len() ==> #[trigger] chunks[c] == mem.subrange(
                region_schedule(region, needle.len() as int)[c] - region.base,
                region_schedule(region, needle.len() as int)[c] - region.base + chunk_len_at(
                    region_schedule(region, needle.len() as int)[c],
                    region_upper(region),
                ),
            ),
    ensures
        forall|a: int|
            found_in(region_schedule(region, needle.len() as int), chunks, needle, a) <==> (
            region.base <= a && matches_at(mem, a - region.base, needle)),
{
    let n = needle.len() as int;
    let base = region.base as int;
    let upper = region_upper(region);
    let sched = region_schedule(region, n);
    lemma_schedule_covers(base, upper, n);
    assert forall|a: int|
        found_in(sched, chunks, needle, a) <==> (base <= a && matches_at(mem, a - base, needle)) by {
        if found_in(sched, chunks, needle, a) {
            let (c, i) = choose|c: int, i: int|
                0 <= c < chunks.len() && a == sched[c] + i && #[trigger] matches_at(
                    chunks[c],
                    i,
                    needle,
                );
            let st = sched[c];
            assert(base <= st && st + chunk_len_at(st, upper) <= upper);
            assert(chunks[c].subrange(i, i + n) =~= mem.subrange(a - base, a - base + n));
        }
        if base <= a && matches_at(mem, a - base, needle) {
            assert(covered(sched, upper, n, a));
            let c = choose|c: int|
                0 <= c < sched.len() && #[trigger] sched[c] <= a && a + n <= sched[c]
                    + chunk_len_at(sched[c], upper);
            let st = sched[c];
            let i = a - st;
            assert(base <= st && st + chunk_len_at(st, upper) <= upper);
            assert(chunks[c].subrange(i, i + n) =~= mem.subrange(a - base, a - base + n));
            assert(matches_at(chunks[c], i, needle));
        }
    }
}

} // verus!
