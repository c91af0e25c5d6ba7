//! The overlay's view model: which row shows which car, and the text of each row.
use crate::game_data::{RaceState, MAX_CARS};
use crate::ps2_types::{before_nul, latin1, push_char};
use vstd::prelude::*;

verus! {

/// The character of a decimal digit.
pub open spec fn digit_char(d: int) -> char {
    if d == 0 {
        '0'
    } else if d == 1 {
        '1'
    } else if d == 2 {
        '2'
    } else if d == 3 {
        '3'
    } else if d == 4 {
        '4'
    } else if d == 5 {
        '5'
    } else if d == 6 {
        '6'
    } else if d == 7 {
        '7'
    } else if d == 8 {
        '8'
    } else {
        '9'
    }
}

/// The decimal digits of `n`, most significant first, without leading zeros.
pub open spec fn decimal(n: nat) -> Seq<char>
    decreases n,
{
    if n < 10 {
        seq![digit_char(n as int)]
    } else {
        decimal(n / 10).push(digit_char((n % 10) as int))
    }
}

fn digit(d: u64) -> (r: char)
    requires
        d < 10,
    ensures
        r == digit_char(d as int),
{
    match d {
        0 => '0',
        1 => '1',
        2 => '2',
        3 => '3',
        4 => '4',
        5 => '5',
        6 => '6',
        7 => '7',
        8 => '8',
        _ => '9',
    }
}

fn push_decimal(s: &mut String, n: u64)
    ensures
        final(s)@ == old(s)@ + decimal(n as nat),
    decreases n,
{
    if n >= 10 {
        push_decimal(s, n / 10);
    }
    push_char(s, digit(n % 10));
    assert(n < 10 ==> old(s)@ + decimal(n as nat) =~= old(s)@.push(digit_char(n as int)));
    proof {
        if n >= 10 {
            assert(old(s)@ + decimal(n as nat) =~= (old(s)@ + decimal((n / 10) as nat)).push(
                digit_char((n % 10) as int),
            ));
        }
    }
}

/// The letter shown for each car slot.
pub open spec fn position_letter_spec(slot: int) -> char {
    if slot == 0 {
        'F'
    } else if slot == 1 {
        'A'
    } else if slot == 2 {
        'B'
    } else if slot == 3 {
        'C'
    } else if slot == 4 {
        'D'
    } else {
        'E'
    }
}

pub fn position_letter(slot: usize) -> (r: char)
    requires
        slot < MAX_CARS,
    ensures
        r == position_letter_spec(slot as int),
{
    match slot {
        0 => 'F',
        1 => 'A',
        2 => 'B',
        3 => 'C',
        4 => 'D',
        _ => 'E',
    }
}

/// The text shown for a car whose gap is unknown.
pub open spec fn no_gap_text() -> Seq<char> {
    seq!['\u{2014}']
}

/// A gap of `ms` milliseconds in seconds with two decimals, rounded to the
/// nearest hundredth (halves up), signed.
pub open spec fn gap_text_spec(gap_ms: Option<i64>) -> Seq<char> {
    match gap_ms {
        None => no_gap_text(),
        Some(g) => {
            let magnitude: int = if g >= 0 {
                g as int
            } else {
                -g
            };
            let h = ((magnitude + 5) / 10) as nat;
            seq![if g >= 0 { '+' } else { '-' }] + decimal(h / 100) + seq![
                '.',
                digit_char(((h / 10) % 10) as int),
                digit_char((h % 10) as int),
            ]
        },
    }
}

pub fn gap_text(gap_ms: Option<i64>) -> (r: String)
    ensures
        r@ == gap_text_spec(gap_ms),
{
    let mut s = String::new();
    match gap_ms {
        None => {
            push_char(&mut s, '\u{2014}');
            assert(s@ =~= no_gap_text());
        },
        Some(g) => {
            let magnitude: u64 = if g >= 0 {
                g as u64
            } else {
                (-(g as i128)) as u64
            };
            let h: u64 = (magnitude as u128 + 5) as u64 / 10;
            assert(h == (magnitude + 5) / 10);
            push_char(&mut s, if g >= 0 { '+' } else { '-' });
            push_decimal(&mut s, h / 100);
            push_char(&mut s, '.');
            push_char(&mut s, digit((h / 10) % 10));
            push_char(&mut s, digit(h % 10));
            assert(s@ =~= gap_text_spec(gap_ms));
        },
    }
    s
}

/// The ordering key of a progress: unknown progress comes last.
pub open spec fn shown_before(progress: Seq<Option<i64>>, a: int, b: int) -> bool {
    match (progress[a], progress[b]) {
        (Some(x), Some(y)) => x > y || (x == y && a < b),
        (Some(_), None) => true,
        (None, Some(_)) => false,
        (None, None) => a < b,
    }
}

/// The car slots in the order of the overlay's rows: by descending
/// progress, cars of unknown progress last, equal progress in slot order.
pub fn display_order(progress: &Vec<Option<i64>>) -> (r: Vec<usize>)
    ensures
        r@.len() == progress@.len(),
        forall|k: int| 0 <= k < r@.len() ==> #[trigger] r@[k] < progress@.len(),
        forall|i: int, j: int|
            0 <= i < j < r@.len() ==> shown_before(progress@, r@[i] as int, r@[j] as int),
{
    let n = progress.len();
    let mut order: Vec<usize> = Vec::new();
    let mut s: usize = 0;
    while s < n
        invariant
            n == progress@.len(),
            s <= n,
            order@.len() == s,
            forall|k: int| 0 <= k < order@.len() ==> #[trigger] order@[k] < s,
            forall|i: int, j: int|
                0 <= i < j < order@.len() ==> shown_before(progress@, order@[i] as int, order@[j] as int),
        decreases n - s,
    {
        // the new slot goes after every slot shown before it
        let mut pos: usize = 0;
        while pos < order.len() && shown_before_exec(progress, order[pos], s)
            invariant
                n == progress@.len(),
                s < n,
                pos <= order@.len(),
                forall|k: int| 0 <= k < order@.len() ==> #[trigger] order@[k] < s,
                forall|k: int| 0 <= k < pos ==> shown_before(progress@, #[trigger] order@[k] as int, s as int),
            decreases order@.len() - pos,
        {
            pos = pos + 1;
        }
        let ghost before = order@;
        proof {
            if pos < before.len() {
                assert(!shown_before(progress@, before[pos as int] as int, s as int));
                assert forall|k: int| pos <= k < before.len() implies shown_before(
                    progress@,
                    s as int,
                    #[trigger] before[k] as int,
                ) by {
                    if k > pos {
                        assert(shown_before(progress@, before[pos as int] as int, before[k] as int));
                    }
                }
            }
        }
        order.insert(pos, s);
        proof {
            let t = order@;
            assert(t == before.insert(pos as int, s));
            assert forall|i: int, j: int| 0 <= i < j < t.len() implies shown_before(
                progress@,
                t[i] as int,
                t[j] as int,
            ) by {
                if j < pos {
                } else if j == pos {
                } else if i < pos {
                    assert(t[j] == before[j - 1]);
                } else if i == pos {
                    assert(t[j] == before[j - 1]);
                } else {
                    assert(t[i] == before[i - 1] && t[j] == before[j - 1]);
                }
            }
        }
        s = s + 1;
    }
    order
}

fn shown_before_exec(progress: &Vec<Option<i64>>, a: usize, b: usize) -> (r: bool)
    requires
        a < progress@.len(),
        b < progress@.len(),
    ensures
        r == shown_before(progress@, a as int, b as int),
{
    match (progress[a], progress[b]) {
        (Some(x), Some(y)) => x > y || (x == y && a < b),
        (Some(_), None) => true,
        (None, Some(_)) => false,
        (None, None) => a < b,
    }
}

/// One row of the overlay.
pub struct OverlayRow {
    /// The car slot that the row shows.
    pub slot: usize,
    pub letter: char,
    pub gap: String,
    pub name: String,
}

/// The rows of the overlay for one snapshot, in display order.
pub fn overlay_rows(state: &RaceState) -> (r: Vec<OverlayRow>)
    requires
        state.cars@.len() == MAX_CARS,
        state.entries@.len() == MAX_CARS,
        state.progress@.len() == MAX_CARS,
        state.gaps_to_leader@.len() == MAX_CARS,
    ensures
        r@.len() == MAX_CARS,
        forall|i: int, j: int|
            0 <= i < j < MAX_CARS ==> shown_before(
                state.progress@,
                r@[i].slot as int,
                r@[j].slot as int,
            ),
        forall|k: int|
            0 <= k < MAX_CARS ==> {
                let row = #[trigger] r@[k];
                &&& row.slot < MAX_CARS
                &&& row.letter == position_letter_spec(row.slot as int)
                &&& row.gap@ == gap_text_spec(state.gaps_to_leader@[row.slot as int])
                &&& row.name@ == latin1(
                    before_nul(state.entries@[row.slot as int].car_name_short.view()),
                )
            },
{
    let order = display_order(&state.progress);
    let mut rows: Vec<OverlayRow> = Vec::new();
    let mut k: usize = 0;
    while k < MAX_CARS
        invariant
            order@.len() == MAX_CARS,
            state.entries@.len() == MAX_CARS,
            state.gaps_to_leader@.len() == MAX_CARS,
            state.progress@.len() == MAX_CARS,
            forall|q: int| 0 <= q < MAX_CARS ==> #[trigger] order@[q] < MAX_CARS,
            k <= MAX_CARS,
            rows@.len() == k,
            forall|q: int|
                0 <= q < k ==> {
                    let row = #[trigger] rows@[q];
                    &&& row.slot == order@[q]
                    &&& row.letter == position_letter_spec(row.slot as int)
                    &&& row.gap@ == gap_text_spec(state.gaps_to_leader@[row.slot as int])
                    &&& row.name@ == latin1(
                        before_nul(state.entries@[row.slot as int].car_name_short.view()),
                    )
                },
        decreases MAX_CARS - k,
    {
        let slot = order[k];
        rows.push(
            OverlayRow {
                slot,
                letter: position_letter(slot),
                gap: gap_text(state.gaps_to_leader[slot]),
                name: state.entries[slot].car_name_short.to_text(),
            },
        );
        k = k + 1;
    }
    rows
}

} // verus!
