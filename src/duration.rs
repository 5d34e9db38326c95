//! Text durations such as `P3Y6M4DT12H30M5S` or `T1H30M`, in seconds.
//!
//! The text is an optional `P`, then optional date parts (years `Y`,
//! months `M`, weeks `W`, days `D`, in this order), then optionally `T`
//! and time parts (hours `H`, minutes `M`, seconds `S`, in this order).
//! Each part is one or more ASCII digits and its letter. The text must
//! begin with `P` or `T`. A year counts 365 days and a month 30 days.

use vstd::prelude::*;
use vstd::string::StrSliceExecFns;

verus! {

pub open spec fn is_digit(c: char) -> bool {
    '0' <= c && c <= '9'
}

/// End of the run of digits that starts at `i`.
pub open spec fn digit_run(s: Seq<char>, i: int) -> int
    decreases s.len() - i,
{
    if 0 <= i < s.len() && is_digit(s[i]) { digit_run(s, i + 1) } else { i }
}

/// The number that the digits `s[i..j]` write.
pub open spec fn digits_value(s: Seq<char>, i: int, j: int) -> nat
    decreases j - i,
{
    if j <= i { 0 } else { digits_value(s, i, j - 1) * 10 + (s[j - 1] as nat - '0' as nat) as nat }
}

/// The part with letter `c` at `i`, if there is one: its value and the
/// position after it; else zero and `i`.
pub open spec fn part(s: Seq<char>, i: int, c: char) -> (nat, int) {
    let j = digit_run(s, i);
    if j > i && j < s.len() && s[j] == c { (digits_value(s, i, j), j + 1) } else { (0, i) }
}

/// The seconds that `s` writes, or `None` where it does not follow the
/// grammar.
pub open spec fn duration_seconds(s: Seq<char>) -> Option<int> {
    if s.len() == 0 || (s[0] != 'P' && s[0] != 'T') {
        None
    } else {
        let i0: int = if s[0] == 'P' { 1 } else { 0 };
        let (y, i1) = part(s, i0, 'Y');
        let (mo, i2) = part(s, i1, 'M');
        let (w, i3) = part(s, i2, 'W');
        let (d, i4) = part(s, i3, 'D');
        let has_time = i4 < s.len() && s[i4] == 'T';
        let (h, i5) = if has_time { part(s, i4 + 1, 'H') } else { (0, i4) };
        let (mi, i6) = if has_time { part(s, i5, 'M') } else { (0, i5) };
        let (se, i7) = if has_time { part(s, i6, 'S') } else { (0, i6) };
        if i7 == s.len() {
            Some(((y * 365 + mo * 30 + w * 7 + d) * 86400 + h * 3600 + mi * 60 + se) as int)
        } else {
            None
        }
    }
}

proof fn lemma_digit_run(s: Seq<char>, i: int)
    requires
        0 <= i <= s.len(),
    ensures
        i <= digit_run(s, i) <= s.len(),
        forall|k: int| i <= k < digit_run(s, i) ==> is_digit(#[trigger] s[k]),
        digit_run(s, i) < s.len() ==> !is_digit(s[digit_run(s, i)]),
    decreases s.len() - i,
{
    if i < s.len() && is_digit(s[i]) {
        lemma_digit_run(s, i + 1);
    }
}

/// Limit past which a part's value is not tracked: beyond it the total
/// cannot fit in `i64` anyway.
pub const PART_CAP: u64 = 9223372036854775807;

/// Reads the part with letter `c` at `i`. The value is exact up to
/// `PART_CAP`; above it only that it is larger is known.
fn read_part(s: &Vec<char>, i: usize, c: char) -> (r: (u64, usize))
    requires
        i <= s@.len(),
    ensures
        r.1 == part(s@, i as int, c).1,
        r.0 <= PART_CAP + 1,
        r.0 <= PART_CAP ==> r.0 == part(s@, i as int, c).0,
        r.0 > PART_CAP ==> part(s@, i as int, c).0 > PART_CAP,
{
    proof {
        lemma_digit_run(s@, i as int);
    }
    let mut j: usize = i;
    let mut v: u64 = 0;
    while j < s.len() && '0' <= s[j] && s[j] <= '9'
        invariant
            i <= j <= digit_run(s@, i as int),
            digit_run(s@, i as int) <= s@.len(),
            forall|k: int| i <= k < digit_run(s@, i as int) ==> is_digit(#[trigger] s@[k]),
            digit_run(s@, i as int) < s@.len() ==> !is_digit(s@[digit_run(s@, i as int)]),
            v <= PART_CAP + 1,
            v <= PART_CAP ==> v == digits_value(s@, i as int, j as int),
            v > PART_CAP ==> digits_value(s@, i as int, j as int) > PART_CAP,
        decreases s@.len() - j,
    {
        let d: u64 = (s[j] as u32 - '0' as u32) as u64;
        assert(is_digit(s@[j as int]));
        assert(digits_value(s@, i as int, j + 1) == digits_value(s@, i as int, j as int) * 10 + d);
        if v > PART_CAP || v > (PART_CAP - d) / 10 {
            v = PART_CAP + 1;
        } else {
            v = v * 10 + d;
        }
        j = j + 1;
    }
    let ghost run = digit_run(s@, i as int);
    assert(j == run);
    if j > i && j < s.len() && s[j] == c {
        (v, j + 1)
    } else {
        (0, i)
    }
}

/// Parses a duration into seconds. `None` where the text does not follow
/// the grammar, or where the seconds do not fit in `i64`.
pub fn parse_duration(input: &str) -> (r: Option<i64>)
    ensures
        r == (match duration_seconds(input@) {
            Some(v) => if v <= i64::MAX { Some(v as i64) } else { None },
            None => None,
        }),
{
    let n: usize = input.unicode_len();
    let mut s: Vec<char> = Vec::new();
    let mut k: usize = 0;
    while k < n
        invariant
            n == input@.len(),
            0 <= k <= n,
            s@ == input@.subrange(0, k as int),
        decreases n - k,
    {
        s.push(input.get_char(k));
        assert(s@ =~= input@.subrange(0, k + 1));
        k = k + 1;
    }
    assert(s@ =~= input@);
    parse_duration_chars(&s)
}

/// Parses a duration written as characters; see `parse_duration`.
pub fn parse_duration_chars(s: &Vec<char>) -> (r: Option<i64>)
    ensures
        r == (match duration_seconds(s@) {
            Some(v) => if v <= i64::MAX { Some(v as i64) } else { None },
            None => None,
        }),
{
    if s.len() == 0 || (s[0] != 'P' && s[0] != 'T') {
        return None;
    }
    let i0: usize = if s[0] == 'P' { 1 } else { 0 };
    let (y, i1) = read_part(s, i0, 'Y');
    let (mo, i2) = read_part(s, i1, 'M');
    let (w, i3) = read_part(s, i2, 'W');
    let (d, i4) = read_part(s, i3, 'D');
    let mut h: u64 = 0;
    let mut mi: u64 = 0;
    let mut se: u64 = 0;
    let mut i7: usize = i4;
    if i4 < s.len() && s[i4] == 'T' {
        let (a, i5) = read_part(s, i4 + 1, 'H');
        let (b, i6) = read_part(s, i5, 'M');
        let (c, e) = read_part(s, i6, 'S');
        h = a;
        mi = b;
        se = c;
        i7 = e;
    }
    if i7 != s.len() {
        return None;
    }
    if y > PART_CAP || mo > PART_CAP || w > PART_CAP || d > PART_CAP || h > PART_CAP || mi > PART_CAP || se > PART_CAP {
        return None;
    }
    let days: u128 = y as u128 * 365 + mo as u128 * 30 + w as u128 * 7 + d as u128;
    let total: u128 = days * 86400 + h as u128 * 3600 + mi as u128 * 60 + se as u128;
    if total > i64::MAX as u128 {
        None
    } else {
        Some(total as i64)
    }
}

} // verus!
