//! Vehicle snapshots: an agent's id, time and position.
use vstd::prelude::*;
use vstd::string::{StringExecFns, StringSliceAdditionalSpecFns};

use crate::geo::UTMCoordinates;

verus! {

/// A snapshot of one vehicle: its id, the time in seconds, and its position.
#[derive(Debug, Copy, Clone, PartialEq, Eq, Hash, Structural)]
pub struct Agent {
    pub id: u32,
    pub time: u32,
    pub position: UTMCoordinates,
}

impl Agent {
    pub fn new(id: u32, time: u32, position: UTMCoordinates) -> (r: Agent)
        ensures
            r == (Agent { id, time, position }),
    {
        Agent { id, time, position }
    }

    pub fn id(&self) -> (r: u32)
        ensures
            r == self.id,
    {
        self.id
    }

    pub fn time(&self) -> (r: u32)
        ensures
            r == self.time,
    {
        self.time
    }

    pub fn position(&self) -> (r: UTMCoordinates)
        ensures
            r == self.position,
    {
        self.position
    }

    /// The X coordinate of the position.
    pub fn x(&self) -> (r: i32)
        ensures
            r == self.position.x,
    {
        self.position.x
    }

    /// The Y coordinate of the position.
    pub fn y(&self) -> (r: i32)
        ensures
            r == self.position.y,
    {
        self.position.y
    }
}


/// The character of the decimal digit `d`.
pub open spec fn digit_char(d: int) -> char {
    if d == 0 {
        '0'
    } else if d == 1 {
        '1'
    } else if d == 2 {
        '2'
    } else if d == 3 {
        '3'
    } else if d == 4 {
        '4'
    } else if d == 5 {
        '5'
    } else if d == 6 {
        '6'
    } else if d == 7 {
        '7'
    } else if d == 8 {
        '8'
    } else {
        '9'
    }
}

/// The decimal digits of `n`, without leading zeros.
pub open spec fn decimal(n: nat) -> Seq<char>
    decreases n,
{
    if n < 10 {
        seq![digit_char(n as int)]
    } else {
        decimal(n / 10).push(digit_char((n % 10) as int))
    }
}

/// The decimal digits of `n`, padded with a zero to at least two.
pub open spec fn padded2(n: nat) -> Seq<char> {
    if n < 10 {
        seq!['0', digit_char(n as int)]
    } else {
        decimal(n)
    }
}

/// A time in seconds as `[day@]hour:minute[:second]`: the day (two digits at
/// least) only when it is not 0, the second only when it is not 0.
pub open spec fn time_text(t: nat) -> Seq<char> {
    let days = t / 86400;
    let r = t % 86400;
    let hours = r / 3600;
    let minutes = (r % 3600) / 60;
    let seconds = r % 60;
    (if days > 0 {
        padded2(days) + seq!['@']
    } else {
        Seq::empty()
    }) + decimal(hours) + seq![':'] + padded2(minutes) + (if seconds > 0 {
        seq![':'] + padded2(seconds)
    } else {
        Seq::empty()
    })
}

fn digit_str(d: u32) -> (r: &'static str)
    requires
        d < 10,
    ensures
        r@ == seq![digit_char(d as int)],
{
    if d == 0 {
        proof {
            reveal_strlit("0");
        }
        "0"
    } else if d == 1 {
        proof {
            reveal_strlit("1");
        }
        "1"
    } else if d == 2 {
        proof {
            reveal_strlit("2");
        }
        "2"
    } else if d == 3 {
        proof {
            reveal_strlit("3");
        }
        "3"
    } else if d == 4 {
        proof {
            reveal_strlit("4");
        }
        "4"
    } else if d == 5 {
        proof {
            reveal_strlit("5");
        }
        "5"
    } else if d == 6 {
        proof {
            reveal_strlit("6");
        }
        "6"
    } else if d == 7 {
        proof {
            reveal_strlit("7");
        }
        "7"
    } else if d == 8 {
        proof {
            reveal_strlit("8");
        }
        "8"
    } else {
        proof {
            reveal_strlit("9");
        }
        "9"
    }
}

fn push_decimal(s: &mut String, n: u32)
    ensures
        final(s)@ == old(s)@ + decimal(n as nat),
    decreases n,
{
    if n >= 10 {
        push_decimal(s, n / 10);
    }
    s.append(digit_str(n % 10));
    proof {
        if n >= 10 {
            assert(old(s)@ + decimal((n / 10) as nat) + seq![digit_char((n % 10) as int)] =~= old(s)@
                + decimal(n as nat));
        } else {
            assert(old(s)@ + seq![digit_char((n % 10) as int)] =~= old(s)@ + decimal(n as nat));
        }
    }
}

fn push_padded2(s: &mut String, n: u32)
    ensures
        final(s)@ == old(s)@ + padded2(n as nat),
{
    if n < 10 {
        s.append(digit_str(0));
        s.append(digit_str(n));
        assert(old(s)@ + seq![digit_char(0)] + seq![digit_char(n as int)] =~= old(s)@ + padded2(
            n as nat,
        ));
    } else {
        push_decimal(s, n);
    }
}

/// Formats a time in seconds as `[day@]hour:minute[:second]`.
pub fn format_time(t: u32) -> (r: String)
    ensures
        r@ == time_text(t as nat),
{
    let days = t / 86400;
    let rest = t % 86400;
    let hours = rest / 3600;
    let minutes = (rest % 3600) / 60;
    let seconds = rest % 60;
    let mut s = String::new();
    if days > 0 {
        push_padded2(&mut s, days);
        proof {
            reveal_strlit("@");
        }
        s.append("@");
    }
    push_decimal(&mut s, hours);
    proof {
        reveal_strlit(":");
    }
    s.append(":");
    push_padded2(&mut s, minutes);
    if seconds > 0 {
        s.append(":");
        push_padded2(&mut s, seconds);
    }
    assert(s@ =~= time_text(t as nat));
    s
}

impl Agent {
    /// The snapshot's time, formatted as `[day@]hour:minute[:second]`.
    pub fn formatted_time(&self) -> (r: String)
        ensures
            r@ == time_text(self.time as nat),
    {
        format_time(self.time)
    }
}

/// Whether `b` is a non-empty run of ASCII decimal digits.
pub open spec fn all_digits(b: Seq<u8>) -> bool {
    b.len() > 0 && forall|i: int| 0 <= i < b.len() ==> 48 <= #[trigger] b[i] <= 57
}

/// The value of a run of ASCII decimal digits.
pub open spec fn digits_value(b: Seq<u8>) -> int
    decreases b.len(),
{
    if b.len() == 0 {
        0
    } else {
        10 * digits_value(b.drop_last()) + (b.last() - 48)
    }
}

/// The number written in `b[lo..hi]`, if that is a run of digits whose value
/// fits in 32 bits.
pub open spec fn field_value(b: Seq<u8>, lo: int, hi: int) -> Option<int> {
    let f = b.subrange(lo, hi);
    if all_digits(f) && digits_value(f) <= u32::MAX {
        Some(digits_value(f))
    } else {
        None
    }
}

/// The first position at or after `i` holding `c`, or the length.
pub open spec fn find_from(b: Seq<u8>, c: u8, i: int) -> int
    decreases b.len() - i,
{
    if i >= b.len() {
        b.len() as int
    } else if b[i] == c {
        i
    } else {
        find_from(b, c, i + 1)
    }
}

/// The number of seconds written in `b` as `[day@]hour:minute[:second]`, each
/// field a run of decimal digits; `None` if `b` has another shape or the total
/// does not fit in 32 bits.
pub open spec fn timestamp_value(b: Seq<u8>) -> Option<int> {
    let at = find_from(b, 64, 0);
    let day = if at < b.len() {
        field_value(b, 0, at)
    } else {
        Some(0)
    };
    let start = if at < b.len() {
        at + 1
    } else {
        0
    };
    let c1 = find_from(b, 58, start);
    let c2 = find_from(b, 58, c1 + 1);
    let hour = field_value(b, start, c1);
    let minute = field_value(b, c1 + 1, c2);
    let second = if c2 < b.len() {
        field_value(b, c2 + 1, b.len() as int)
    } else {
        Some(0)
    };
    if c1 >= b.len() {
        None
    } else if day is Some && hour is Some && minute is Some && second is Some {
        let total = day->Some_0 * 86400 + hour->Some_0 * 3600 + minute->Some_0 * 60
            + second->Some_0;
        if total <= u32::MAX {
            Some(total)
        } else {
            None
        }
    } else {
        None
    }
}

proof fn lemma_find_from(b: Seq<u8>, c: u8, i: int, p: int)
    requires
        0 <= i <= p <= b.len(),
        forall|k: int| i <= k < p ==> b[k] != c,
        p < b.len() ==> b[p] == c,
    ensures
        find_from(b, c, i) == p,
    decreases p - i,
{
    if i < p {
        lemma_find_from(b, c, i + 1, p);
    }
}

/// Extending a run of digits never lowers its value.
proof fn lemma_digits_grow(b: Seq<u8>, i: int, j: int)
    requires
        0 <= i <= j <= b.len(),
        forall|k: int| 0 <= k < b.len() ==> 48 <= #[trigger] b[k] <= 57,
    ensures
        digits_value(b.take(i)) <= digits_value(b.take(j)),
        digits_value(b.take(i)) >= 0,
    decreases j - i,
{
    if i < j {
        lemma_digits_grow(b, i, j - 1);
        assert(b.take(j).drop_last() =~= b.take(j - 1));
        lemma_digits_nonneg(b.take(j - 1));
    }
    lemma_digits_nonneg(b.take(i));
}

proof fn lemma_digits_nonneg(b: Seq<u8>)
    requires
        forall|k: int| 0 <= k < b.len() ==> 48 <= #[trigger] b[k] <= 57,
    ensures
        digits_value(b) >= 0,
    decreases b.len(),
{
    if b.len() > 0 {
        lemma_digits_nonneg(b.drop_last());
    }
}

fn find_byte(b: &[u8], c: u8, i: usize) -> (r: usize)
    requires
        i <= b@.len(),
    ensures
        r == find_from(b@, c, i as int),
        i <= r <= b@.len(),
{
    let mut k = i;
    while k < b.len() && b[k] != c
        invariant
            i <= k <= b@.len(),
            forall|j: int| i <= j < k ==> b@[j] != c,
        decreases b@.len() - k,
    {
        k += 1;
    }
    proof {
        lemma_find_from(b@, c, i as int, k as int);
    }
    k
}

fn parse_field(b: &[u8], lo: usize, hi: usize) -> (r: Option<u32>)
    requires
        lo <= hi <= b@.len(),
    ensures
        r matches Some(v) ==> field_value(b@, lo as int, hi as int) == Some(v as int),
        r is None ==> field_value(b@, lo as int, hi as int) is None,
{
    let ghost f = b@.subrange(lo as int, hi as int);
    if lo == hi {
        return None;
    }
    let mut acc: u64 = 0;
    let mut k = lo;
    while k < hi
        invariant
            lo <= k <= hi <= b@.len(),
            f == b@.subrange(lo as int, hi as int),
            forall|j: int| lo <= j < k ==> 48 <= #[trigger] b@[j] <= 57,
            acc == digits_value(f.take(k - lo)),
            acc <= u32::MAX,
        decreases hi - k,
    {
        let d = b[k];
        if d < 48 || d > 57 {
            assert(f[k - lo] == d);
            return None;
        }
        assert(f.take(k - lo + 1).drop_last() =~= f.take(k - lo));
        acc = acc * 10 + (d - 48) as u64;
        if acc > 0xFFFF_FFFF {
            proof {
                assert forall|j: int| 0 <= j < f.len() implies 48 <= #[trigger] f[j] <= 57 || !all_digits(f) by {}
                if all_digits(f) {
                    lemma_digits_grow(f, k - lo + 1, f.len() as int);
                    assert(f.take(f.len() as int) =~= f);
                }
            }
            return None;
        }
        k += 1;
    }
    assert(f.take(hi - lo) =~= f);
    Some(acc as u32)
}

/// Parses a snapshot timestamp `[day@]hour:minute[:second]` (for example
/// `1@0:59:30`, `2:48:30` or `0:02`) into seconds. `None` if the text has
/// another shape or the time does not fit in 32 bits.
pub fn parse_timestamp(timestamp: &str) -> (r: Option<u32>)
    ensures
        r matches Some(v) ==> timestamp_value(timestamp.spec_bytes()) == Some(v as int),
        r is None ==> timestamp_value(timestamp.spec_bytes()) is None,
{
    let b = timestamp.as_bytes();
    let n = b.len();
    let at = find_byte(b, 64, 0);
    let (day, start) = if at < n {
        (parse_field(b, 0, at), at + 1)
    } else {
        (Some(0u32), 0)
    };
    let c1 = find_byte(b, 58, start);
    if c1 >= n {
        return None;
    }
    let c2 = find_byte(b, 58, c1 + 1);
    let hour = parse_field(b, start, c1);
    let minute = parse_field(b, c1 + 1, c2);
    let second = if c2 < n {
        parse_field(b, c2 + 1, n)
    } else {
        Some(0u32)
    };
    match (day, hour, minute, second) {
        (Some(d), Some(h), Some(m), Some(s)) => {
            let total = (d as u64) * 86400 + (h as u64) * 3600 + (m as u64) * 60 + (s as u64);
            if total <= 0xFFFF_FFFF {
                Some(total as u32)
            } else {
                None
            }
        },
        _ => None,
    }
}

/// A byte read as a decimal digit: its distance above `'0'`, or 0 below it.
pub open spec fn digit_or_zero(b: u8) -> int {
    if b >= 48 {
        b - 48
    } else {
        0
    }
}

/// The hour bucket of a timestamp text, from its first bytes: `h:...` gives
/// `h`, `d@h...` gives `24 + h`, and `hh...` gives `10 * h + h`. `None` if the
/// text is too short or the bucket does not fit in a byte.
pub open spec fn hour_bucket(t: Seq<u8>) -> Option<int> {
    let v = if t.len() < 2 {
        -1
    } else if t[1] == 58 {
        digit_or_zero(t[0])
    } else if t[1] == 64 {
        if t.len() < 3 {
            -1
        } else {
            24 + digit_or_zero(t[2])
        }
    } else {
        10 * digit_or_zero(t[0]) + digit_or_zero(t[1])
    };
    if 0 <= v <= 255 {
        Some(v)
    } else {
        None
    }
}

fn digit_or_zero_exec(b: u8) -> (r: u8)
    ensures
        r == digit_or_zero(b),
{
    if b >= 48 {
        b - 48
    } else {
        0
    }
}

/// The hour bucket of a snapshot's timestamp text (see `hour_bucket`).
pub fn get_hour(timestamp: &[u8]) -> (r: Option<u8>)
    ensures
        r matches Some(h) ==> hour_bucket(timestamp@) == Some(h as int),
        r is None ==> hour_bucket(timestamp@) is None,
{
    let n = timestamp.len();
    if n < 2 {
        return None;
    }
    let v: u32 = if timestamp[1] == 58 {
        digit_or_zero_exec(timestamp[0]) as u32
    } else if timestamp[1] == 64 {
        if n < 3 {
            return None;
        }
        24 + digit_or_zero_exec(timestamp[2]) as u32
    } else {
        10 * (digit_or_zero_exec(timestamp[0]) as u32) + digit_or_zero_exec(timestamp[1]) as u32
    };
    if v <= 255 {
        Some(v as u8)
    } else {
        None
    }
}

} // verus!
