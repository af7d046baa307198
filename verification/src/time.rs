//! Calendar timestamps with minute precision, their validity, ordering,
//! weekday arithmetic and the weekend window used for duty statistics.
use vstd::prelude::*;

verus! {

/// A timezone-free point in time with minute precision: one snapshot date.
#[derive(Clone, Copy, PartialEq, Eq, Structural, Debug)]
pub struct Timestamp {
    pub year: u16,
    pub month: u8,
    pub day: u8,
    pub hour: u8,
    pub minute: u8,
}

pub open spec fn is_leap_year(y: int) -> bool {
    (y % 4 == 0 && y % 100 != 0) || y % 400 == 0
}

pub open spec fn days_in_month(y: int, m: int) -> int {
    if m == 2 {
        if is_leap_year(y) {
            29
        } else {
            28
        }
    } else if m == 4 || m == 6 || m == 9 || m == 11 {
        30
    } else {
        31
    }
}

impl Timestamp {
    /// A calendar-valid timestamp of the supported era.
    pub open spec fn valid(self) -> bool {
        &&& 1 <= self.year <= 9999
        &&& 1 <= self.month <= 12
        &&& 1 <= self.day <= days_in_month(self.year as int, self.month as int)
        &&& self.hour <= 23
        &&& self.minute <= 59
    }

    /// Number of days since 1 March of year 0 of the proleptic Gregorian
    /// calendar (the civil-from-days construction over 400-year eras).
    pub open spec fn day_number(self) -> int {
        let y: int = if self.month <= 2 {
            self.year - 1
        } else {
            self.year as int
        };
        let era: int = y / 400;
        let yoe: int = y % 400;
        let mp: int = if self.month > 2 {
            self.month - 3
        } else {
            self.month + 9
        };
        let doy: int = (153 * mp + 2) / 5 + (self.day - 1);
        let doe: int = yoe * 365 + yoe / 4 - yoe / 100 + doy;
        era * 146097 + doe
    }

    /// Day of the week, 1 = Monday .. 7 = Sunday.
    pub open spec fn weekday(self) -> int {
        (self.day_number() + 2) % 7 + 1
    }

    /// The weekend window: all of Saturday and Sunday, and Friday from 18:00.
    pub open spec fn is_weekend(self) -> bool {
        self.weekday() >= 6 || (self.weekday() == 5 && self.hour >= 18)
    }

    /// Strict chronological order (lexicographic over the fields).
    pub open spec fn lt(self, other: Timestamp) -> bool {
        if self.year != other.year {
            self.year < other.year
        } else if self.month != other.month {
            self.month < other.month
        } else if self.day != other.day {
            self.day < other.day
        } else if self.hour != other.hour {
            self.hour < other.hour
        } else {
            self.minute < other.minute
        }
    }

    /// Checks calendar validity.
    pub fn check_valid(&self) -> (b: bool)
        ensures
            b == self.valid(),
    {
        let leap: bool = (self.year % 4 == 0 && self.year % 100 != 0) || self.year % 400 == 0;
        let dim: u8 = if self.month == 2 {
            if leap {
                29
            } else {
                28
            }
        } else if self.month == 4 || self.month == 6 || self.month == 9 || self.month == 11 {
            30
        } else {
            31
        };
        1 <= self.year && self.year <= 9999 && 1 <= self.month && self.month <= 12 && 1 <= self.day
            && self.day <= dim && self.hour <= 23 && self.minute <= 59
    }

    /// Day of the week, 1 = Monday .. 7 = Sunday.
    pub fn compute_weekday(&self) -> (w: u8)
        requires
            self.valid(),
        ensures
            w == self.weekday(),
            1 <= w <= 7,
    {
        let y: u32 = if self.month <= 2 {
            self.year as u32 - 1
        } else {
            self.year as u32
        };
        let era: u32 = y / 400;
        let yoe: u32 = y % 400;
        let mp: u32 = if self.month > 2 {
            self.month as u32 - 3
        } else {
            self.month as u32 + 9
        };
        let doy: u32 = (153 * mp + 2) / 5 + (self.day as u32 - 1);
        let doe: u32 = yoe * 365 + yoe / 4 - yoe / 100 + doy;
        let days: u32 = era * 146097 + doe;
        ((days + 2) % 7 + 1) as u8
    }

    /// Whether this timestamp falls in the weekend window.
    pub fn in_weekend(&self) -> (b: bool)
        requires
            self.valid(),
        ensures
            b == self.is_weekend(),
    {
        let w = self.compute_weekday();
        w >= 6 || (w == 5 && self.hour >= 18)
    }

    /// Strict chronological order.
    pub fn before(&self, other: &Timestamp) -> (b: bool)
        ensures
            b == self.lt(*other),
    {
        if self.year != other.year {
            self.year < other.year
        } else if self.month != other.month {
            self.month < other.month
        } else if self.day != other.day {
            self.day < other.day
        } else if self.hour != other.hour {
            self.hour < other.hour
        } else {
            self.minute < other.minute
        }
    }
}

pub open spec fn is_digit(c: char) -> bool {
    '0' <= c && c <= '9'
}

pub open spec fn digit_val(c: char) -> int {
    c as int - '0' as int
}

/// First index at or after `i` that does not hold a digit (or the end).
pub open spec fn digit_run_end(s: Seq<char>, i: int) -> int
    decreases s.len() - i,
{
    if 0 <= i < s.len() && is_digit(s[i]) {
        digit_run_end(s, i + 1)
    } else {
        i
    }
}

/// Value of the decimal digits `s[i..j)`, read left to right.
pub open spec fn num_val(s: Seq<char>, i: int, j: int) -> int
    decreases j - i,
{
    if j <= i {
        0
    } else {
        num_val(s, i, j - 1) * 10 + digit_val(s[j - 1])
    }
}

pub open spec fn pow10(n: nat) -> int
    decreases n,
{
    if n == 0 {
        1
    } else {
        10 * pow10((n - 1) as nat)
    }
}

proof fn lemma_digit_run_end_range(s: Seq<char>, i: int)
    requires
        0 <= i <= s.len(),
    ensures
        i <= digit_run_end(s, i) <= s.len(),
        forall|k: int| i <= k < digit_run_end(s, i) ==> is_digit(s[k]),
    decreases s.len() - i,
{
    if i < s.len() && is_digit(s[i]) {
        lemma_digit_run_end_range(s, i + 1);
    }
}

proof fn lemma_pow10_small()
    ensures
        pow10(0) == 1,
        pow10(1) == 10,
        pow10(2) == 100,
        pow10(3) == 1000,
        pow10(4) == 10000,
{
    assert(pow10(0) == 1);
    assert(pow10(1) == 10);
    assert(pow10(2) == 100);
    assert(pow10(3) == 1000);
    assert(pow10(4) == 10000);
}

proof fn lemma_num_val_bound(s: Seq<char>, i: int, j: int)
    requires
        0 <= i <= j <= s.len(),
        forall|k: int| i <= k < j ==> #[trigger] is_digit(s[k]),
    ensures
        0 <= num_val(s, i, j) < pow10((j - i) as nat),
    decreases j - i,
{
    if j <= i {
    } else {
        lemma_num_val_bound(s, i, j - 1);
        assert(is_digit(s[j - 1]));
        assert(0 <= digit_val(s[j - 1]) <= 9);
        assert(pow10((j - i) as nat) == 10 * pow10((j - 1 - i) as nat));
    }
}

/// The timestamp written in a cell: one to two digits each for day, month,
/// hour and minute, exactly four digits for the year, in the shape
/// `day.month.year hour:minute`, nothing before or after, and the fields
/// must form a calendar-valid timestamp.
pub open spec fn parse_timestamp_spec(s: Seq<char>) -> Option<Timestamp> {
    let d_end = digit_run_end(s, 0);
    if !(1 <= d_end <= 2 && d_end < s.len() && s[d_end] == '.') {
        None
    } else {
        let m_end = digit_run_end(s, d_end + 1);
        if !(1 <= m_end - (d_end + 1) <= 2 && m_end < s.len() && s[m_end] == '.') {
            None
        } else {
            let y_end = digit_run_end(s, m_end + 1);
            if !(y_end - (m_end + 1) == 4 && y_end < s.len() && s[y_end] == ' ') {
                None
            } else {
                let h_end = digit_run_end(s, y_end + 1);
                if !(1 <= h_end - (y_end + 1) <= 2 && h_end < s.len() && s[h_end] == ':') {
                    None
                } else {
                    let mi_end = digit_run_end(s, h_end + 1);
                    if !(1 <= mi_end - (h_end + 1) <= 2 && mi_end == s.len()) {
                        None
                    } else {
                        let t = Timestamp {
                            year: num_val(s, m_end + 1, y_end) as u16,
                            month: num_val(s, d_end + 1, m_end) as u8,
                            day: num_val(s, 0, d_end) as u8,
                            hour: num_val(s, y_end + 1, h_end) as u8,
                            minute: num_val(s, h_end + 1, mi_end) as u8,
                        };
                        if t.valid() {
                            Some(t)
                        } else {
                            None
                        }
                    }
                }
            }
        }
    }
}

/// First index at or after `from` that does not hold a decimal digit.
fn scan_digits(s: &str, from: usize, len: usize) -> (r: usize)
    requires
        from <= len,
        len == s@.len(),
    ensures
        r == digit_run_end(s@, from as int),
        from <= r <= len,
{
    let mut cur: usize = from;
    loop
        invariant
            from <= cur <= len,
            len == s@.len(),
            digit_run_end(s@, from as int) == digit_run_end(s@, cur as int),
        decreases len - cur,
    {
        if cur < len {
            let c = s.get_char(cur);
            if '0' <= c && c <= '9' {
                cur = cur + 1;
                continue ;
            }
        }
        return cur;
    }
}

/// Value of the decimal digits `s[i..j)`; at most four digits.
fn read_number(s: &str, i: usize, j: usize) -> (r: u32)
    requires
        i <= j <= s@.len(),
        j - i <= 4,
        forall|k: int| i <= k < j ==> is_digit(s@[k]),
    ensures
        r == num_val(s@, i as int, j as int),
        r < pow10((j - i) as nat),
{
    let mut val: u32 = 0;
    let mut cur: usize = i;
    while cur < j
        invariant
            i <= cur <= j <= s@.len(),
            j - i <= 4,
            forall|k: int| i <= k < j ==> #[trigger] is_digit(s@[k]),
            val == num_val(s@, i as int, cur as int),
            val < pow10((cur - i) as nat),
        decreases j - cur,
    {
        proof {
            lemma_pow10_small();
            assert(pow10(((cur + 1) - i) as nat) == 10 * pow10((cur - i) as nat));
            assert(is_digit(s@[cur as int]));
            let k: int = cur - i;
            assert(k == 0 || k == 1 || k == 2 || k == 3);
            assert(pow10(k as nat) <= 1000);
        }
        let c = s.get_char(cur);
        proof {
            assert(is_digit(c));
            assert(0 <= digit_val(c) <= 9);
        }
        let d: u32 = (c as u32) - ('0' as u32);
        val = val * 10 + d;
        cur = cur + 1;
    }
    proof {
        lemma_pow10_small();
    }
    val
}

/// Parses the snapshot timestamp format `day.month.year hour:minute`.
pub fn parse_timestamp(s: &str) -> (r: Option<Timestamp>)
    ensures
        r == parse_timestamp_spec(s@),
{
    let len = s.unicode_len();
    proof {
        lemma_digit_run_end_range(s@, 0);
    }
    let d_end = scan_digits(s, 0, len);
    if !(1 <= d_end && d_end <= 2 && d_end < len && s.get_char(d_end) == '.') {
        return None;
    }
    proof {
        lemma_digit_run_end_range(s@, d_end + 1);
    }
    let m_end = scan_digits(s, d_end + 1, len);
    if !(1 <= m_end - (d_end + 1) && m_end - (d_end + 1) <= 2 && m_end < len && s.get_char(m_end)
        == '.') {
        return None;
    }
    proof {
        lemma_digit_run_end_range(s@, m_end + 1);
    }
    let y_end = scan_digits(s, m_end + 1, len);
    if !(y_end - (m_end + 1) == 4 && y_end < len && s.get_char(y_end) == ' ') {
        return None;
    }
    proof {
        lemma_digit_run_end_range(s@, y_end + 1);
    }
    let h_end = scan_digits(s, y_end + 1, len);
    if !(1 <= h_end - (y_end + 1) && h_end - (y_end + 1) <= 2 && h_end < len && s.get_char(h_end)
        == ':') {
        return None;
    }
    proof {
        lemma_digit_run_end_range(s@, h_end + 1);
    }
    let mi_end = scan_digits(s, h_end + 1, len);
    if !(1 <= mi_end - (h_end + 1) && mi_end - (h_end + 1) <= 2 && mi_end == len) {
        return None;
    }
    let day = read_number(s, 0, d_end);
    let month = read_number(s, d_end + 1, m_end);
    let year = read_number(s, m_end + 1, y_end);
    let hour = read_number(s, y_end + 1, h_end);
    let minute = read_number(s, h_end + 1, mi_end);
    proof {
        lemma_pow10_small();
    }
    let t = Timestamp {
        year: year as u16,
        month: month as u8,
        day: day as u8,
        hour: hour as u8,
        minute: minute as u8,
    };
    if t.check_valid() {
        Some(t)
    } else {
        None
    }
}

} // verus!
