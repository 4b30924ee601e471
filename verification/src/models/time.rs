//! A clock reading relative to the start of an operating day.

use crate::text::{
    ascii_bytes, digit_value, find_byte, is_digit, is_number, number_of, number_value, position_of,
    read_number,
};
use vstd::prelude::*;
use vstd::string::StringExecFns;
use vstd::utf8::is_ascii_chars;

verus! {

/// A reading of the clock, counted from the start of the operating day.
///
/// Service that runs past midnight keeps counting: 25:10:00 is ten past one on
/// the following morning. Readings are ordered by hours, then minutes, then
/// seconds.
#[derive(Debug, Clone, Copy, PartialEq, Eq, PartialOrd, Ord, Hash, Structural)]
pub struct CSTime {
    pub hours: usize,
    pub minutes: usize,
    pub seconds: usize,
}

/// Why a text could not be read as a clock value.
#[derive(Debug, Clone, Copy, PartialEq, Eq, Structural)]
pub enum TimeError {
    /// The text is not three decimal numbers separated by colons, or one of
    /// the numbers does not fit the machine word.
    InvalidTimeFormat,
}

/// The reading that `text` spells: hours, minutes and seconds as decimal
/// numbers of any length, separated by two colons. `None` if `text` has another
/// shape or one of the numbers does not fit the machine word.
pub open spec fn clock_of(text: Seq<char>) -> Option<CSTime> {
    let first = position_of(text, ':', 0);
    let second = position_of(text, ':', first + 1);
    if first < text.len() && second < text.len() {
        match (
            number_of(text.subrange(0, first), usize::MAX as nat),
            number_of(text.subrange(first + 1, second), usize::MAX as nat),
            number_of(text.subrange(second + 1, text.len() as int), usize::MAX as nat),
        ) {
            (Some(hours), Some(minutes), Some(seconds)) => Some(
                CSTime {
                    hours: hours as usize,
                    minutes: minutes as usize,
                    seconds: seconds as usize,
                },
            ),
            _ => None,
        }
    } else {
        None
    }
}

/// Where the search for a mark ends: at the first mark, or at the end.
pub proof fn lemma_position_of(text: Seq<char>, mark: char, from: int)
    requires
        0 <= from <= text.len(),
    ensures
        from <= position_of(text, mark, from) <= text.len(),
        position_of(text, mark, from) < text.len() ==> text[position_of(text, mark, from)] == mark,
        forall|i: int| from <= i < position_of(text, mark, from) ==> text[i] != mark,
    decreases text.len() - from,
{
    if from < text.len() && text[from] != mark {
        lemma_position_of(text, mark, from + 1);
    }
}

/// A text with a character outside ASCII spells no clock reading.
pub proof fn lemma_clock_is_ascii(text: Seq<char>)
    requires
        !is_ascii_chars(text),
    ensures
        clock_of(text) is None,
{
    let first = position_of(text, ':', 0);
    lemma_position_of(text, ':', 0);
    if first < text.len() {
        let second = position_of(text, ':', first + 1);
        lemma_position_of(text, ':', first + 1);
        if second < text.len() {
            let i = choose|i: int| 0 <= i < text.len() && !('\0' <= #[trigger] text[i] <= '\u{7f}');
            if i < first {
                assert(text.subrange(0, first)[i] == text[i]);
            } else if first < i < second {
                assert(text.subrange(first + 1, second)[i - first - 1] == text[i]);
            } else if i > second {
                assert(text.subrange(second + 1, text.len() as int)[i - second - 1] == text[i]);
            }
        }
    }
}

/// The character that stands for a number below ten.
pub open spec fn digit_char(d: nat) -> char {
    seq!['0', '1', '2', '3', '4', '5', '6', '7', '8', '9'][d as int]
}

/// `n` written out in decimal digits.
pub open spec fn decimal(n: nat) -> Seq<char>
    decreases n,
{
    if n < 10 {
        seq![digit_char(n)]
    } else {
        decimal(n / 10).push(digit_char(n % 10))
    }
}

/// `n` written out in two decimal digits or more.
pub open spec fn two_digits(n: nat) -> Seq<char> {
    if n < 10 {
        seq!['0', digit_char(n)]
    } else {
        decimal(n)
    }
}

/// How a reading is shown: the hour of the day, the minutes and the seconds,
/// two digits each, with colons between them.
pub open spec fn clock_text(t: CSTime) -> Seq<char> {
    two_digits((t.hours % 24) as nat) + seq![':'] + two_digits(t.minutes as nat) + seq![':']
        + two_digits(t.seconds as nat)
}

/// Gives the text that stands for a number below ten.
fn digit_text(d: usize) -> (text: &'static str)
    requires
        d < 10,
    ensures
        text@ == seq![digit_char(d as nat)],
{
    proof {
        reveal_strlit("0");
        reveal_strlit("1");
        reveal_strlit("2");
        reveal_strlit("3");
        reveal_strlit("4");
        reveal_strlit("5");
        reveal_strlit("6");
        reveal_strlit("7");
        reveal_strlit("8");
        reveal_strlit("9");
    }
    let text = if d == 0 {
        "0"
    } else if d == 1 {
        "1"
    } else if d == 2 {
        "2"
    } else if d == 3 {
        "3"
    } else if d == 4 {
        "4"
    } else if d == 5 {
        "5"
    } else if d == 6 {
        "6"
    } else if d == 7 {
        "7"
    } else if d == 8 {
        "8"
    } else {
        "9"
    };
    proof {
        assert(text@ =~= seq![digit_char(d as nat)]);
    }
    text
}

/// Appends `n` in decimal digits to `out`.
fn push_decimal(out: &mut String, n: usize)
    ensures
        final(out)@ == old(out)@ + decimal(n as nat),
    decreases n,
{
    if n >= 10 {
        push_decimal(out, n / 10);
    }
    let ghost before = out@;
    out.append(digit_text(n % 10));
    proof {
        if n >= 10 {
            assert(old(out)@ + decimal(n as nat) =~= before + seq![digit_char((n % 10) as nat)]);
        }
    }
}

/// Appends `n` in two decimal digits or more to `out`.
fn push_two_digits(out: &mut String, n: usize)
    ensures
        final(out)@ == old(out)@ + two_digits(n as nat),
{
    if n < 10 {
        out.append("0");
        out.append(digit_text(n));
        proof {
            reveal_strlit("0");
            assert(out@ =~= old(out)@ + two_digits(n as nat));
        }
    } else {
        push_decimal(out, n);
    }
}

impl CSTime {
    /// `self` is strictly earlier than `other`.
    pub open spec fn before(self, other: CSTime) -> bool {
        ||| self.hours < other.hours
        ||| self.hours == other.hours && self.minutes < other.minutes
        ||| self.hours == other.hours && self.minutes == other.minutes && self.seconds
            < other.seconds
    }

    /// `self` is `other` or earlier.
    pub open spec fn not_after(self, other: CSTime) -> bool {
        self == other || self.before(other)
    }

    /// Builds a reading from its three parts.
    pub fn new(hours: usize, minutes: usize, seconds: usize) -> (t: CSTime)
        ensures
            t == (CSTime { hours, minutes, seconds }),
    {
        CSTime { hours, minutes, seconds }
    }

    /// Reads a clock value from `hours:minutes:seconds`.
    ///
    /// Each part is a decimal number of one digit or more. The hours may be
    /// 24 or more.
    pub fn parse_from_str(s: &str) -> (r: Result<CSTime, TimeError>)
        ensures
            r == match clock_of(s@) {
                Some(t) => Ok::<CSTime, TimeError>(t),
                None => Err::<CSTime, TimeError>(TimeError::InvalidTimeFormat),
            },
    {
        let bytes = match ascii_bytes(s) {
            None => {
                proof {
                    lemma_clock_is_ascii(s@);
                }
                return Err(TimeError::InvalidTimeFormat);
            },
            Some(bytes) => bytes,
        };
        let end = bytes.len();
        let first = find_byte(bytes, 58, 0, Ghost(s@));
        if first >= end {
            return Err(TimeError::InvalidTimeFormat);
        }
        let second = find_byte(bytes, 58, first + 1, Ghost(s@));
        if second >= end {
            return Err(TimeError::InvalidTimeFormat);
        }
        let limit = usize::MAX as u64;
        let hours = read_number(bytes, 0, first, limit, Ghost(s@));
        let minutes = read_number(bytes, first + 1, second, limit, Ghost(s@));
        let seconds = read_number(bytes, second + 1, end, limit, Ghost(s@));
        match (hours, minutes, seconds) {
            (Some(hours), Some(minutes), Some(seconds)) => Ok(
                CSTime {
                    hours: hours as usize,
                    minutes: minutes as usize,
                    seconds: seconds as usize,
                },
            ),
            _ => Err(TimeError::InvalidTimeFormat),
        }
    }

    /// Shows the reading as `hours:minutes:seconds`, two digits each. The
    /// hours are shown as the hour of the day: 25:10:00 reads `01:10:00`.
    pub fn to_string(&self) -> (text: String)
        ensures
            text@ == clock_text(*self),
    {
        let mut text = String::new();
        push_two_digits(&mut text, self.hours % 24);
        text.append(":");
        push_two_digits(&mut text, self.minutes);
        text.append(":");
        push_two_digits(&mut text, self.seconds);
        proof {
            reveal_strlit(":");
            assert(text@ =~= clock_text(*self));
        }
        text
    }

    /// Tells whether `self` is strictly earlier than `other`.
    pub fn is_before(&self, other: &CSTime) -> (b: bool)
        ensures
            b == self.before(*other),
    {
        if self.hours != other.hours {
            self.hours < other.hours
        } else if self.minutes != other.minutes {
            self.minutes < other.minutes
        } else {
            self.seconds < other.seconds
        }
    }

    /// Tells whether `self` is `other` or earlier.
    pub fn is_not_after(&self, other: &CSTime) -> (b: bool)
        ensures
            b == self.not_after(*other),
    {
        !other.is_before(self)
    }
}

/// The order on clock readings is a strict total order.
pub proof fn lemma_time_order(a: CSTime, b: CSTime, c: CSTime)
    ensures
        !a.before(a),
        a.before(b) && b.before(c) ==> a.before(c),
        a.before(b) || a == b || b.before(a),
        a.not_after(b) <==> !b.before(a),
        a.not_after(b) && b.not_after(c) ==> a.not_after(c),
        a.before(b) && b.not_after(c) ==> a.before(c),
        a.not_after(b) && b.before(c) ==> a.before(c),
{
}

/// The character for a number below ten is the digit that stands for it.
pub proof fn lemma_digit_char(d: nat)
    requires
        d < 10,
    ensures
        is_digit(digit_char(d)),
        digit_value(digit_char(d)) == d,
        digit_char(d) != ':',
{
    if d == 0 {
    } else if d == 1 {
    } else if d == 2 {
    } else if d == 3 {
    } else if d == 4 {
    } else if d == 5 {
    } else if d == 6 {
    } else if d == 7 {
    } else if d == 8 {
    } else {
    }
}

/// A number written out in decimal digits is a decimal number, and spells
/// that number.
pub proof fn lemma_decimal(n: nat)
    ensures
        is_number(decimal(n)),
        number_value(decimal(n)) == n,
    decreases n,
{
    if n < 10 {
        lemma_digit_char(n);
        assert(decimal(n).drop_last() =~= Seq::<char>::empty());
        assert(number_value(Seq::<char>::empty()) == 0);
        assert(decimal(n).last() == digit_char(n));
    } else {
        lemma_decimal(n / 10);
        lemma_digit_char(n % 10);
        let head = decimal(n / 10);
        let text = decimal(n);
        assert(text.drop_last() =~= head);
        assert(text.last() == digit_char(n % 10));
        assert forall|i: int| 0 <= i < text.len() implies is_digit(#[trigger] text[i]) by {
            if i < head.len() {
                assert(text[i] == head[i]);
            }
        }
    }
}

/// A number written out in two digits or more is a decimal number, and
/// spells that number.
pub proof fn lemma_two_digits(n: nat)
    ensures
        is_number(two_digits(n)),
        number_value(two_digits(n)) == n,
{
    if n < 10 {
        lemma_digit_char(n);
        lemma_digit_char(0);
        let text = two_digits(n);
        assert(text.drop_last() =~= seq!['0']);
        assert(text.last() == digit_char(n));
        assert(seq!['0'].drop_last() =~= Seq::<char>::empty());
        assert(number_value(Seq::<char>::empty()) == 0);
        assert(seq!['0'].last() == '0');
        assert(number_value(seq!['0']) == 0);
    } else {
        lemma_decimal(n);
    }
}

/// The first mark from `from` on is at `at` if there is none before it.
pub proof fn lemma_position_at(text: Seq<char>, mark: char, from: int, at: int)
    requires
        0 <= from <= at <= text.len(),
        forall|i: int| from <= i < at ==> #[trigger] text[i] != mark,
        at < text.len() ==> text[at] == mark,
    ensures
        position_of(text, mark, from) == at,
    decreases at - from,
{
    if from < at {
        assert(text[from] != mark);
        lemma_position_at(text, mark, from + 1, at);
    }
}

/// What is shown of a reading can be read again, and gives the reading with
/// the hour of the day for its hours.
pub proof fn lemma_shown_reads_back(t: CSTime)
    ensures
        clock_of(clock_text(t)) == Some(
            CSTime { hours: t.hours % 24, minutes: t.minutes, seconds: t.seconds },
        ),
{
    let hours = two_digits((t.hours % 24) as nat);
    let minutes = two_digits(t.minutes as nat);
    let seconds = two_digits(t.seconds as nat);
    let text = clock_text(t);
    lemma_two_digits((t.hours % 24) as nat);
    lemma_two_digits(t.minutes as nat);
    lemma_two_digits(t.seconds as nat);
    let first = hours.len() as int;
    let second = first + 1 + minutes.len();
    assert(text.len() == second + 1 + seconds.len());
    assert forall|i: int| 0 <= i < first implies #[trigger] text[i] != ':' by {
        assert(text[i] == hours[i]);
        assert(is_digit(hours[i]));
    }
    assert(text[first] == ':');
    lemma_position_at(text, ':', 0, first);
    assert forall|i: int| first + 1 <= i < second implies #[trigger] text[i] != ':' by {
        assert(text[i] == minutes[i - first - 1]);
        assert(is_digit(minutes[i - first - 1]));
    }
    assert(text[second] == ':');
    lemma_position_at(text, ':', first + 1, second);
    assert(text.subrange(0, first) =~= hours);
    assert(text.subrange(first + 1, second) =~= minutes);
    assert(text.subrange(second + 1, text.len() as int) =~= seconds);
}

} // verus!
