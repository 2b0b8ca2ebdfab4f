//! Durations, and reading them from label text.

use crate::number;
use crate::text;
use vstd::prelude::*;

verus! {

/// A span of time, or a reading of a clock as the span since a fixed starting point.
#[derive(Clone, Copy, Debug, PartialEq, Eq, Structural)]
pub struct Duration {
    pub secs: u64,
    pub nanos: u32,
}

impl Duration {
    /// The span in nanoseconds.
    pub open spec fn total(self) -> nat {
        (self.secs * 1_000_000_000 + self.nanos) as nat
    }

    /// A span of whole seconds.
    pub fn from_secs(secs: u64) -> (r: Self)
        ensures
            r == (Duration { secs, nanos: 0 }),
    {
        Duration { secs, nanos: 0 }
    }

    /// A span of milliseconds.
    pub fn from_millis(millis: u64) -> (r: Self)
        ensures
            r.total() == millis * 1_000_000,
            r.nanos < 1_000_000_000,
    {
        Duration { secs: millis / 1000, nanos: ((millis % 1000) as u32) * 1_000_000 }
    }

    /// The whole seconds of the span.
    pub fn as_secs(&self) -> (r: u64)
        ensures
            r == self.secs,
    {
        self.secs
    }

    /// The span in nanoseconds.
    pub fn as_nanos(&self) -> (r: u128)
        ensures
            r == self.total(),
    {
        (self.secs as u128) * 1_000_000_000 + self.nanos as u128
    }
}

// ---------------------------------------------------------------------------------------------
// Reading a duration
// ---------------------------------------------------------------------------------------------

/// The error of `humantime::parse_duration`.
#[verifier::external_type_specification]
#[verifier::external_body]
pub struct ExDurationError(humantime::DurationError);

/// What `humantime::parse_duration` reads from a text: seconds and nanoseconds, or nothing.
pub uninterp spec fn humantime_duration(s: Seq<char>) -> Option<(u64, u32)>;

/// The nanoseconds of a millisecond.
pub const MILLISECOND: u64 = 1_000_000;

/// The nanoseconds of a minute.
pub const MINUTE: u64 = 60_000_000_000;

/// The nanoseconds of a month.
pub const MONTH: u64 = 2_630_016_000_000_000;

/// The nanoseconds of the first span that is too long for 64 bits of seconds.
pub const TOO_LONG: u128 = 18_446_744_073_709_551_616_000_000_000;

/// The first number that is too large for 64 bits.
pub const TOO_LARGE: u128 = 18_446_744_073_709_551_616;

/// The nanoseconds of a unit of time, by the first letter of its name, where that is no `m`.
pub open spec fn unit_nanos(c: char) -> nat {
    if c == 'n' {
        1
    } else if c == 'u' || c == '\u{b5}' {
        1_000
    } else if c == 'h' {
        3_600_000_000_000
    } else if c == 'd' {
        86_400_000_000_000
    } else if c == 'w' {
        604_800_000_000_000
    } else if c == 'M' {
        2_630_016_000_000_000
    } else if c == 'y' {
        31_557_600_000_000_000
    } else {
        1_000_000_000
    }
}

/// Where in a list of spans a reader is.
#[derive(Clone, Copy, PartialEq, Eq, Structural)]
pub enum Place {
    /// In a number, or before one.
    Number,
    /// Behind the decimal point of a number.
    Fraction,
    /// Behind an `m` that begins a unit: a minute, a month or a millisecond.
    LetterM,
    /// Behind an `mi` that begins a unit: a minute or a millisecond.
    LetterMi,
    /// In a unit that is known, or behind it.
    Unit,
}

/// What was read of a list of spans: the nanoseconds of the spans so far; the number that was read
/// last, as its whole part and the digits of its fraction over a power of ten; whether all of these
/// numbers fit in 64 bits; and the place of the reader.
pub struct Tally {
    pub total: nat,
    pub whole: nat,
    pub digits: nat,
    pub power: nat,
    pub fits: bool,
    pub place: Place,
}

/// The nanoseconds of the number that was read last, in a unit.
pub open spec fn span(t: Tally, unit: nat) -> nat {
    t.whole * unit + t.digits * unit / t.power
}

/// The tally after the unit of a span is known.
pub open spec fn with_span(t: Tally, unit: nat) -> Tally {
    Tally { total: t.total + span(t, unit), place: Place::Unit, ..t }
}

/// The tally where no more letters of a unit follow: an `m` alone is a minute.
pub open spec fn settled(t: Tally) -> Tally {
    if t.place == Place::LetterM {
        with_span(t, MINUTE as nat)
    } else {
        t
    }
}

/// The tally after one more digit.
pub open spec fn with_digit(t: Tally, d: nat) -> Tally {
    match t.place {
        Place::Number => Tally {
            whole: 10 * t.whole + d,
            fits: t.fits && 10 * t.whole + d < TOO_LARGE,
            ..t
        },
        Place::Fraction => Tally {
            digits: 10 * t.digits + d,
            power: 10 * t.power,
            fits: t.fits && 10 * t.digits + d < TOO_LARGE && 10 * t.power < TOO_LARGE,
            ..t
        },
        _ => Tally { whole: d, digits: 0, power: 1, place: Place::Number, ..settled(t) },
    }
}

/// The tally after one more character that is neither a digit nor white space.
pub open spec fn with_letter(t: Tally, c: char) -> Tally {
    match t.place {
        Place::Number => if c == '.' {
            Tally { place: Place::Fraction, ..t }
        } else if c == 'm' {
            Tally { place: Place::LetterM, ..t }
        } else {
            with_span(t, unit_nanos(c))
        },
        Place::Fraction => if c == 'm' {
            Tally { place: Place::LetterM, ..t }
        } else {
            with_span(t, unit_nanos(c))
        },
        Place::LetterM => if c == 'i' {
            Tally { place: Place::LetterMi, ..t }
        } else if c == 'o' {
            with_span(t, MONTH as nat)
        } else if c == 's' {
            with_span(t, MILLISECOND as nat)
        } else {
            settled(t)
        },
        Place::LetterMi => if c == 'l' {
            with_span(t, MILLISECOND as nat)
        } else {
            with_span(t, MINUTE as nat)
        },
        Place::Unit => t,
    }
}

/// The tally after one more character. White space inside a number does not end it.
pub open spec fn tally_next(t: Tally, c: char) -> Tally {
    if number::is_digit(c) {
        with_digit(t, (c as int - '0' as int) as nat)
    } else if !text::is_white_space(c) {
        with_letter(t, c)
    } else if t.place == Place::Number || t.place == Place::Fraction {
        t
    } else {
        Tally { place: Place::Unit, ..settled(t) }
    }
}

/// The tally of a text.
pub open spec fn tally(s: Seq<char>) -> Tally
    decreases s.len(),
{
    if s.len() == 0 {
        Tally { total: 0, whole: 0, digits: 0, power: 1, fits: true, place: Place::Number }
    } else {
        tally_next(tally(s.drop_last()), s.last())
    }
}

/// The numbers in `s` fit in 64 bits, and so do the seconds that it comes to as a list of spans.
pub open spec fn in_range(s: Seq<char>) -> bool {
    tally(s).fits && settled(tally(s)).total < TOO_LONG
}

/// The seconds of a single span of whole hours, minutes or seconds, such as `1h`, `30m` or `90s`.
pub open spec fn plain_span(s: Seq<char>) -> Option<nat> {
    if s.len() < 2 || !number::all_digits(s.drop_last()) {
        None
    } else {
        let n = number::digits_value(s.drop_last());
        if s.last() == 'h' {
            Some(3600 * n)
        } else if s.last() == 'm' {
            Some(60 * n)
        } else if s.last() == 's' {
            Some(n)
        } else {
            None
        }
    }
}

/// Calls `humantime::parse_duration`, which reads a list of spans such as `1h 30m`.
///
/// Claimed of it: whether it reads a text, and what it reads there, depends on the text alone; and
/// a single span of whole hours, minutes or seconds is read as that many seconds. A text
/// whose numbers or seconds do not fit in 64 bits is left out: the function refuses those, but
/// panics where the seconds come to one too many exactly.
#[verifier::external_body]
fn read_spans(s: &str) -> (r: Result<Duration, humantime::DurationError>)
    requires
        in_range(s@),
    ensures
        match r {
            Ok(d) => humantime_duration(s@) == Some((d.secs, d.nanos)),
            Err(_) => humantime_duration(s@) is None,
        },
        plain_span(s@) is Some ==> r is Ok && r->Ok_0.secs == plain_span(s@)->0 && r->Ok_0.nanos
            == 0,
{
    humantime::parse_duration(s).map(|d| Duration { secs: d.as_secs(), nanos: d.subsec_nanos() })
}

/// The nanoseconds of a unit of time.
fn unit_nanos_of(c: char) -> (r: u64)
    ensures
        r == unit_nanos(c),
        r <= 31_557_600_000_000_000,
{
    if c == 'n' {
        1
    } else if c == 'u' || c == '\u{b5}' {
        1_000
    } else if c == 'h' {
        3_600_000_000_000
    } else if c == 'd' {
        86_400_000_000_000
    } else if c == 'w' {
        604_800_000_000_000
    } else if c == 'M' {
        2_630_016_000_000_000
    } else if c == 'y' {
        31_557_600_000_000_000
    } else {
        1_000_000_000
    }
}

/// A reader of a list of spans.
struct Reader {
    total: u128,
    whole: u128,
    digits: u128,
    power: u128,
    place: Place,
}

impl View for Reader {
    type V = Tally;

    closed spec fn view(&self) -> Tally {
        Tally {
            total: self.total as nat,
            whole: self.whole as nat,
            digits: self.digits as nat,
            power: self.power as nat,
            fits: true,
            place: self.place,
        }
    }
}

impl Reader {
    /// All that was read fits.
    spec fn wf(self) -> bool {
        &&& self.total < TOO_LONG
        &&& self.whole < TOO_LARGE
        &&& self.digits < TOO_LARGE
        &&& 1 <= self.power < TOO_LARGE
    }

    /// Adds the span of the number that was read last. `false` where the spans come to too much.
    fn add_span(&mut self, unit: u64) -> (r: bool)
        requires
            old(self).wf(),
            unit <= 31_557_600_000_000_000,
        ensures
            r == (with_span(old(self)@, unit as nat).total < TOO_LONG),
            r ==> final(self).wf() && final(self)@ == with_span(old(self)@, unit as nat),
    {
        let u: u128 = unit as u128;
        proof {
            let (w, d) = (self.whole, self.digits);
            assert(w * u <= TOO_LARGE * 31_557_600_000_000_000) by (nonlinear_arith)
                requires
                    w < TOO_LARGE,
                    0 <= u <= 31_557_600_000_000_000,
            ;
            assert(d * u <= TOO_LARGE * 31_557_600_000_000_000) by (nonlinear_arith)
                requires
                    d < TOO_LARGE,
                    0 <= u <= 31_557_600_000_000_000,
            ;
            let (x, p) = (d * u, self.power);
            assert(0 <= x / (p as int) <= x) by (nonlinear_arith)
                requires
                    x >= 0,
                    p >= 1,
            ;
        }
        let total: u128 = self.total + self.whole * u + self.digits * u / self.power;
        if total < TOO_LONG {
            self.total = total;
            self.place = Place::Unit;
            true
        } else {
            false
        }
    }

    /// Adds the minutes of an `m` alone.
    fn settle(&mut self) -> (r: bool)
        requires
            old(self).wf(),
        ensures
            r == (settled(old(self)@).total < TOO_LONG),
            r ==> final(self).wf() && final(self)@ == settled(old(self)@),
    {
        if self.place == Place::LetterM {
            self.add_span(MINUTE)
        } else {
            true
        }
    }

    /// Reads one more digit.
    fn read_digit(&mut self, d: u128) -> (r: bool)
        requires
            old(self).wf(),
            d < 10,
        ensures
            ({
                let t = with_digit(old(self)@, d as nat);
                &&& r == (t.fits && t.total < TOO_LONG)
                &&& r ==> final(self).wf() && final(self)@ == t
            }),
    {
        match self.place {
            Place::Number => {
                self.whole = 10 * self.whole + d;
                self.whole < TOO_LARGE
            },
            Place::Fraction => {
                self.digits = 10 * self.digits + d;
                self.power = 10 * self.power;
                self.digits < TOO_LARGE && self.power < TOO_LARGE
            },
            _ => {
                if !self.settle() {
                    return false;
                }
                self.whole = d;
                self.digits = 0;
                self.power = 1;
                self.place = Place::Number;
                true
            },
        }
    }

    /// Reads one more character that is neither a digit nor white space.
    fn read_letter(&mut self, c: char) -> (r: bool)
        requires
            old(self).wf(),
        ensures
            ({
                let t = with_letter(old(self)@, c);
                &&& r == (t.total < TOO_LONG)
                &&& r ==> final(self).wf() && final(self)@ == t
            }),
    {
        match self.place {
            Place::Number => if c == '.' {
                self.place = Place::Fraction;
                true
            } else if c == 'm' {
                self.place = Place::LetterM;
                true
            } else {
                self.add_span(unit_nanos_of(c))
            },
            Place::Fraction => if c == 'm' {
                self.place = Place::LetterM;
                true
            } else {
                self.add_span(unit_nanos_of(c))
            },
            Place::LetterM => if c == 'i' {
                self.place = Place::LetterMi;
                true
            } else if c == 'o' {
                self.add_span(MONTH)
            } else if c == 's' {
                self.add_span(MILLISECOND)
            } else {
                self.settle()
            },
            Place::LetterMi => if c == 'l' {
                self.add_span(MILLISECOND)
            } else {
                self.add_span(MINUTE)
            },
            Place::Unit => true,
        }
    }

    /// Reads one more character. `false` where a number or the spans come to too much.
    fn read(&mut self, c: char) -> (r: bool)
        requires
            old(self).wf(),
        ensures
            ({
                let t = tally_next(old(self)@, c);
                &&& r == (t.fits && t.total < TOO_LONG)
                &&& r ==> final(self).wf() && final(self)@ == t
            }),
    {
        if '0' <= c && c <= '9' {
            self.read_digit(c as u128 - '0' as u128)
        } else if !text::white_space(c) {
            self.read_letter(c)
        } else if self.place == Place::Number || self.place == Place::Fraction {
            true
        } else {
            if !self.settle() {
                return false;
            }
            self.place = Place::Unit;
            true
        }
    }
}

/// What was read is not taken back.
proof fn lemma_prefix_tally(s: Seq<char>, i: int)
    requires
        0 <= i <= s.len(),
    ensures
        tally(s.take(i)).total <= settled(tally(s)).total,
        tally(s).fits ==> tally(s.take(i)).fits,
    decreases s.len() - i,
{
    if i == s.len() {
        assert(s.take(i) == s);
    } else {
        lemma_prefix_tally(s, i + 1);
        assert(s.take(i + 1).drop_last() == s.take(i));
        let t = tally(s.take(i));
        assert(t.total <= tally_next(t, s[i]).total);
    }
}

/// Whether the numbers in `s` and its seconds fit in 64 bits.
pub fn readable(s: &str) -> (r: bool)
    ensures
        r == in_range(s@),
{
    let v: Vec<char> = text::chars_of(s);
    let mut reader: Reader = Reader {
        total: 0,
        whole: 0,
        digits: 0,
        power: 1,
        place: Place::Number,
    };
    let mut i: usize = 0;
    assert(s@.take(0) == Seq::<char>::empty());
    while i < v.len()
        invariant
            i <= v.len(),
            v@ == s@,
            reader.wf(),
            reader@ == tally(s@.take(i as int)),
        decreases v.len() - i,
    {
        proof {
            assert(s@.take(i + 1).drop_last() == s@.take(i as int));
            lemma_prefix_tally(s@, i + 1);
        }
        if !reader.read(v[i]) {
            return false;
        }
        i = i + 1;
    }
    assert(s@.take(s@.len() as int) == s@);
    reader.settle()
}

/// What a duration label stands for: what `humantime` reads from it, where its range allows that.
pub open spec fn duration_of(s: Seq<char>) -> Option<Duration> {
    if in_range(s) {
        match humantime_duration(s) {
            Some((secs, nanos)) => Some(Duration { secs, nanos }),
            None => None,
        }
    } else {
        None
    }
}

/// Reads a duration such as `1h`, `30m` or `1h 30m`; `None` where the text is none.
pub fn read_duration(s: &str) -> (r: Option<Duration>)
    ensures
        r == duration_of(s@),
        in_range(s@) && plain_span(s@) is Some ==> r is Some && r->0.secs == plain_span(s@)->0
            && r->0.nanos == 0,
{
    if readable(s) {
        match read_spans(s) {
            Ok(d) => Some(d),
            Err(_) => None,
        }
    } else {
        None
    }
}

/// The duration of a label: what was read from it, or else the default.
pub fn duration_or(read: Option<Duration>, default: Duration) -> (r: Duration)
    ensures
        r == (match read {
            Some(d) => d,
            None => default,
        }),
{
    match read {
        Some(d) => d,
        None => default,
    }
}

/// One digit and `h`, `m` or `s` is a plain span of that many units, and is in range.
pub proof fn lemma_one_digit_span(s: Seq<char>, d: nat)
    requires
        s.len() == 2,
        d < 10,
        s[0] == number::digit_char(d),
        s[1] == 'h' || s[1] == 'm' || s[1] == 's',
    ensures
        in_range(s),
        plain_span(s) == Some(
            if s[1] == 'h' {
                3600 * d
            } else if s[1] == 'm' {
                60 * d
            } else {
                d
            },
        ),
{
    let head = s.drop_last();
    assert(head.drop_last() == Seq::<char>::empty());
    assert(number::digits_value(head) == d) by {
        assert(number::digits_value(Seq::<char>::empty()) == 0);
    }
    let start = tally(Seq::<char>::empty());
    let middle = tally(head);
    assert(middle == tally_next(start, s[0]));
    assert(middle.whole == d && middle.digits == 0);
    assert(tally(s) == tally_next(middle, s[1]));
    let unit: nat = if s[1] == 'm' {
        MINUTE as nat
    } else {
        unit_nanos(s[1])
    };
    assert(settled(tally(s)).total == span(middle, unit));
    assert(0 * unit == 0) by (nonlinear_arith);
    assert(span(middle, unit) == d * unit);
    assert(d * unit <= 10 * 3_600_000_000_000) by (nonlinear_arith)
        requires
            d < 10,
            unit <= 3_600_000_000_000,
    ;
}

/// The duration of an optional label text, or else that of the default text.
pub open spec fn duration_label(v: Option<Seq<char>>, default: Duration) -> Duration {
    match v {
        Some(s) => match duration_of(s) {
            Some(d) => d,
            None => default,
        },
        None => default,
    }
}

/// Where a label is a single span of whole hours, minutes or seconds, `d` is that many seconds.
pub open spec fn plain_label(v: Option<Seq<char>>, d: Duration) -> bool {
    v matches Some(s) ==> in_range(s) && plain_span(s) is Some ==> d.secs == plain_span(s)->0
        && d.nanos == 0
}

/// Reads a duration label such as `1h`, `30m` or `90s`; where it is absent or is none, reads the
/// default.
pub fn parse_duration(v: Option<&str>, default: &str) -> (r: Duration)
    requires
        (in_range(default@) && plain_span(default@) is Some) || duration_of(default@) is Some,
    ensures
        duration_of(default@) is Some,
        r == duration_label(v.deep_view(), duration_of(default@)->0),
        plain_label(v.deep_view(), r),
        in_range(default@) && plain_span(default@) is Some ==> duration_of(default@)->0.secs
            == plain_span(default@)->0 && duration_of(default@)->0.nanos == 0,
{
    let fallback: Option<Duration> = read_duration(default);
    let read: Option<Duration> = match v {
        Some(s) => read_duration(s),
        None => None,
    };
    match fallback {
        Some(d) => duration_or(read, d),
        None => Duration { secs: 0, nanos: 0 },
    }
}

} // verus!
