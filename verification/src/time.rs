use vstd::arithmetic::div_mod::{lemma_div_denominator, lemma_fundamental_div_mod};
use vstd::prelude::*;
use vstd::string::StringExecFns;

verus! {

/// Milliseconds per hour, minute and second: the units of every timestamp
/// this library works with.
pub const MS_PER_HOUR: u64 = 3_600_000;

pub const MS_PER_MINUTE: u64 = 60_000;

pub const MS_PER_SECOND: u64 = 1_000;

/// The largest millisecond count whose hour part still fits in two digits
/// (99:59:59.999).
pub const MAX_TWO_DIGIT_HOURS_MS: u64 = 359_999_999;

/// The decimal digit character for a value below ten.
pub open spec fn spec_digit(d: int) -> char
    recommends
        0 <= d < 10,
{
    if d == 0 {
        '0'
    } else if d == 1 {
        '1'
    } else if d == 2 {
        '2'
    } else if d == 3 {
        '3'
    } else if d == 4 {
        '4'
    } else if d == 5 {
        '5'
    } else if d == 6 {
        '6'
    } else if d == 7 {
        '7'
    } else if d == 8 {
        '8'
    } else {
        '9'
    }
}

/// The numeric value of a decimal digit character.
pub open spec fn char_digit(c: char) -> int {
    c as u32 - 48
}

/// The character is one of '0' through '9'.
pub open spec fn is_digit_char(c: char) -> bool {
    48 <= c as u32 <= 57
}

/// A value below one hundred, zero-padded to exactly two digits.
pub open spec fn spec_pad2(n: int) -> Seq<char>
    recommends
        0 <= n < 100,
{
    seq![spec_digit(n / 10), spec_digit(n % 10)]
}

/// A value below one thousand, zero-padded to exactly three digits.
pub open spec fn spec_pad3(n: int) -> Seq<char>
    recommends
        0 <= n < 1000,
{
    seq![spec_digit(n / 100), spec_digit((n / 10) % 10), spec_digit(n % 10)]
}

/// The decimal digits of a number, most significant first, no padding.
pub open spec fn spec_dec(n: nat) -> Seq<char>
    decreases n,
{
    if n < 10 {
        seq![spec_digit(n as int)]
    } else {
        spec_dec(n / 10) + seq![spec_digit((n % 10) as int)]
    }
}

/// The hour field: zero-padded to two digits, keeping every digit when the
/// value needs more than two.
pub open spec fn spec_hours(h: int) -> Seq<char>
    recommends
        0 <= h,
{
    if h < 100 {
        spec_pad2(h)
    } else {
        spec_dec(h as nat)
    }
}

/// The rendering of a millisecond count as `HH:MM:SS.mmm` (two-digit
/// zero-padded hours, minutes and seconds, three fractional digits).
pub open spec fn spec_format_time(ms: int) -> Seq<char>
    recommends
        0 <= ms,
{
    spec_hours(ms / (MS_PER_HOUR as int)) + seq![':'] + spec_pad2(
        (ms / (MS_PER_MINUTE as int)) % 60,
    ) + seq![':'] + spec_pad2((ms / (MS_PER_SECOND as int)) % 60) + seq!['.'] + spec_pad3(ms % 1000)
}

fn digit_str(d: u64) -> (r: &'static str)
    requires
        d < 10,
    ensures
        r@ =~= seq![spec_digit(d as int)],
{
    proof {
        reveal_strlit("0");
        reveal_strlit("1");
        reveal_strlit("2");
        reveal_strlit("3");
        reveal_strlit("4");
        reveal_strlit("5");
        reveal_strlit("6");
        reveal_strlit("7");
        reveal_strlit("8");
        reveal_strlit("9");
    }
    if d == 0 {
        "0"
    } else if d == 1 {
        "1"
    } else if d == 2 {
        "2"
    } else if d == 3 {
        "3"
    } else if d == 4 {
        "4"
    } else if d == 5 {
        "5"
    } else if d == 6 {
        "6"
    } else if d == 7 {
        "7"
    } else if d == 8 {
        "8"
    } else {
        "9"
    }
}

fn push_digit(s: &mut String, d: u64)
    requires
        d < 10,
    ensures
        final(s)@ == old(s)@ + seq![spec_digit(d as int)],
{
    s.append(digit_str(d));
}

fn push_pad2(s: &mut String, n: u64)
    requires
        n < 100,
    ensures
        final(s)@ == old(s)@ + spec_pad2(n as int),
{
    let ghost pre = s@;
    push_digit(s, n / 10);
    push_digit(s, n % 10);
    proof {
        assert(s@ =~= pre + spec_pad2(n as int));
    }
}

fn push_pad3(s: &mut String, n: u64)
    requires
        n < 1000,
    ensures
        final(s)@ == old(s)@ + spec_pad3(n as int),
{
    let ghost pre = s@;
    push_digit(s, n / 100);
    push_digit(s, (n / 10) % 10);
    push_digit(s, n % 10);
    proof {
        assert(s@ =~= pre + spec_pad3(n as int));
    }
}

pub(crate) fn push_dec(s: &mut String, n: u64)
    ensures
        final(s)@ == old(s)@ + spec_dec(n as nat),
    decreases n,
{
    let ghost pre = s@;
    if n < 10 {
        push_digit(s, n);
    } else {
        push_dec(s, n / 10);
        push_digit(s, n % 10);
        proof {
            assert(s@ =~= pre + spec_dec(n as nat));
        }
    }
}

fn push_hours(s: &mut String, h: u64)
    ensures
        final(s)@ == old(s)@ + spec_hours(h as int),
{
    if h < 100 {
        push_pad2(s, h);
    } else {
        push_dec(s, h);
    }
}

/// Renders a millisecond count as `HH:MM:SS.mmm`: hours, minutes and seconds
/// zero-padded to two digits, followed by exactly three fractional digits.
pub fn format_time(ms: u64) -> (r: String)
    ensures
        r@ == spec_format_time(ms as int),
{
    proof {
        reveal_strlit(":");
        reveal_strlit(".");
    }
    let mut s = String::new();
    push_hours(&mut s, ms / MS_PER_HOUR);
    s.append(":");
    push_pad2(&mut s, (ms / MS_PER_MINUTE) % 60);
    s.append(":");
    push_pad2(&mut s, (ms / MS_PER_SECOND) % 60);
    s.append(".");
    push_pad3(&mut s, ms % 1000);
    proof {
        assert(":"@ =~= seq![':']);
        assert("."@ =~= seq!['.']);
        assert(s@ =~= spec_format_time(ms as int));
    }
    s
}

/// The seconds-and-milliseconds value read back from a twelve-character
/// `HH:MM:SS.mmm` rendering, as a millisecond count.
pub open spec fn spec_parse_hhmmss(s: Seq<char>) -> int
    recommends
        s.len() == 12,
{
    ((char_digit(s[0]) * 10 + char_digit(s[1])) * 3600 + (char_digit(s[3]) * 10 + char_digit(s[4]))
        * 60 + (char_digit(s[6]) * 10 + char_digit(s[7]))) * 1000 + char_digit(s[9]) * 100
        + char_digit(s[10]) * 10 + char_digit(s[11])
}

proof fn lemma_digit_value(d: int)
    requires
        0 <= d < 10,
    ensures
        char_digit(spec_digit(d)) == d,
        is_digit_char(spec_digit(d)),
{
}

/// For any millisecond count whose hours fit in two digits, the rendered time
/// has exactly the `HH:MM:SS.mmm` shape, and reading the digits back as
/// hours * 3600 + minutes * 60 + seconds plus the fractional part recovers the
/// input exactly.
pub proof fn lemma_format_time_round_trip(ms: u64)
    requires
        ms <= MAX_TWO_DIGIT_HOURS_MS,
    ensures
        spec_format_time(ms as int).len() == 12,
        spec_format_time(ms as int)[2] == ':',
        spec_format_time(ms as int)[5] == ':',
        spec_format_time(ms as int)[8] == '.',
        forall|i: int|
            0 <= i < 12 && i != 2 && i != 5 && i != 8 ==> is_digit_char(
                #[trigger] spec_format_time(ms as int)[i],
            ),
        spec_parse_hhmmss(spec_format_time(ms as int)) == ms,
{
    let t = ms as int;
    let h = t / 3600000;
    let m = (t / 60000) % 60;
    let sec = (t / 1000) % 60;
    let f = t % 1000;
    assert(h <= 99) by {
        assert(t / 3600000 <= 359_999_999int / 3600000) by {
            vstd::arithmetic::div_mod::lemma_div_is_ordered(t, 359_999_999int, 3600000);
        }
    }
    lemma_fundamental_div_mod(t, 1000);
    lemma_div_denominator(t, 1000, 60);
    lemma_fundamental_div_mod(t / 1000, 60);
    lemma_div_denominator(t, 60000, 60);
    lemma_fundamental_div_mod(t / 60000, 60);
    assert(t == 3600000 * h + 60000 * m + 1000 * sec + f);
    let s = spec_format_time(t);
    assert(s =~= seq![
        spec_digit(h / 10),
        spec_digit(h % 10),
        ':',
        spec_digit(m / 10),
        spec_digit(m % 10),
        ':',
        spec_digit(sec / 10),
        spec_digit(sec % 10),
        '.',
        spec_digit(f / 100),
        spec_digit((f / 10) % 10),
        spec_digit(f % 10),
    ]);
    lemma_digit_value(h / 10);
    lemma_digit_value(h % 10);
    lemma_digit_value(m / 10);
    lemma_digit_value(m % 10);
    lemma_digit_value(sec / 10);
    lemma_digit_value(sec % 10);
    lemma_digit_value(f / 100);
    lemma_digit_value((f / 10) % 10);
    lemma_digit_value(f % 10);
    lemma_fundamental_div_mod(h, 10);
    lemma_fundamental_div_mod(m, 10);
    lemma_fundamental_div_mod(sec, 10);
    lemma_fundamental_div_mod(f, 100);
    lemma_div_denominator(f, 10, 10);
    lemma_fundamental_div_mod(f / 10, 10);
    lemma_fundamental_div_mod(f, 10);
    assert(char_digit(s[9]) * 100 + char_digit(s[10]) * 10 + char_digit(s[11]) == f);
    assert(spec_parse_hhmmss(s) == ms);
}

} // verus!
