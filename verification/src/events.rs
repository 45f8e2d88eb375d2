use crate::ParseError;
use vstd::arithmetic::div_mod::lemma_fundamental_div_mod;
use vstd::prelude::*;

verus! {

/// The newline byte that separates lines of the analysis text.
pub const NEWLINE: u8 = 10;

/// The dot that separates a number's integer and fractional digits.
pub const DOT: u8 = 46;

/// The colon between the hour, minute and second fields of a duration.
pub const COLON: u8 = 58;

/// The byte is an ASCII decimal digit.
pub open spec fn is_digit(b: u8) -> bool {
    48 <= b <= 57
}

/// The numeric value of an ASCII decimal digit byte.
pub open spec fn digit_val(b: u8) -> int {
    b - 48
}

/// Whitespace that may separate a marker from its number within one line:
/// space, tab, carriage return, vertical tab, form feed.
pub open spec fn is_space(b: u8) -> bool {
    b == 32 || b == 9 || b == 13 || b == 11 || b == 12
}

/// The value of a run of decimal digit bytes, most significant first.
pub open spec fn dec_value(s: Seq<u8>) -> int
    recommends
        forall|i: int| 0 <= i < s.len() ==> is_digit(#[trigger] s[i]),
    decreases s.len(),
{
    if s.len() == 0 {
        0
    } else {
        dec_value(s.drop_last()) * 10 + digit_val(s.last())
    }
}

/// The first position at or after `i` that does not hold a decimal digit.
pub open spec fn digits_end(l: Seq<u8>, i: int) -> int
    decreases l.len() - i,
{
    if 0 <= i < l.len() && is_digit(l[i]) {
        digits_end(l, i + 1)
    } else {
        i
    }
}

/// The first position at or after `i` that does not hold in-line whitespace.
pub open spec fn spaces_end(l: Seq<u8>, i: int) -> int
    decreases l.len() - i,
{
    if 0 <= i < l.len() && is_space(l[i]) {
        spaces_end(l, i + 1)
    } else {
        i
    }
}

/// The first position at or after `i` that holds a newline, or the length
/// when none follows.
pub open spec fn line_end(t: Seq<u8>, i: int) -> int
    decreases t.len() - i,
{
    if 0 <= i < t.len() && t[i] != NEWLINE {
        line_end(t, i + 1)
    } else {
        i
    }
}

/// The pattern occurs in `l` starting at position `i`.
pub open spec fn matches_at(l: Seq<u8>, pat: Seq<u8>, i: int) -> bool {
    0 <= i && i + pat.len() <= l.len() && l.subrange(i, i + pat.len() as int) == pat
}

/// The first position at or after `i` where the pattern occurs.
pub open spec fn first_match_from(l: Seq<u8>, pat: Seq<u8>, i: int) -> Option<int>
    recommends
        0 <= i,
    decreases l.len() - i,
{
    if i < 0 || i + pat.len() > l.len() {
        None
    } else if matches_at(l, pat, i) {
        Some(i)
    } else if i < l.len() {
        first_match_from(l, pat, i + 1)
    } else {
        None
    }
}

/// The millisecond value contributed by a run of fractional digits: the
/// fraction is scaled by its own digit count, and digits beyond the third
/// (below millisecond precision) are dropped.
pub open spec fn frac_ms(fd: Seq<u8>) -> int
    recommends
        forall|i: int| 0 <= i < fd.len() ==> is_digit(#[trigger] fd[i]),
{
    if fd.len() == 0 {
        0
    } else if fd.len() == 1 {
        dec_value(fd) * 100
    } else if fd.len() == 2 {
        dec_value(fd) * 10
    } else {
        dec_value(fd.subrange(0, 3))
    }
}

/// The millisecond value of the seconds number starting at `j`: a run of
/// integer digits, optionally followed by a dot and fractional digits.
/// `None` when no digit stands at `j` or the value exceeds the u64 range.
pub open spec fn number_ms_at(l: Seq<u8>, j: int) -> Option<u64> {
    if !(0 <= j < l.len() && is_digit(l[j])) {
        None
    } else {
        let ie = digits_end(l, j);
        let whole = dec_value(l.subrange(j, ie));
        let f = if ie < l.len() && l[ie] == DOT {
            frac_ms(l.subrange(ie + 1, digits_end(l, ie + 1)))
        } else {
            0
        };
        let v = whole * 1000 + f;
        if v <= u64::MAX {
            Some(v as u64)
        } else {
            None
        }
    }
}

proof fn lemma_first_match_bounds(l: Seq<u8>, pat: Seq<u8>, i: int)
    ensures
        match first_match_from(l, pat, i) {
            Some(m) => i <= m && m + pat.len() <= l.len(),
            None => true,
        },
    decreases l.len() - i,
{
    if i < 0 || i + pat.len() > l.len() {
    } else if matches_at(l, pat, i) {
    } else if i < l.len() {
        lemma_first_match_bounds(l, pat, i + 1);
    }
}

/// The value the line holds for the marker, scanning from position `i`: at
/// the first marker occurrence that is followed (after in-line whitespace) by
/// a digit, the number standing there; occurrences followed by anything else
/// are passed over and the scan goes on.
pub open spec fn line_value_from(l: Seq<u8>, pat: Seq<u8>, i: int) -> Option<u64>
    recommends
        0 <= i,
    decreases l.len() - i,
    via line_value_from_decreases
{
    match first_match_from(l, pat, i) {
        None => None,
        Some(m) => {
            let j = spaces_end(l, m + pat.len());
            if j < l.len() && is_digit(l[j]) {
                number_ms_at(l, j)
            } else if m + 1 <= l.len() {
                line_value_from(l, pat, m + 1)
            } else {
                None
            }
        },
    }
}

#[via_fn]
proof fn line_value_from_decreases(l: Seq<u8>, pat: Seq<u8>, i: int) {
    lemma_first_match_bounds(l, pat, i);
}

/// The value a line contributes for the given marker: the number after the
/// first marker occurrence that a number follows. `None` when no such
/// occurrence exists, or the number exceeds the u64 millisecond range: such
/// a line is skipped, not fatal.
pub open spec fn line_value(l: Seq<u8>, pat: Seq<u8>) -> Option<u64> {
    line_value_from(l, pat, 0)
}

proof fn lemma_line_end_bounds(t: Seq<u8>, i: int)
    requires
        0 <= i <= t.len(),
    ensures
        i <= line_end(t, i) <= t.len(),
    decreases t.len() - i,
{
    if i < t.len() && t[i] != NEWLINE {
        lemma_line_end_bounds(t, i + 1);
    }
}

proof fn lemma_line_end_shift(t: Seq<u8>, p: int, i: int)
    requires
        0 <= p <= i <= t.len(),
    ensures
        line_end(t.subrange(p, t.len() as int), i - p) == line_end(t, i) - p,
    decreases t.len() - i,
{
    let sub = t.subrange(p, t.len() as int);
    if i < t.len() {
        assert(sub[i - p] == t[i]);
        if t[i] != NEWLINE {
            lemma_line_end_shift(t, p, i + 1);
        }
    }
}

/// Every value the text yields for the given marker, line by line, in order
/// of appearance.
pub open spec fn spec_extract(t: Seq<u8>, pat: Seq<u8>) -> Seq<u64>
    decreases t.len(),
    via spec_extract_decreases
{
    let e = line_end(t, 0);
    let head: Seq<u64> = match line_value(t.subrange(0, e), pat) {
        Some(v) => seq![v],
        None => Seq::empty(),
    };
    if e >= t.len() {
        head
    } else {
        head + spec_extract(t.subrange(e + 1, t.len() as int), pat)
    }
}

#[via_fn]
proof fn spec_extract_decreases(t: Seq<u8>, pat: Seq<u8>) {
    lemma_line_end_bounds(t, 0);
}

proof fn lemma_dec_value_nonneg(s: Seq<u8>)
    requires
        forall|i: int| 0 <= i < s.len() ==> is_digit(#[trigger] s[i]),
    ensures
        dec_value(s) >= 0,
    decreases s.len(),
{
    if s.len() > 0 {
        lemma_dec_value_nonneg(s.drop_last());
    }
}

fn byte_is_digit(b: u8) -> (r: bool)
    ensures
        r == is_digit(b),
{
    let lo: u8 = '0' as u8;
    let hi: u8 = '9' as u8;
    lo <= b && b <= hi
}

fn byte_is_space(b: u8) -> (r: bool)
    ensures
        r == is_space(b),
{
    b == ' ' as u8 || b == '\t' as u8 || b == '\r' as u8 || b == 11 || b == 12
}

fn find_line_end(text: &[u8], start: usize) -> (e: usize)
    requires
        start <= text@.len(),
    ensures
        e == line_end(text@, start as int),
        start <= e <= text@.len(),
{
    let n = text.len();
    let mut i = start;
    while i < n && text[i] != NEWLINE
        invariant
            start <= i <= n,
            n == text@.len(),
            line_end(text@, start as int) == line_end(text@, i as int),
        decreases n - i,
    {
        i += 1;
    }
    i
}

fn skip_spaces(l: &[u8], start: usize) -> (e: usize)
    requires
        start <= l@.len(),
    ensures
        e == spaces_end(l@, start as int),
        start <= e <= l@.len(),
{
    let n = l.len();
    let mut i = start;
    while i < n && byte_is_space(l[i])
        invariant
            start <= i <= n,
            n == l@.len(),
            spaces_end(l@, start as int) == spaces_end(l@, i as int),
        decreases n - i,
    {
        i += 1;
    }
    i
}

fn find_digits_end(l: &[u8], start: usize) -> (e: usize)
    requires
        start <= l@.len(),
    ensures
        e == digits_end(l@, start as int),
        start <= e <= l@.len(),
        forall|k: int| start <= k < e ==> is_digit(#[trigger] l@[k]),
{
    let n = l.len();
    let mut i = start;
    while i < n && byte_is_digit(l[i])
        invariant
            start <= i <= n,
            n == l@.len(),
            digits_end(l@, start as int) == digits_end(l@, i as int),
            forall|k: int| start <= k < i ==> is_digit(#[trigger] l@[k]),
        decreases n - i,
    {
        i += 1;
    }
    i
}

fn parse_digits(l: &[u8], start: usize) -> (r: (Option<u64>, usize))
    requires
        start <= l@.len(),
    ensures
        r.1 == digits_end(l@, start as int),
        start <= r.1 <= l@.len(),
        forall|k: int| start <= k < r.1 ==> is_digit(#[trigger] l@[k]),
        match r.0 {
            Some(v) => v as int == dec_value(l@.subrange(start as int, r.1 as int)),
            None => dec_value(l@.subrange(start as int, r.1 as int)) > u64::MAX,
        },
{
    let n = l.len();
    let mut i = start;
    let mut acc: u64 = 0;
    let mut ovf = false;
    proof {
        assert(l@.subrange(start as int, start as int).len() == 0);
    }
    while i < n && byte_is_digit(l[i])
        invariant
            start <= i <= n,
            n == l@.len(),
            digits_end(l@, start as int) == digits_end(l@, i as int),
            forall|k: int| start <= k < i ==> is_digit(#[trigger] l@[k]),
            !ovf ==> acc as int == dec_value(l@.subrange(start as int, i as int)),
            ovf ==> dec_value(l@.subrange(start as int, i as int)) > u64::MAX,
        decreases n - i,
    {
        let d: u64 = (l[i] - 48) as u64;
        let ghost pre = l@.subrange(start as int, i as int);
        let ghost cur = l@.subrange(start as int, i as int + 1);
        proof {
            assert(cur.drop_last() =~= pre);
            assert(cur.last() == l@[i as int]);
            assert(dec_value(cur) == dec_value(pre) * 10 + d);
        }
        if !ovf {
            let room = (u64::MAX - d) / 10;
            if acc <= room {
                proof {
                    let x = (u64::MAX - d) as int;
                    lemma_fundamental_div_mod(x, 10);
                    assert(10 * (acc as int) <= 10 * (x / 10));
                    assert(acc as int * 10 + d <= u64::MAX);
                }
                acc = acc * 10 + d;
            } else {
                proof {
                    let x = (u64::MAX - d) as int;
                    lemma_fundamental_div_mod(x, 10);
                    assert(acc as int >= x / 10 + 1);
                    assert(10 * (acc as int) >= 10 * (x / 10) + 10);
                    assert(dec_value(cur) > u64::MAX);
                }
                ovf = true;
            }
        } else {
            proof {
                lemma_dec_value_nonneg(pre);
                assert(dec_value(pre) * 10 >= dec_value(pre));
                assert(dec_value(cur) > u64::MAX);
            }
        }
        i += 1;
    }
    (if ovf { None } else { Some(acc) }, i)
}

fn is_match_at(l: &[u8], pat: &[u8], i: usize) -> (r: bool)
    requires
        i + pat@.len() <= l@.len(),
    ensures
        r == matches_at(l@, pat@, i as int),
{
    let n = l.len();
    let m = pat.len();
    let mut j: usize = 0;
    while j < m
        invariant
            j <= m,
            n == l@.len(),
            m == pat@.len(),
            i + m <= n,
            forall|k: int| 0 <= k < j ==> l@[i + k] == pat@[k],
        decreases m - j,
    {
        if l[i + j] != pat[j] {
            proof {
                assert(l@.subrange(i as int, i + m as int)[j as int] == l@[i + j]);
            }
            return false;
        }
        j += 1;
    }
    proof {
        assert(l@.subrange(i as int, i + m as int) =~= pat@);
    }
    true
}

fn find_marker_from(l: &[u8], pat: &[u8], from: usize) -> (r: Option<usize>)
    ensures
        l@.len() <= usize::MAX,
        match r {
            Some(i) => first_match_from(l@, pat@, from as int) == Some(i as int) && from <= i && i
                + pat@.len() <= l@.len(),
            None => first_match_from(l@, pat@, from as int) is None,
        },
{
    let n = l.len();
    let m = pat.len();
    if m > n || from > n - m {
        return None;
    }
    let bound = n - m;
    let mut i: usize = from;
    loop
        invariant
            from <= i <= bound,
            bound == n - m,
            m <= n,
            n == l@.len(),
            m == pat@.len(),
            first_match_from(l@, pat@, from as int) == first_match_from(l@, pat@, i as int),
        decreases bound - i,
    {
        if is_match_at(l, pat, i) {
            return Some(i);
        }
        if i == bound {
            proof {
                assert(first_match_from(l@, pat@, i as int) == first_match_from(
                    l@,
                    pat@,
                    i as int + 1,
                ));
            }
            return None;
        }
        i += 1;
    }
}

fn frac_value(l: &[u8], fs: usize) -> (f: u64)
    requires
        fs <= l@.len(),
    ensures
        f as int == frac_ms(l@.subrange(fs as int, digits_end(l@, fs as int))),
        f < 1000,
{
    let fe = find_digits_end(l, fs);
    let ghost fd = l@.subrange(fs as int, fe as int);
    if fe == fs {
        proof {
            assert(fd.len() == 0);
        }
        0
    } else if fe == fs + 1 {
        let d0 = (l[fs] - 48) as u64;
        proof {
            assert(fd.last() == l@[fs as int]);
            assert(fd.drop_last().len() == 0);
            assert(dec_value(fd.drop_last()) == 0);
            assert(dec_value(fd) == d0);
        }
        d0 * 100
    } else if fe == fs + 2 {
        let d0 = (l[fs] - 48) as u64;
        let d1 = (l[fs + 1] - 48) as u64;
        proof {
            let f1 = fd.drop_last();
            assert(f1 =~= l@.subrange(fs as int, fs as int + 1));
            assert(f1.drop_last().len() == 0);
            assert(dec_value(f1.drop_last()) == 0);
            assert(f1.last() == l@[fs as int]);
            assert(dec_value(f1) == d0);
            assert(fd.last() == l@[fs as int + 1]);
            assert(dec_value(fd) == d0 * 10 + d1);
        }
        (d0 * 10 + d1) * 10
    } else {
        let d0 = (l[fs] - 48) as u64;
        let d1 = (l[fs + 1] - 48) as u64;
        let d2 = (l[fs + 2] - 48) as u64;
        proof {
            let f3 = fd.subrange(0, 3);
            let f2 = f3.drop_last();
            let f1 = f2.drop_last();
            assert(f1.drop_last().len() == 0);
            assert(dec_value(f1.drop_last()) == 0);
            assert(f1.last() == l@[fs as int]);
            assert(f2.last() == l@[fs as int + 1]);
            assert(f3.last() == l@[fs as int + 2]);
            assert(dec_value(f1) == d0);
            assert(dec_value(f2) == d0 * 10 + d1);
            assert(dec_value(f3) == (d0 * 10 + d1) * 10 + d2);
        }
        (d0 * 100 + d1 * 10) + d2
    }
}

fn number_ms(l: &[u8], j: usize) -> (r: Option<u64>)
    requires
        j <= l@.len(),
    ensures
        r == number_ms_at(l@, j as int),
{
    let n = l.len();
    if j >= n || !byte_is_digit(l[j]) {
        return None;
    }
    let (w, ie) = parse_digits(l, j);
    let ghost whole = dec_value(l@.subrange(j as int, ie as int));
    let mut f: u64 = 0;
    if ie < n && l[ie] == DOT {
        f = frac_value(l, ie + 1);
    }
    proof {
        lemma_dec_value_nonneg(l@.subrange(j as int, ie as int));
    }
    match w {
        None => {
            proof {
                assert(whole * 1000 >= whole);
            }
            None
        },
        Some(wv) => {
            let v128: u128 = wv as u128 * 1000 + f as u128;
            if v128 <= u64::MAX as u128 {
                Some(v128 as u64)
            } else {
                None
            }
        },
    }
}

fn line_value_exec(l: &[u8], pat: &[u8]) -> (r: Option<u64>)
    requires
        pat@.len() >= 1,
    ensures
        r == line_value(l@, pat@),
{
    let mut start: usize = 0;
    loop
        invariant
            pat@.len() >= 1,
            start <= l@.len(),
            line_value(l@, pat@) == line_value_from(l@, pat@, start as int),
        decreases l@.len() - start,
    {
        match find_marker_from(l, pat, start) {
            None => return None,
            Some(i) => {
                let j = skip_spaces(l, i + pat.len());
                if j < l.len() && byte_is_digit(l[j]) {
                    return number_ms(l, j);
                }
                start = i + 1;
            },
        }
    }
}

fn parse_output(text: &[u8], marker: &[u8]) -> (r: Vec<u64>)
    requires
        marker@.len() >= 1,
    ensures
        r@ == spec_extract(text@, marker@),
{
    let mut r: Vec<u64> = Vec::new();
    let n = text.len();
    let mut p: usize = 0;
    proof {
        assert(text@.subrange(0, n as int) =~= text@);
        assert(r@ + spec_extract(text@, marker@) =~= spec_extract(text@, marker@));
    }
    loop
        invariant
            marker@.len() >= 1,
            p <= n,
            n == text@.len(),
            r@ + spec_extract(text@.subrange(p as int, n as int), marker@) == spec_extract(
                text@,
                marker@,
            ),
        decreases n - p,
    {
        let e = find_line_end(text, p);
        let line: &[u8] = &text[p..e];
        let ghost t_rest = text@.subrange(p as int, n as int);
        proof {
            lemma_line_end_shift(text@, p as int, p as int);
            assert(line_end(t_rest, 0) == e - p);
            assert(t_rest.subrange(0, e - p) =~= line@);
        }
        let ghost pre = r@;
        let v = line_value_exec(line, marker);
        let ghost head: Seq<u64> = match line_value(line@, marker@) {
            Some(x) => seq![x],
            None => Seq::<u64>::empty(),
        };
        match v {
            Some(x) => r.push(x),
            None => (),
        }
        proof {
            assert(r@ =~= pre + head);
        }
        if e == n {
            proof {
                assert(t_rest.subrange(0, e - p) =~= t_rest);
                assert(spec_extract(t_rest, marker@) == head);
            }
            return r;
        }
        proof {
            assert(t_rest.subrange(e - p + 1, t_rest.len() as int) =~= text@.subrange(
                e as int + 1,
                n as int,
            ));
            assert(spec_extract(t_rest, marker@) == head + spec_extract(
                text@.subrange(e as int + 1, n as int),
                marker@,
            ));
            assert(pre + (head + spec_extract(text@.subrange(e as int + 1, n as int), marker@))
                =~= (pre + head) + spec_extract(text@.subrange(e as int + 1, n as int), marker@));
        }
        p = e + 1;
    }
}

/// The ASCII bytes of the marker that opens a silence span: "silence_start:".
pub open spec fn silence_start_marker() -> Seq<u8> {
    seq![
        's' as u8,
        'i' as u8,
        'l' as u8,
        'e' as u8,
        'n' as u8,
        'c' as u8,
        'e' as u8,
        '_' as u8,
        's' as u8,
        't' as u8,
        'a' as u8,
        'r' as u8,
        't' as u8,
        ':' as u8,
    ]
}

/// The ASCII bytes of the marker that ends a silence span (loud material
/// resumes): "silence_end:".
pub open spec fn silence_end_marker() -> Seq<u8> {
    seq![
        's' as u8,
        'i' as u8,
        'l' as u8,
        'e' as u8,
        'n' as u8,
        'c' as u8,
        'e' as u8,
        '_' as u8,
        'e' as u8,
        'n' as u8,
        'd' as u8,
        ':' as u8,
    ]
}

/// The ASCII bytes of the marker that precedes the total duration:
/// "Duration: " (with its trailing space).
pub open spec fn duration_marker() -> Seq<u8> {
    seq![
        'D' as u8,
        'u' as u8,
        'r' as u8,
        'a' as u8,
        't' as u8,
        'i' as u8,
        'o' as u8,
        'n' as u8,
        ':' as u8,
        ' ' as u8,
    ]
}

fn silence_start_pattern() -> (v: Vec<u8>)
    ensures
        v@ == silence_start_marker(),
{
    let mut v: Vec<u8> = Vec::new();
    v.push('s' as u8);
    v.push('i' as u8);
    v.push('l' as u8);
    v.push('e' as u8);
    v.push('n' as u8);
    v.push('c' as u8);
    v.push('e' as u8);
    v.push('_' as u8);
    v.push('s' as u8);
    v.push('t' as u8);
    v.push('a' as u8);
    v.push('r' as u8);
    v.push('t' as u8);
    v.push(':' as u8);
    proof {
        assert(v@ =~= silence_start_marker());
    }
    v
}

fn silence_end_pattern() -> (v: Vec<u8>)
    ensures
        v@ == silence_end_marker(),
{
    let mut v: Vec<u8> = Vec::new();
    v.push('s' as u8);
    v.push('i' as u8);
    v.push('l' as u8);
    v.push('e' as u8);
    v.push('n' as u8);
    v.push('c' as u8);
    v.push('e' as u8);
    v.push('_' as u8);
    v.push('e' as u8);
    v.push('n' as u8);
    v.push('d' as u8);
    v.push(':' as u8);
    proof {
        assert(v@ =~= silence_end_marker());
    }
    v
}

fn duration_pattern() -> (v: Vec<u8>)
    ensures
        v@ == duration_marker(),
{
    let mut v: Vec<u8> = Vec::new();
    v.push('D' as u8);
    v.push('u' as u8);
    v.push('r' as u8);
    v.push('a' as u8);
    v.push('t' as u8);
    v.push('i' as u8);
    v.push('o' as u8);
    v.push('n' as u8);
    v.push(':' as u8);
    v.push(' ' as u8);
    proof {
        assert(v@ =~= duration_marker());
    }
    v
}

/// Collects the timestamp, in milliseconds, of every `silence_start:` line of
/// the analysis text, in order of appearance (lines whose number is malformed
/// are skipped).
pub fn extract_silence_starts(text: &[u8]) -> (r: Vec<u64>)
    ensures
        r@ == spec_extract(text@, silence_start_marker()),
{
    let pat = silence_start_pattern();
    parse_output(text, pat.as_slice())
}

/// Collects the timestamp, in milliseconds, of every `silence_end:` line of
/// the analysis text, in order of appearance: the points where loud material
/// resumes.
pub fn extract_loud_starts(text: &[u8]) -> (r: Vec<u64>)
    ensures
        r@ == spec_extract(text@, silence_end_marker()),
{
    let pat = silence_end_pattern();
    parse_output(text, pat.as_slice())
}

/// A well-formed duration field `H:M:S.frac` stands at `i`: hour, minute and
/// second digit runs joined by colons, then a dot and at least one fractional
/// digit.
pub open spec fn duration_shape_at(t: Seq<u8>, i: int) -> bool
    recommends
        0 <= i <= t.len(),
{
    let he = digits_end(t, i);
    let me = digits_end(t, he + 1);
    let se = digits_end(t, me + 1);
    &&& he > i && he < t.len() && t[he] == COLON
    &&& me > he + 1 && me < t.len() && t[me] == COLON
    &&& se > me + 1 && se < t.len() && t[se] == DOT
    &&& digits_end(t, se + 1) > se + 1
}

/// The millisecond value of the duration field standing at `i`, its fraction
/// scaled by its own digit count. `None` when no well-formed field stands
/// there or the value exceeds the u64 range.
pub open spec fn duration_ms_at(t: Seq<u8>, i: int) -> Option<u64>
    recommends
        0 <= i <= t.len(),
{
    if !duration_shape_at(t, i) {
        None
    } else {
        let he = digits_end(t, i);
        let me = digits_end(t, he + 1);
        let se = digits_end(t, me + 1);
        let fe = digits_end(t, se + 1);
        let v = (dec_value(t.subrange(i, he)) * 3600 + dec_value(t.subrange(he + 1, me)) * 60
            + dec_value(t.subrange(me + 1, se))) * 1000 + frac_ms(t.subrange(se + 1, fe));
        if v <= u64::MAX {
            Some(v as u64)
        } else {
            None
        }
    }
}

/// The duration read scanning from position `i`: at the first `Duration: `
/// marker occurrence that a well-formed `H:M:S.frac` field follows, the
/// field's value; marker occurrences followed by anything else are passed
/// over and the scan goes on.
pub open spec fn spec_duration_from(t: Seq<u8>, i: int) -> Option<u64>
    recommends
        0 <= i,
    decreases t.len() - i,
    via spec_duration_from_decreases
{
    match first_match_from(t, duration_marker(), i) {
        None => None,
        Some(m) => {
            if duration_shape_at(t, m + duration_marker().len()) {
                duration_ms_at(t, m + duration_marker().len())
            } else if m + 1 <= t.len() {
                spec_duration_from(t, m + 1)
            } else {
                None
            }
        },
    }
}

#[via_fn]
proof fn spec_duration_from_decreases(t: Seq<u8>, i: int) {
    lemma_first_match_bounds(t, duration_marker(), i);
}

/// The total duration, in milliseconds: the value of the first well-formed
/// `Duration: H:M:S.frac` field of the text. `None` when no such field
/// exists, or the first one exceeds the u64 millisecond range.
pub open spec fn spec_duration(t: Seq<u8>) -> Option<u64> {
    spec_duration_from(t, 0)
}

fn parse_duration_at(text: &[u8], i: usize) -> (r: (bool, Option<u64>))
    requires
        i <= text@.len(),
    ensures
        r.0 == duration_shape_at(text@, i as int),
        r.1 == duration_ms_at(text@, i as int),
{
    let n = text.len();
    let (hw, he) = parse_digits(text, i);
    if he == i || he >= n || text[he] != COLON {
        return (false, None);
    }
    let (mw, me) = parse_digits(text, he + 1);
    if me == he + 1 || me >= n || text[me] != COLON {
        return (false, None);
    }
    let (sw, se) = parse_digits(text, me + 1);
    if se == me + 1 || se >= n || text[se] != DOT {
        return (false, None);
    }
    let fe = find_digits_end(text, se + 1);
    if fe == se + 1 {
        return (false, None);
    }
    let f = frac_value(text, se + 1);
    let ghost hv = dec_value(text@.subrange(i as int, he as int));
    let ghost mv = dec_value(text@.subrange(he as int + 1, me as int));
    let ghost sv = dec_value(text@.subrange(me as int + 1, se as int));
    proof {
        lemma_dec_value_nonneg(text@.subrange(i as int, he as int));
        lemma_dec_value_nonneg(text@.subrange(he as int + 1, me as int));
        lemma_dec_value_nonneg(text@.subrange(me as int + 1, se as int));
    }
    match (hw, mw, sw) {
        (Some(h), Some(m), Some(s)) => {
            let v128: u128 = (h as u128 * 3600 + m as u128 * 60 + s as u128) * 1000 + f as u128;
            if v128 <= u64::MAX as u128 {
                (true, Some(v128 as u64))
            } else {
                (true, None)
            }
        },
        _ => {
            proof {
                let v = (hv * 3600 + mv * 60 + sv) * 1000 + f;
                if hv > u64::MAX {
                    assert(v > u64::MAX);
                } else if mv > u64::MAX {
                    assert(v > u64::MAX);
                } else {
                    assert(sv > u64::MAX);
                    assert(v > u64::MAX);
                }
            }
            (true, None)
        },
    }
}

fn parse_duration(text: &[u8]) -> (r: Option<u64>)
    ensures
        r == spec_duration(text@),
{
    let pat = duration_pattern();
    let mut start: usize = 0;
    loop
        invariant
            pat@ == duration_marker(),
            start <= text@.len(),
            spec_duration(text@) == spec_duration_from(text@, start as int),
        decreases text@.len() - start,
    {
        match find_marker_from(text, pat.as_slice(), start) {
            None => return None,
            Some(i) => {
                let (shape, value) = parse_duration_at(text, i + pat.len());
                if shape {
                    return value;
                }
                start = i + 1;
            },
        }
    }
}

/// Finds the first well-formed `Duration: HH:MM:SS.frac` field of the
/// analysis text (marker occurrences that no such field follows are passed
/// over) and returns the total duration in milliseconds, the fraction scaled
/// by its own digit count. Fails exactly when no well-formed duration field
/// exists, or the first one exceeds the u64 millisecond range; that failure
/// is fatal to the caller, not retried.
pub fn extract_duration(text: &[u8]) -> (r: Result<u64, ParseError>)
    ensures
        match r {
            Ok(v) => spec_duration(text@) == Some(v),
            Err(_) => spec_duration(text@) is None,
        },
{
    match parse_duration(text) {
        Some(v) => Ok(v),
        None => Err(ParseError),
    }
}

} // verus!
