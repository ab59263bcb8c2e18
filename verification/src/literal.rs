use vstd::prelude::*;

verus! {

/// An ASCII decimal digit.
pub open spec fn is_digit(c: char) -> bool {
    '0' <= c <= '9'
}

/// Every character is an ASCII decimal digit.
pub open spec fn all_digits(s: Seq<char>) -> bool {
    forall|i: int| 0 <= i < s.len() ==> is_digit(#[trigger] s[i])
}

/// The number that a run of decimal digits denotes.
pub open spec fn digits_value(s: Seq<char>) -> nat
    decreases s.len(),
{
    if s.len() == 0 {
        0
    } else {
        digits_value(s.drop_last()) * 10 + ((s.last() as int - '0' as int) as nat)
    }
}

/// The text without a leading `+` or `-`.
pub open spec fn strip_sign(s: Seq<char>) -> Seq<char> {
    if s.len() > 0 && (s[0] == '+' || s[0] == '-') {
        s.drop_first()
    } else {
        s
    }
}

/// The integer that `i64::from_str` reads from `s`: an optional sign, then
/// one or more decimal digits, within the range of `i64`.
pub open spec fn i64_literal(s: Seq<char>) -> Option<int> {
    let d = strip_sign(s);
    let neg = s.len() > 0 && s[0] == '-';
    if d.len() == 0 || !all_digits(d) {
        None
    } else if neg {
        if digits_value(d) <= 0x8000_0000_0000_0000 {
            Some(-(digits_value(d) as int))
        } else {
            None
        }
    } else if digits_value(d) <= 0x7fff_ffff_ffff_ffff {
        Some(digits_value(d) as int)
    } else {
        None
    }
}

/// The index of the first character of `s` that is `a` or `b`, or -1.
pub open spec fn first_index(s: Seq<char>, a: char, b: char) -> int
    decreases s.len(),
{
    if s.len() == 0 {
        -1
    } else if s[0] == a || s[0] == b {
        0
    } else {
        let r = first_index(s.drop_first(), a, b);
        if r < 0 {
            -1
        } else {
            r + 1
        }
    }
}

/// Digits with at most one `.` among them, and at least one digit.
pub open spec fn valid_mantissa(m: Seq<char>) -> bool {
    let d = first_index(m, '.', '.');
    if d < 0 {
        m.len() > 0 && all_digits(m)
    } else {
        m.len() >= 2 && all_digits(m.take(d)) && all_digits(m.skip(d + 1))
    }
}

/// An optional sign followed by one or more digits.
pub open spec fn valid_exponent(x: Seq<char>) -> bool {
    strip_sign(x).len() > 0 && all_digits(strip_sign(x))
}

/// A decimal number: a mantissa, then optionally `e` or `E` and an exponent.
pub open spec fn valid_decimal(s: Seq<char>) -> bool {
    let e = first_index(s, 'e', 'E');
    if e < 0 {
        valid_mantissa(s)
    } else {
        valid_mantissa(s.take(e)) && valid_exponent(s.skip(e + 1))
    }
}

/// An ASCII letter taken to lower case; other characters are unchanged.
pub open spec fn ascii_lower(c: char) -> char {
    if 'A' <= c <= 'Z' {
        ((c as u32) + 32) as char
    } else {
        c
    }
}

/// `s` equals the lower-case word `w` when ASCII letters are taken to lower case.
pub open spec fn matches_ignoring_case(s: Seq<char>, w: Seq<char>) -> bool {
    s.len() == w.len() && forall|i: int| 0 <= i < s.len() ==> ascii_lower(#[trigger] s[i]) == w[i]
}

/// Whether `f64::from_str` accepts `s`: an optional sign, then `inf`,
/// `infinity` or `nan` in any case, or a decimal number.
pub open spec fn is_float_literal(s: Seq<char>) -> bool {
    let b = strip_sign(s);
    matches_ignoring_case(b, seq!['i', 'n', 'f'])
        || matches_ignoring_case(b, seq!['i', 'n', 'f', 'i', 'n', 'i', 't', 'y'])
        || matches_ignoring_case(b, seq!['n', 'a', 'n'])
        || valid_decimal(b)
}


/// `first_index` is the first place where `a` or `b` stands, and -1 when neither does.
pub proof fn lemma_first_index(s: Seq<char>, a: char, b: char, i: int)
    requires
        0 <= i <= s.len(),
        forall|j: int| 0 <= j < i ==> s[j] != a && s[j] != b,
    ensures
        i < s.len() && (s[i] == a || s[i] == b) ==> first_index(s, a, b) == i,
        i == s.len() ==> first_index(s, a, b) == -1,
    decreases s.len(),
{
    if s.len() > 0 && i > 0 {
        let t = s.drop_first();
        assert forall|j: int| 0 <= j < i - 1 implies t[j] != a && t[j] != b by {
            assert(t[j] == s[j + 1]);
        }
        lemma_first_index(t, a, b, i - 1);
    }
}

/// The index of the first `a` or `b` in `s[lo..hi]`, counted from `lo`, or -1.
pub fn find_either(s: &Vec<char>, lo: usize, hi: usize, a: char, b: char) -> (r: Option<usize>)
    requires
        lo <= hi <= s.len(),
    ensures
        match r {
            Some(i) => i as int == first_index(s@.subrange(lo as int, hi as int), a, b),
            None => first_index(s@.subrange(lo as int, hi as int), a, b) == -1,
        },
        r matches Some(i) ==> lo + i < hi,
{
    let ghost t = s@.subrange(lo as int, hi as int);
    let mut i: usize = lo;
    while i < hi
        invariant
            lo <= i <= hi <= s.len(),
            t == s@.subrange(lo as int, hi as int),
            forall|j: int| 0 <= j < i - lo ==> t[j] != a && t[j] != b,
        decreases hi - i,
    {
        if s[i] == a || s[i] == b {
            proof {
                lemma_first_index(t, a, b, i - lo);
            }
            return Some(i - lo);
        }
        i = i + 1;
    }
    proof {
        lemma_first_index(t, a, b, i - lo);
    }
    None
}

/// Whether `s[lo..hi]` is made of digits only.
pub fn digits_only(s: &Vec<char>, lo: usize, hi: usize) -> (r: bool)
    requires
        lo <= hi <= s.len(),
    ensures
        r == all_digits(s@.subrange(lo as int, hi as int)),
{
    let mut i: usize = lo;
    while i < hi
        invariant
            lo <= i <= hi <= s.len(),
            all_digits(s@.subrange(lo as int, i as int)),
        decreases hi - i,
    {
        if !('0' <= s[i] && s[i] <= '9') {
            assert(s@.subrange(lo as int, hi as int)[i - lo] == s@[i as int]);
            return false;
        }
        assert forall|j: int| 0 <= j < i + 1 - lo implies is_digit(#[trigger] s@.subrange(lo as int, i + 1)[j]) by {
            if j < i - lo {
                assert(s@.subrange(lo as int, i + 1)[j] == s@.subrange(lo as int, i as int)[j]);
            }
        }
        i = i + 1;
    }
    true
}

/// Reads a run of digits `s[lo..hi]`; the value is capped at `cap`.
fn capped_digits_value(s: &Vec<char>, lo: usize, hi: usize, cap: u64) -> (r: u64)
    requires
        lo <= hi <= s.len(),
        all_digits(s@.subrange(lo as int, hi as int)),
        cap < 0x1000_0000_0000_0000_0,
    ensures
        r == if digits_value(s@.subrange(lo as int, hi as int)) < cap {
            digits_value(s@.subrange(lo as int, hi as int))
        } else {
            cap as nat
        },
{
    let mut v: u64 = 0;
    let mut i: usize = lo;
    assert(s@.subrange(lo as int, lo as int) =~= Seq::<char>::empty());
    while i < hi
        invariant
            lo <= i <= hi <= s.len(),
            all_digits(s@.subrange(lo as int, hi as int)),
            cap < 0x1000_0000_0000_0000_0,
            v == if digits_value(s@.subrange(lo as int, i as int)) < cap {
                digits_value(s@.subrange(lo as int, i as int))
            } else {
                cap as nat
            },
        decreases hi - i,
    {
        let ghost prev = s@.subrange(lo as int, i as int);
        let ghost next = s@.subrange(lo as int, i + 1);
        assert(next.drop_last() =~= prev);
        assert(next.last() == s@[i as int]);
        assert(s@.subrange(lo as int, hi as int)[i - lo] == s@[i as int]);
        let d: u64 = (s[i] as u32 - '0' as u32) as u64;
        if v < cap {
            let w: u128 = (v as u128) * 10 + (d as u128);
            if w < cap as u128 {
                v = w as u64;
            } else {
                v = cap;
            }
        }
        i = i + 1;
    }
    v
}

/// The integer `s` denotes, read as `i64::from_str` reads it.
pub fn parse_i64(s: &str) -> (r: Option<i64>)
    ensures
        match r {
            Some(v) => i64_literal(s@) == Some(v as int),
            None => i64_literal(s@) is None,
        },
{
    let cs = crate::text::chars_of(s);
    let mut start: usize = 0;
    let mut neg = false;
    if cs.len() > 0 && (cs[0] == '+' || cs[0] == '-') {
        start = 1;
        neg = cs[0] == '-';
    }
    proof {
        if start == 1 {
            assert(strip_sign(s@) =~= s@.subrange(1, s@.len() as int));
        } else {
            assert(strip_sign(s@) =~= s@.subrange(0, s@.len() as int));
        }
    }
    if start == cs.len() {
        return None;
    }
    if !digits_only(&cs, start, cs.len()) {
        return None;
    }
    let v = capped_digits_value(&cs, start, cs.len(), 0x8000_0000_0000_0001);
    if neg {
        if v <= 0x8000_0000_0000_0000 {
            if v == 0x8000_0000_0000_0000 {
                Some(i64::MIN)
            } else {
                Some(-(v as i64))
            }
        } else {
            None
        }
    } else if v <= 0x7fff_ffff_ffff_ffff {
        Some(v as i64)
    } else {
        None
    }
}


/// An ASCII letter taken to lower case.
pub fn to_ascii_lower(c: char) -> (r: char)
    ensures
        r == ascii_lower(c),
{
    if 'A' <= c && c <= 'Z' {
        ((c as u8) + 32) as char
    } else {
        c
    }
}

/// Whether `s[lo..]` is the lower-case word `w` when letters are taken to lower case.
fn matches_word(s: &Vec<char>, lo: usize, w: &Vec<char>) -> (r: bool)
    requires
        lo <= s.len(),
    ensures
        r == matches_ignoring_case(s@.skip(lo as int), w@),
{
    if s.len() - lo != w.len() {
        return false;
    }
    let mut i: usize = 0;
    while i < w.len()
        invariant
            lo <= s.len(),
            s.len() - lo == w.len(),
            i <= w.len(),
            forall|j: int| 0 <= j < i ==> ascii_lower(#[trigger] s@.skip(lo as int)[j]) == w@[j],
        decreases w.len() - i,
    {
        assert(s@.skip(lo as int)[i as int] == s@[lo + i]);
        if to_ascii_lower(s[lo + i]) != w[i] {
            return false;
        }
        i = i + 1;
    }
    true
}

/// Whether `s[lo..hi]` is a valid mantissa.
fn mantissa_ok(s: &Vec<char>, lo: usize, hi: usize) -> (r: bool)
    requires
        lo <= hi <= s.len(),
    ensures
        r == valid_mantissa(s@.subrange(lo as int, hi as int)),
{
    let ghost m = s@.subrange(lo as int, hi as int);
    match find_either(s, lo, hi, '.', '.') {
        None => hi > lo && digits_only(s, lo, hi),
        Some(d) => {
        let p = lo + d;
        assert(m.take(d as int) =~= s@.subrange(lo as int, p as int));
        assert(m.skip(d + 1) =~= s@.subrange(p + 1, hi as int));
        hi - lo >= 2 && digits_only(s, lo, p) && digits_only(s, p + 1, hi)
        },
    }
}

/// Whether `s[lo..hi]` is a valid exponent.
fn exponent_ok(s: &Vec<char>, lo: usize, hi: usize) -> (r: bool)
    requires
        lo <= hi <= s.len(),
    ensures
        r == valid_exponent(s@.subrange(lo as int, hi as int)),
{
    let ghost x = s@.subrange(lo as int, hi as int);
    let mut start = lo;
    if hi > lo && (s[lo] == '+' || s[lo] == '-') {
        start = lo + 1;
        assert(strip_sign(x) =~= s@.subrange(start as int, hi as int));
    } else {
        assert(strip_sign(x) =~= s@.subrange(start as int, hi as int));
    }
    hi > start && digits_only(s, start, hi)
}

/// Whether `f64::from_str` accepts `s`.
pub fn parses_as_float(s: &str) -> (r: bool)
    ensures
        r == is_float_literal(s@),
{
    let cs = crate::text::chars_of(s);
    let mut start: usize = 0;
    if cs.len() > 0 && (cs[0] == '+' || cs[0] == '-') {
        start = 1;
    }
    let ghost b = strip_sign(s@);
    assert(b =~= cs@.skip(start as int));
    assert(b =~= cs@.subrange(start as int, cs.len() as int));
    if matches_word(&cs, start, &vec!['i', 'n', 'f']) {
        return true;
    }
    if matches_word(&cs, start, &vec!['i', 'n', 'f', 'i', 'n', 'i', 't', 'y']) {
        return true;
    }
    if matches_word(&cs, start, &vec!['n', 'a', 'n']) {
        return true;
    }
    match find_either(&cs, start, cs.len(), 'e', 'E') {
        None => mantissa_ok(&cs, start, cs.len()),
        Some(e) => {
            let p = start + e;
            assert(b.take(e as int) =~= cs@.subrange(start as int, p as int));
            assert(b.skip(e + 1) =~= cs@.subrange(p + 1, cs.len() as int));
            mantissa_ok(&cs, start, p) && exponent_ok(&cs, p + 1, cs.len())
        },
    }
}

} // verus!
