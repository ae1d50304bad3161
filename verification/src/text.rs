//! Character-level helpers shared by the formatting and parsing code:
//! decimal digits, Unicode white space, trimming and integer parsing.

use vstd::prelude::*;
use vstd::string::*;

verus! {

/// Appends one character to a string (`String::push`).
#[verifier::external_body]
pub(crate) fn push_char(s: &mut String, c: char)
    ensures
        final(s)@ == old(s)@.push(c),
{
    s.push(c);
}

/// The ten decimal digit characters.
pub open spec fn digit_char(d: int) -> char {
    if d == 0 { '0' }
    else if d == 1 { '1' }
    else if d == 2 { '2' }
    else if d == 3 { '3' }
    else if d == 4 { '4' }
    else if d == 5 { '5' }
    else if d == 6 { '6' }
    else if d == 7 { '7' }
    else if d == 8 { '8' }
    else { '9' }
}

/// Decimal notation of a natural number, most significant digit first.
pub open spec fn decimal(n: nat) -> Seq<char>
    decreases n,
{
    if n < 10 {
        seq![digit_char(n as int)]
    } else {
        decimal(n / 10).push(digit_char((n % 10) as int))
    }
}

/// `n` in decimal, left-padded with `'0'` to at least `width` characters.
pub open spec fn padded_decimal(n: nat, width: nat) -> Seq<char> {
    let d = decimal(n);
    if d.len() < width {
        Seq::new((width - d.len()) as nat, |i: int| '0') + d
    } else {
        d
    }
}

pub fn digit_to_char(d: u8) -> (c: char)
    requires
        d < 10,
    ensures
        c == digit_char(d as int),
{
    match d {
        0 => '0',
        1 => '1',
        2 => '2',
        3 => '3',
        4 => '4',
        5 => '5',
        6 => '6',
        7 => '7',
        8 => '8',
        _ => '9',
    }
}

/// Appends the decimal notation of `n`.
pub fn push_decimal(s: &mut String, n: u128)
    ensures
        final(s)@ == old(s)@ + decimal(n as nat),
    decreases n,
{
    if n >= 10 {
        push_decimal(s, n / 10);
    }
    let c = digit_to_char((n % 10) as u8);
    push_char(s, c);
    assert(decimal(n as nat) == if n < 10 {
        seq![digit_char(n as int)]
    } else {
        decimal((n / 10) as nat).push(digit_char((n % 10) as int))
    });
}

/// Decimal notation of an integer, with a leading `-` when negative.
pub open spec fn signed_decimal(n: int) -> Seq<char> {
    if n < 0 {
        seq!['-'] + decimal((-n) as nat)
    } else {
        decimal(n as nat)
    }
}

/// Appends the decimal notation of `n` (with `-` when negative).
pub fn push_signed_decimal(s: &mut String, n: i64)
    ensures
        final(s)@ == old(s)@ + signed_decimal(n as int),
{
    if n < 0 {
        push_char(s, '-');
        let m: u128 = if n == i64::MIN { 0x8000_0000_0000_0000 } else { (-n) as u128 };
        push_decimal(s, m);
        assert(s@ =~= old(s)@ + signed_decimal(n as int));
    } else {
        push_decimal(s, n as u128);
    }
}

/// The number of decimal digits of `n`.
pub fn decimal_len(n: u128) -> (k: usize)
    ensures
        k == decimal(n as nat).len(),
        1 <= k <= 39,
    decreases n,
{
    if n < 10 {
        1
    } else {
        assert(n / 10 < n);
        let k = decimal_len(n / 10);
        proof {
            assert(decimal(n as nat) == decimal((n / 10) as nat).push(digit_char((n % 10) as int)));
            if k == 39 {
                lemma_decimal_len_bound(n as nat);
            }
        }
        k + 1
    }
}

proof fn lemma_decimal_len_bound(n: nat)
    requires
        n < 0x1_0000_0000_0000_0000_0000_0000_0000_0000,
    ensures
        decimal(n).len() <= 39,
{
    assert(vstd::arithmetic::power::pow(10, 39) == 1000000000000000000000000000000000000000int) by {
        reveal_with_fuel(vstd::arithmetic::power::pow, 40);
    }
    lemma_decimal_len_below(n, 39);
}

proof fn lemma_decimal_len_below(n: nat, k: nat)
    requires
        k >= 1,
        n < vstd::arithmetic::power::pow(10, k),
    ensures
        decimal(n).len() <= k,
    decreases k,
{
    vstd::arithmetic::power::lemma_pow_positive(10, k);
    if n >= 10 {
        assert(k >= 2) by {
            if k == 1 {
                vstd::arithmetic::power::lemma_pow1(10);
            }
        }
        vstd::arithmetic::power::lemma_pow_adds(10, 1, (k - 1) as nat);
        vstd::arithmetic::power::lemma_pow1(10);
        let p = vstd::arithmetic::power::pow(10, (k - 1) as nat);
        assert(n / 10 < p) by (nonlinear_arith)
            requires
                n < 10 * p,
        ;
        lemma_decimal_len_below(n / 10, (k - 1) as nat);
    }
}

/// Appends `n` in decimal, left-padded with `'0'` to at least `width` characters.
pub fn push_padded_decimal(s: &mut String, n: u128, width: usize)
    ensures
        final(s)@ == old(s)@ + padded_decimal(n as nat, width as nat),
{
    let k = decimal_len(n);
    let mut i: usize = k;
    while i < width
        invariant
            k <= i,
            i <= width || i == k,
            k == decimal(n as nat).len(),
            s@ == old(s)@ + Seq::new((i - k) as nat, |j: int| '0'),
        decreases width - i,
    {
        push_char(s, '0');
        i += 1;
        assert(s@ =~= old(s)@ + Seq::new((i - k) as nat, |j: int| '0'));
    }
    push_decimal(s, n);
    proof {
        if k < width {
            assert(i == width);
            assert(s@ =~= old(s)@ + padded_decimal(n as nat, width as nat));
        } else {
            assert(i == k);
            assert(s@ =~= old(s)@ + padded_decimal(n as nat, width as nat));
        }
    }
}

}

verus! {

/// The characters of a string slice, in order.
pub fn str_to_chars(s: &str) -> (v: Vec<char>)
    ensures
        v@ == s@,
{
    let n = s.unicode_len();
    let mut v: Vec<char> = Vec::new();
    let mut i: usize = 0;
    while i < n
        invariant
            n == s@.len(),
            i <= n,
            v@ == s@.take(i as int),
        decreases n - i,
    {
        let c = s.get_char(i);
        v.push(c);
        i += 1;
        assert(v@ =~= s@.take(i as int));
    }
    assert(v@ =~= s@);
    v
}

/// Appends every character of `v`.
pub fn push_chars(s: &mut String, v: &[char])
    ensures
        final(s)@ == old(s)@ + v@,
{
    let mut i: usize = 0;
    while i < v.len()
        invariant
            i <= v@.len(),
            s@ == old(s)@ + v@.take(i as int),
        decreases v.len() - i,
    {
        push_char(s, v[i]);
        i += 1;
        assert(s@ =~= old(s)@ + v@.take(i as int));
    }
    assert(v@.take(v@.len() as int) =~= v@);
}

/// A new string holding exactly the characters of `v`.
pub fn string_from_chars(v: &[char]) -> (s: String)
    ensures
        s@ == v@,
{
    let mut s = String::new();
    push_chars(&mut s, v);
    assert(s@ =~= v@);
    s
}

}

verus! {

/// A new string holding `v[lo..hi]`.
pub fn string_from_range(v: &Vec<char>, lo: usize, hi: usize) -> (s: String)
    requires
        lo <= hi <= v@.len(),
    ensures
        s@ == v@.subrange(lo as int, hi as int),
{
    let mut s = String::new();
    let mut i: usize = lo;
    while i < hi
        invariant
            lo <= i <= hi,
            hi <= v@.len(),
            s@ == v@.subrange(lo as int, i as int),
        decreases hi - i,
    {
        push_char(&mut s, v[i]);
        i += 1;
        assert(s@ =~= v@.subrange(lo as int, i as int));
    }
    s
}

}

verus! {

/// A copy of `v[lo..hi]`.
pub fn take_range(v: &Vec<char>, lo: usize, hi: usize) -> (r: Vec<char>)
    requires
        lo <= hi <= v@.len(),
    ensures
        r@ == v@.subrange(lo as int, hi as int),
{
    let mut r: Vec<char> = Vec::new();
    let mut i: usize = lo;
    while i < hi
        invariant
            lo <= i <= hi,
            hi <= v@.len(),
            r@ == v@.subrange(lo as int, i as int),
        decreases hi - i,
    {
        r.push(v[i]);
        i += 1;
        assert(r@ =~= v@.subrange(lo as int, i as int));
    }
    r
}

}

verus! {

/// Unicode `White_Space` (what `char::is_whitespace` and `str::trim` test).
pub open spec fn is_white_space(c: char) -> bool {
    let u = c as u32;
    (0x9 <= u && u <= 0xD) || u == 0x20 || u == 0x85 || u == 0xA0 || u == 0x1680 || (0x2000 <= u
        && u <= 0x200A) || u == 0x2028 || u == 0x2029 || u == 0x202F || u == 0x205F || u == 0x3000
}

pub fn char_is_white_space(c: char) -> (b: bool)
    ensures
        b == is_white_space(c),
{
    let u = c as u32;
    (0x9 <= u && u <= 0xD) || u == 0x20 || u == 0x85 || u == 0xA0 || u == 0x1680 || (0x2000 <= u
        && u <= 0x200A) || u == 0x2028 || u == 0x2029 || u == 0x202F || u == 0x205F || u == 0x3000
}

pub open spec fn trim_start(s: Seq<char>) -> Seq<char>
    decreases s.len(),
{
    if s.len() > 0 && is_white_space(s[0]) {
        trim_start(s.drop_first())
    } else {
        s
    }
}

pub open spec fn trim_end(s: Seq<char>) -> Seq<char>
    decreases s.len(),
{
    if s.len() > 0 && is_white_space(s.last()) {
        trim_end(s.drop_last())
    } else {
        s
    }
}

/// `s` without leading and trailing white space (`str::trim`).
pub open spec fn trimmed(s: Seq<char>) -> Seq<char> {
    trim_end(trim_start(s))
}

/// The bounds of the trimmed part of `v`.
pub fn trim_bounds(v: &Vec<char>) -> (r: (usize, usize))
    ensures
        r.0 <= r.1 <= v@.len(),
        v@.subrange(r.0 as int, r.1 as int) == trimmed(v@),
{
    let n = v.len();
    let mut lo: usize = 0;
    assert(v@.skip(0) =~= v@);
    while lo < n && char_is_white_space(v[lo])
        invariant
            lo <= n == v@.len(),
            trim_start(v@) == trim_start(v@.skip(lo as int)),
        decreases n - lo,
    {
        assert(v@.skip(lo as int).drop_first() =~= v@.skip(lo + 1));
        lo += 1;
    }
    assert(trim_start(v@.skip(lo as int)) == v@.skip(lo as int));
    let mut hi: usize = n;
    assert(v@.subrange(lo as int, n as int) =~= v@.skip(lo as int));
    while hi > lo && char_is_white_space(v[hi - 1])
        invariant
            lo <= hi <= n == v@.len(),
            trim_end(v@.skip(lo as int)) == trim_end(v@.subrange(lo as int, hi as int)),
        decreases hi,
    {
        assert(v@.subrange(lo as int, hi as int).drop_last() =~= v@.subrange(lo as int, hi - 1));
        hi -= 1;
    }
    (lo, hi)
}

pub open spec fn is_dec_digit(c: char) -> bool {
    '0' <= c && c <= '9'
}

pub open spec fn all_dec_digits(s: Seq<char>) -> bool {
    forall|i: int| 0 <= i < s.len() ==> is_dec_digit(#[trigger] s[i])
}

/// The value of a string of decimal digits.
pub open spec fn digits_value(s: Seq<char>) -> int
    decreases s.len(),
{
    if s.len() == 0 {
        0
    } else {
        digits_value(s.drop_last()) * 10 + (s.last() as int - '0' as int)
    }
}

/// What `str::parse` accepts for an integer type, before the range check: an
/// optional `+` (or `-` when `signed`) and then at least one decimal digit.
pub open spec fn parse_int(s: Seq<char>, signed: bool) -> Option<int> {
    if s.len() == 0 {
        None
    } else {
        let neg = signed && s[0] == '-';
        let body = if s[0] == '+' || neg { s.drop_first() } else { s };
        if body.len() > 0 && all_dec_digits(body) {
            Some(if neg { -digits_value(body) } else { digits_value(body) })
        } else {
            None
        }
    }
}

/// `str::parse` for an integer type whose values are `lo..=hi`.
pub open spec fn parse_int_in(s: Seq<char>, signed: bool, lo: int, hi: int) -> Option<int> {
    match parse_int(s, signed) {
        Some(v) => if lo <= v && v <= hi { Some(v) } else { None },
        None => None,
    }
}

proof fn lemma_digits_value_step(s: Seq<char>, i: int)
    requires
        0 <= i < s.len(),
    ensures
        digits_value(s.take(i + 1)) == digits_value(s.take(i)) * 10 + (s[i] as int - '0' as int),
{
    assert(s.take(i + 1).drop_last() =~= s.take(i));
}

proof fn lemma_digits_nonneg(s: Seq<char>)
    requires
        all_dec_digits(s),
    ensures
        digits_value(s) >= 0,
    decreases s.len(),
{
    if s.len() > 0 {
        assert(all_dec_digits(s.drop_last()));
        lemma_digits_nonneg(s.drop_last());
    }
}

/// `str::parse` over `v[from..]` for an integer type with values `lo..=hi`.
fn parse_int_chars(v: &Vec<char>, from: usize, signed: bool, lo: i64, hi: i64) -> (r: Option<i64>)
    requires
        from <= v@.len(),
        -0x1_0000_0000 <= lo <= hi <= 0x1_0000_0000,
    ensures
        match r {
            Some(x) => parse_int_in(v@.skip(from as int), signed, lo as int, hi as int) == Some(x as int),
            None => parse_int_in(v@.skip(from as int), signed, lo as int, hi as int) is None,
        },
{
    let ghost s = v@.skip(from as int);
    let n = v.len();
    if from >= n {
        return None;
    }
    let neg = signed && v[from] == '-';
    let start = if v[from] == '+' || neg { from + 1 } else { from };
    let ghost body = v@.skip(start as int);
    proof {
        if start > from {
            assert(s.drop_first() =~= body);
        } else {
            assert(s =~= body);
        }
    }
    if start >= n {
        return None;
    }
    let bound: u64 = 0x1_0000_0000;
    let mut acc: u64 = 0;
    let mut big = false;
    let mut i: usize = start;
    assert(body.take(0) =~= Seq::<char>::empty());
    while i < n
        invariant
            start <= i <= n == v@.len(),
            body == v@.skip(start as int),
            s == v@.skip(from as int),
            bound == 0x1_0000_0000,
            s.len() > 0,
            body.len() > 0,
            neg == (signed && s[0] == '-'),
            body == (if s[0] == '+' || neg { s.drop_first() } else { s }),
            all_dec_digits(body.take(i - start)),
            !big ==> acc as int == digits_value(body.take(i - start)),
            !big ==> acc <= bound,
            big ==> digits_value(body.take(i - start)) > bound,
        decreases n - i,
    {
        let c = v[i];
        if !('0' <= c && c <= '9') {
            proof {
                assert(body[i - start] == c);
                assert(!all_dec_digits(body));
            }
            return None;
        }
        proof {
            lemma_digits_value_step(body, i - start);
            assert(body.take(i - start + 1) =~= body.take(i - start).push(c));
            assert(all_dec_digits(body.take(i - start + 1)));
            lemma_digits_nonneg(body.take(i - start));
        }
        if !big {
            let d = (c as u32 - '0' as u32) as u64;
            assert(acc * 10 <= bound * 10) by (nonlinear_arith)
                requires
                    acc <= bound,
            ;
            acc = acc * 10 + d;
            if acc > bound {
                big = true;
            }
        }
        i += 1;
    }
    proof {
        assert(body.take(n - start) =~= body);
    }
    if big {
        return None;
    }
    let mag = acc as i64;
    let val = if neg { -mag } else { mag };
    if lo <= val && val <= hi {
        Some(val)
    } else {
        None
    }
}

/// `s.trim().parse::<i32>()`, as an option.
pub fn parse_trimmed_i32(s: &str) -> (r: Option<i32>)
    ensures
        match r {
            Some(x) => parse_int_in(trimmed(s@), true, i32::MIN as int, i32::MAX as int) == Some(x as int),
            None => parse_int_in(trimmed(s@), true, i32::MIN as int, i32::MAX as int) is None,
        },
{
    let v = str_to_chars(s);
    let (lo, hi) = trim_bounds(&v);
    let t = take_range(&v, lo, hi);
    assert(t@.skip(0) =~= t@);
    match parse_int_chars(&t, 0, true, i32::MIN as i64, i32::MAX as i64) {
        Some(x) => Some(x as i32),
        None => None,
    }
}

}

verus! {

/// `s.trim().parse::<u32>()`, as an option.
pub fn parse_trimmed_u32(s: &str) -> (r: Option<u32>)
    ensures
        match r {
            Some(x) => parse_int_in(trimmed(s@), false, 0, u32::MAX as int) == Some(x as int),
            None => parse_int_in(trimmed(s@), false, 0, u32::MAX as int) is None,
        },
{
    let v = str_to_chars(s);
    let (lo, hi) = trim_bounds(&v);
    let t = take_range(&v, lo, hi);
    assert(t@.skip(0) =~= t@);
    match parse_int_chars(&t, 0, false, 0, u32::MAX as i64) {
        Some(x) => Some(x as u32),
        None => None,
    }
}

/// `s.trim().parse::<u8>()`, as an option.
pub fn parse_trimmed_u8(s: &str) -> (r: Option<u8>)
    ensures
        match r {
            Some(x) => parse_int_in(trimmed(s@), false, 0, 255) == Some(x as int),
            None => parse_int_in(trimmed(s@), false, 0, 255) is None,
        },
{
    let v = str_to_chars(s);
    let (lo, hi) = trim_bounds(&v);
    let t = take_range(&v, lo, hi);
    assert(t@.skip(0) =~= t@);
    match parse_int_chars(&t, 0, false, 0, 255) {
        Some(x) => Some(x as u8),
        None => None,
    }
}

/// `s.parse::<i32>()` over `v[lo..hi]` (no trimming), as an option.
pub fn parse_i32_range(v: &Vec<char>, lo: usize, hi: usize) -> (r: Option<i32>)
    requires
        lo <= hi <= v@.len(),
    ensures
        match r {
            Some(x) => parse_int_in(v@.subrange(lo as int, hi as int), true, i32::MIN as int, i32::MAX as int) == Some(x as int),
            None => parse_int_in(v@.subrange(lo as int, hi as int), true, i32::MIN as int, i32::MAX as int) is None,
        },
{
    let t = take_range(v, lo, hi);
    assert(t@.skip(0) =~= t@);
    match parse_int_chars(&t, 0, true, i32::MIN as i64, i32::MAX as i64) {
        Some(x) => Some(x as i32),
        None => None,
    }
}

proof fn lemma_digit_char_value(d: int)
    requires
        0 <= d < 10,
    ensures
        digit_char(d) as int - '0' as int == d,
        is_dec_digit(digit_char(d)),
{
}

/// Reading back the decimal notation of `n` gives `n`.
pub proof fn lemma_decimal_value(n: nat)
    ensures
        digits_value(decimal(n)) == n,
        all_dec_digits(decimal(n)),
    decreases n,
{
    if n < 10 {
        lemma_digit_char_value(n as int);
        let s = seq![digit_char(n as int)];
        assert(decimal(n) == s);
        assert(s.drop_last() =~= Seq::<char>::empty());
        assert(digits_value(s.drop_last()) == 0);
        assert(digits_value(s) == digits_value(s.drop_last()) * 10 + (s.last() as int - '0' as int));
    } else {
        lemma_decimal_value(n / 10);
        lemma_digit_char_value((n % 10) as int);
        let s = decimal(n / 10).push(digit_char((n % 10) as int));
        assert(decimal(n) == s);
        assert(s.drop_last() =~= decimal(n / 10));
        assert(s.last() == digit_char((n % 10) as int));
        assert(digits_value(s) == digits_value(decimal(n / 10)) * 10 + (n % 10));
        assert((n / 10) * 10 + n % 10 == n);
        assert(all_dec_digits(s)) by {
            assert forall|i: int| 0 <= i < s.len() implies is_dec_digit(#[trigger] s[i]) by {
                if i < s.len() - 1 {
                    assert(s[i] == decimal(n / 10)[i]);
                }
            }
        }
    }
}

proof fn lemma_zeros_value(k: nat)
    ensures
        digits_value(Seq::new(k, |i: int| '0')) == 0,
    decreases k,
{
    if k > 0 {
        assert(Seq::new(k, |i: int| '0').drop_last() =~= Seq::new((k - 1) as nat, |i: int| '0'));
        lemma_zeros_value((k - 1) as nat);
    }
}

proof fn lemma_zeros_prefix_value(k: nat, s: Seq<char>)
    ensures
        digits_value(Seq::new(k, |i: int| '0') + s) == digits_value(s),
    decreases s.len(),
{
    let z = Seq::new(k, |i: int| '0');
    if s.len() == 0 {
        assert(z + s =~= z);
        lemma_zeros_value(k);
    } else {
        assert((z + s).drop_last() =~= z + s.drop_last());
        lemma_zeros_prefix_value(k, s.drop_last());
    }
}

/// Reading back a zero-padded decimal gives the number.
pub proof fn lemma_padded_value(n: nat, width: nat)
    ensures
        digits_value(padded_decimal(n, width)) == n,
{
    lemma_decimal_value(n);
    let d = decimal(n);
    if d.len() < width {
        lemma_zeros_prefix_value((width - d.len()) as nat, d);
    }
}

/// Different numbers have different zero-padded notations.
pub proof fn lemma_padded_injective(a: nat, b: nat, width: nat)
    requires
        padded_decimal(a, width) == padded_decimal(b, width),
    ensures
        a == b,
{
    lemma_padded_value(a, width);
    lemma_padded_value(b, width);
}

/// Strings that agree around the middle agree in the middle.
pub proof fn lemma_same_frame(a: Seq<char>, x: Seq<char>, y: Seq<char>, b: Seq<char>)
    requires
        a + x + b == a + y + b,
    ensures
        x == y,
{
    let l = a + x + b;
    assert((a + x + b).len() == a.len() + x.len() + b.len());
    assert((a + y + b).len() == a.len() + y.len() + b.len());
    assert(x.len() == y.len());
    assert(x =~= l.subrange(a.len() as int, (a.len() + x.len()) as int));
    assert(y =~= (a + y + b).subrange(a.len() as int, (a.len() + y.len()) as int));
}

}
