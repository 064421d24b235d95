//! Text form of the numeric telemetry columns: signed integers and
//! fixed-point decimals held as integers scaled by a power of ten.
use vstd::prelude::*;

verus! {

/// Largest magnitude a decoded decimal may have once scaled.
pub const SCALED_LIMIT: u64 = 9223372036854775807;

pub open spec fn is_digit(c: char) -> bool {
    '0' <= c && c <= '9'
}

pub open spec fn digit_of(c: char) -> nat {
    (c as int - '0' as int) as nat
}

pub open spec fn digit_char(d: nat) -> char {
    (d + '0' as int) as char
}

pub open spec fn all_digits(s: Seq<char>) -> bool {
    forall|i: int| 0 <= i < s.len() ==> is_digit(#[trigger] s[i])
}

/// The number that a run of decimal digits denotes.
pub open spec fn digits_value(s: Seq<char>) -> nat
    decreases s.len(),
{
    if s.len() == 0 {
        0
    } else {
        digits_value(s.drop_last()) * 10 + digit_of(s.last())
    }
}

pub open spec fn pow10(p: nat) -> nat
    decreases p,
{
    if p == 0 {
        1
    } else {
        10 * pow10((p - 1) as nat)
    }
}

/// Number of digits at the front of `s`.
pub open spec fn digit_run(s: Seq<char>) -> nat
    decreases s.len(),
{
    if s.len() > 0 && is_digit(s[0]) {
        1 + digit_run(s.drop_first())
    } else {
        0
    }
}

pub open spec fn sign_len(s: Seq<char>) -> nat {
    if s.len() > 0 && (s[0] == '+' || s[0] == '-') {
        1
    } else {
        0
    }
}

pub open spec fn is_negative(s: Seq<char>) -> bool {
    s.len() > 0 && s[0] == '-'
}

pub open spec fn unsigned_part(s: Seq<char>) -> Seq<char> {
    s.skip(sign_len(s) as int)
}

/// The digits before the decimal point.
pub open spec fn int_part(s: Seq<char>) -> Seq<char> {
    unsigned_part(s).take(digit_run(unsigned_part(s)) as int)
}

/// What follows the digits before the decimal point.
pub open spec fn after_int_part(s: Seq<char>) -> Seq<char> {
    unsigned_part(s).skip(digit_run(unsigned_part(s)) as int)
}

/// The digits after the decimal point, if there is one.
pub open spec fn frac_part(s: Seq<char>) -> Seq<char> {
    if after_int_part(s).len() > 0 {
        after_int_part(s).drop_first()
    } else {
        Seq::empty()
    }
}

pub open spec fn signed(neg: bool, m: int) -> int {
    if neg {
        -m
    } else {
        m
    }
}

/// Value of an integer column: an optional sign and at least one digit, in
/// the range of `i32`.
pub open spec fn int_value(s: Seq<char>) -> Option<int> {
    let v = signed(is_negative(s), digits_value(int_part(s)) as int);
    if after_int_part(s).len() == 0 && int_part(s).len() > 0 && i32::MIN <= v <= i32::MAX {
        Some(v)
    } else {
        None
    }
}

/// Decimal text: an optional sign, digits, optionally a point and more
/// digits, with at least one digit in all.
pub open spec fn decimal_syntax(s: Seq<char>) -> bool {
    &&& (after_int_part(s).len() == 0 || (after_int_part(s)[0] == '.' && all_digits(
        frac_part(s),
    )))
    &&& int_part(s).len() + frac_part(s).len() > 0
}

/// The first `p` digits after the point, padded with zeros.
pub open spec fn padded(f: Seq<char>, p: nat) -> Seq<char> {
    Seq::new(p, |i: int| if i < f.len() { f[i] } else { '0' })
}

/// One when the first digit dropped at precision `p` is 5 or more.
pub open spec fn round_up(f: Seq<char>, p: nat) -> nat {
    if f.len() > p && digit_of(f[p as int]) >= 5 {
        1
    } else {
        0
    }
}

/// Magnitude of decimal text scaled by `10^p`, rounded half away from zero.
pub open spec fn scaled_magnitude(s: Seq<char>, p: nat) -> nat {
    digits_value(int_part(s) + padded(frac_part(s), p)) + round_up(frac_part(s), p)
}

/// Value of a decimal column at precision `p`, as a multiple of `10^-p`.
pub open spec fn fixed_value(s: Seq<char>, p: nat) -> Option<int> {
    if decimal_syntax(s) && scaled_magnitude(s, p) <= SCALED_LIMIT {
        Some(signed(is_negative(s), scaled_magnitude(s, p) as int))
    } else {
        None
    }
}

/// Shortest decimal digits of `n`.
pub open spec fn nat_digits(n: nat) -> Seq<char>
    decreases n,
{
    if n < 10 {
        seq![digit_char(n)]
    } else {
        nat_digits(n / 10).push(digit_char(n % 10))
    }
}

/// The last `p` decimal digits of `n`, with leading zeros.
pub open spec fn padded_digits(n: nat, p: nat) -> Seq<char>
    decreases p,
{
    if p == 0 {
        Seq::empty()
    } else {
        padded_digits(n / 10, (p - 1) as nat).push(digit_char(n % 10))
    }
}

pub open spec fn abs(v: int) -> nat {
    if v < 0 {
        (-v) as nat
    } else {
        v as nat
    }
}

pub open spec fn sign_text(v: int) -> Seq<char> {
    if v < 0 {
        seq!['-']
    } else {
        Seq::empty()
    }
}

/// Text of an integer.
pub open spec fn int_text(v: int) -> Seq<char> {
    sign_text(v) + nat_digits(abs(v))
}

/// Text of `v * 10^-p` with exactly `p` digits after the point.
pub open spec fn fixed_text(v: int, p: nat) -> Seq<char> {
    if p == 0 {
        int_text(v)
    } else {
        sign_text(v) + nat_digits(abs(v) / pow10(p)) + seq!['.'] + padded_digits(abs(v) % pow10(p), p)
    }
}


pub fn is_digit_char(c: char) -> (r: bool)
    ensures
        r == is_digit(c),
{
    '0' <= c && c <= '9'
}

fn digit_value(c: char) -> (r: u64)
    requires
        is_digit(c),
    ensures
        r == digit_of(c),
        r < 10,
{
    (c as u32 - '0' as u32) as u64
}

fn char_of_digit(d: u64) -> (r: char)
    requires
        d < 10,
    ensures
        r == digit_char(d as nat),
        is_digit(r),
        digit_of(r) == d,
{
    if d == 0 { '0' } else if d == 1 { '1' } else if d == 2 { '2' } else if d == 3 { '3' }
    else if d == 4 { '4' } else if d == 5 { '5' } else if d == 6 { '6' } else if d == 7 { '7' }
    else if d == 8 { '8' } else { '9' }
}

/// Positions in `s` where the sign ends and where the leading digits end.
fn scan_int_part(s: &Vec<char>) -> (r: (usize, usize))
    ensures
        r.0 == sign_len(s@),
        r.0 <= r.1 <= s@.len(),
        int_part(s@) == s@.subrange(r.0 as int, r.1 as int),
        after_int_part(s@) == s@.skip(r.1 as int),
        all_digits(int_part(s@)),
{
    let n = s.len();
    let start: usize = if n > 0 && (s[0] == '+' || s[0] == '-') { 1 } else { 0 };
    let ghost u = unsigned_part(s@);
    assert(s@.skip(start as int) =~= u);
    let mut i: usize = start;
    while i < n && is_digit_char(s[i])
        invariant
            start <= i <= n,
            n == s@.len(),
            start == sign_len(s@),
            u == unsigned_part(s@),
            digit_run(u) == (i - start) + digit_run(s@.skip(i as int)),
            forall|k: int| start <= k < i ==> is_digit(#[trigger] s@[k]),
        decreases n - i,
    {
        assert(s@.skip(i as int).drop_first() =~= s@.skip(i + 1));
        i = i + 1;
    }
    assert(digit_run(s@.skip(i as int)) == 0);
    assert(int_part(s@) =~= s@.subrange(start as int, i as int));
    assert(after_int_part(s@) =~= s@.skip(i as int));
    (start, i)
}

pub proof fn lemma_digits_value_push(s: Seq<char>, c: char)
    ensures
        digits_value(s.push(c)) == digits_value(s) * 10 + digit_of(c),
{
    assert(s.push(c).drop_last() =~= s);
}

/// A digit string is worth at least any of its prefixes.
pub proof fn lemma_prefix_value_le(s: Seq<char>, j: int)
    requires
        0 <= j <= s.len(),
    ensures
        digits_value(s.take(j)) <= digits_value(s),
    decreases s.len(),
{
    if j < s.len() {
        assert(s.drop_last().take(j) =~= s.take(j));
        lemma_prefix_value_le(s.drop_last(), j);
    } else {
        assert(s.take(j) =~= s);
    }
}

/// Reads an integer column: an optional sign and digits, within `i32`.
pub fn parse_int(s: &Vec<char>) -> (r: Option<i32>)
    ensures
        r matches Some(v) ==> int_value(s@) == Some(v as int),
        r is None ==> int_value(s@) is None,
{
    let (start, end) = scan_int_part(s);
    if end != s.len() || end == start {
        return None;
    }
    let ghost d = int_part(s@);
    let neg = s[0] == '-';
    let limit: u64 = if neg { 2147483648 } else { 2147483647 };
    let mut acc: u64 = 0;
    let mut i: usize = start;
    while i < end
        invariant
            start <= i <= end,
            end <= s@.len(),
            d == s@.subrange(start as int, end as int),
            d == int_part(s@),
            after_int_part(s@).len() == 0,
            all_digits(d),
            acc == digits_value(d.take(i - start)),
            acc <= limit,
            neg == is_negative(s@),
            limit == (if neg { 2147483648u64 } else { 2147483647u64 }),
        decreases end - i,
    {
        assert(s@[i as int] == d[i - start]);
        let dg = digit_value(s[i]);
        proof {
            assert(d.take(i - start + 1) =~= d.take(i - start).push(s@[i as int]));
            lemma_digits_value_push(d.take(i - start), s@[i as int]);
        }
        acc = acc * 10 + dg;
        i = i + 1;
        if acc > limit {
            proof {
                assert(acc == digits_value(d.take(i - start)));
                lemma_prefix_value_le(d, i - start);
                assert(digits_value(d) > limit);
            }
            return None;
        }
    }
    assert(d.take(end - start) =~= d);
    if neg {
        Some((0 - (acc as i64)) as i32)
    } else {
        Some(acc as i32)
    }
}


/// One more digit `c == w[j]` on the value of `w`'s first `j` digits, or
/// `None` where the value of `w` as a whole exceeds the limit.
fn push_digit(acc: u64, c: char, w: Ghost<Seq<char>>, j: Ghost<int>) -> (r: Option<u64>)
    requires
        0 <= j@ < w@.len(),
        all_digits(w@),
        w@[j@] == c,
        acc == digits_value(w@.take(j@)),
    ensures
        r matches Some(a) ==> a == digits_value(w@.take(j@ + 1)) && a <= SCALED_LIMIT,
        r is None ==> digits_value(w@) > SCALED_LIMIT,
{
    let dg = digit_value(c);
    proof {
        assert(w@.take(j@ + 1) =~= w@.take(j@).push(c));
        lemma_digits_value_push(w@.take(j@), c);
    }
    if acc > (SCALED_LIMIT - dg) / 10 {
        proof {
            assert(acc * 10 + dg > SCALED_LIMIT) by (nonlinear_arith)
                requires
                    acc > (SCALED_LIMIT - dg) / 10,
                    dg < 10,
            ;
            lemma_prefix_value_le(w@, j@ + 1);
            assert(w@.take(w@.len() as int) =~= w@);
        }
        return None;
    }
    proof {
        assert(acc * 10 + dg <= SCALED_LIMIT) by (nonlinear_arith)
            requires
                acc <= (SCALED_LIMIT - dg) / 10,
                dg < 10,
        ;
    }
    Some(acc * 10 + dg)
}

/// Reads a decimal column as a multiple of `10^-p`, rounding half away from
/// zero at the first digit it drops.
pub fn parse_fixed(s: &Vec<char>, p: usize) -> (r: Option<i64>)
    requires
        p <= 18,
    ensures
        r matches Some(v) ==> fixed_value(s@, p as nat) == Some(v as int),
        r is None ==> fixed_value(s@, p as nat) is None,
{
    let n = s.len();
    let (start, end) = scan_int_part(s);
    let fstart: usize = if end < n { end + 1 } else { n };
    let ghost f = frac_part(s@);
    proof {
        if end < n {
            assert(after_int_part(s@)[0] == s@[end as int]);
        }
        assert(f =~= s@.skip(fstart as int));
    }
    if end < n {
        if s[end] != '.' {
            assert(after_int_part(s@)[0] != '.');
            return None;
        }
        let mut k: usize = fstart;
        while k < n
            invariant
                fstart <= k <= n,
                n == s@.len(),
                f == s@.skip(fstart as int),
                f == frac_part(s@),
                forall|q: int| fstart <= q < k ==> is_digit(#[trigger] s@[q]),
            decreases n - k,
        {
            if !is_digit_char(s[k]) {
                assert(f[k - fstart] == s@[k as int]);
                assert(!all_digits(f));
                return None;
            }
            k = k + 1;
        }
        assert forall|q: int| 0 <= q < f.len() implies is_digit(#[trigger] f[q]) by {
            assert(f[q] == s@[fstart + q]);
        }
    }
    let ilen = end - start;
    let flen = n - fstart;
    if ilen == 0 && flen == 0 {
        return None;
    }
    let ghost d = int_part(s@);
    let ghost w = d + padded(f, p as nat);
    proof {
        assert(all_digits(f));
        assert(decimal_syntax(s@));
        assert forall|q: int| 0 <= q < w.len() implies is_digit(#[trigger] w[q]) by {
            if q >= d.len() {
                assert(w[q] == padded(f, p as nat)[q - d.len()]);
            }
        }
    }
    let mut acc: u64 = 0;
    let mut j: usize = 0;
    while j < ilen
        invariant
            j <= ilen,
            start + ilen == end,
            end <= n,
            n == s@.len(),
            d == s@.subrange(start as int, end as int),
            all_digits(d),
            all_digits(w),
            decimal_syntax(s@),
            d == int_part(s@),
            f == frac_part(s@),
            w == d + padded(f, p as nat),
            acc == digits_value(w.take(j as int)),
            acc <= SCALED_LIMIT,
        decreases ilen - j,
    {
        assert(s@[start + j] == w[j as int]);
        match push_digit(acc, s[start + j], Ghost(w), Ghost(j as int)) {
            Some(a) => acc = a,
            None => return None,
        }
        j = j + 1;
    }
    let mut k: usize = 0;
    while k < p
        invariant
            k <= p,
            ilen == d.len(),
            flen == f.len(),
            fstart + flen == n,
            n == s@.len(),
            f == s@.skip(fstart as int),
            all_digits(f),
            all_digits(w),
            decimal_syntax(s@),
            d == int_part(s@),
            f == frac_part(s@),
            w == d + padded(f, p as nat),
            acc == digits_value(w.take(ilen + k)),
            acc <= SCALED_LIMIT,
        decreases p - k,
    {
        let c: char = if k < flen { s[fstart + k] } else { '0' };
        assert(c == w[ilen + k]);
        match push_digit(acc, c, Ghost(w), Ghost(ilen + k)) {
            Some(a) => acc = a,
            None => return None,
        }
        k = k + 1;
    }
    assert(w.take(w.len() as int) =~= w);
    let up: u64 = if flen > p && digit_value(s[fstart + p]) >= 5 { 1 } else { 0 };
    assert(up == round_up(f, p as nat));
    if acc == SCALED_LIMIT && up == 1 {
        return None;
    }
    let m = acc + up;
    if s.len() > 0 && s[0] == '-' {
        Some(0 - (m as i64))
    } else {
        Some(m as i64)
    }
}


pub proof fn lemma_digit_char(d: nat)
    requires
        d < 10,
    ensures
        is_digit(digit_char(d)),
        digit_of(digit_char(d)) == d,
{
}

pub proof fn lemma_nat_digits(n: nat)
    ensures
        all_digits(nat_digits(n)),
        digits_value(nat_digits(n)) == n,
        nat_digits(n).len() >= 1,
    decreases n,
{
    if n < 10 {
        lemma_digit_char(n);
        assert(seq![digit_char(n)].drop_last() =~= Seq::<char>::empty());
        assert(digits_value(Seq::<char>::empty()) == 0);
        assert(seq![digit_char(n)].last() == digit_char(n));
    } else {
        lemma_nat_digits(n / 10);
        lemma_digit_char(n % 10);
        lemma_digits_value_push(nat_digits(n / 10), digit_char(n % 10));
        assert(n / 10 * 10 + n % 10 == n);
    }
}

pub proof fn lemma_padded_digits(n: nat, p: nat)
    ensures
        all_digits(padded_digits(n, p)),
        digits_value(padded_digits(n, p)) == n % pow10(p),
        padded_digits(n, p).len() == p,
    decreases p,
{
    if p > 0 {
        let q = (p - 1) as nat;
        lemma_padded_digits(n / 10, q);
        lemma_digit_char(n % 10);
        lemma_digits_value_push(padded_digits(n / 10, q), digit_char(n % 10));
        lemma_pow10_positive(q);
        let m = pow10(q);
        assert((n / 10) % m * 10 + n % 10 == n % (10 * m)) by (nonlinear_arith)
            requires
                m > 0,
        {
            vstd::arithmetic::div_mod::lemma_breakdown(n as int, 10, m as int);
        }
    }
}

pub proof fn lemma_pow10_positive(p: nat)
    ensures
        pow10(p) > 0,
    decreases p,
{
    if p > 0 {
        lemma_pow10_positive((p - 1) as nat);
    }
}

/// Value of two digit strings side by side.
pub proof fn lemma_digits_value_concat(a: Seq<char>, b: Seq<char>)
    ensures
        digits_value(a + b) == digits_value(a) * pow10(b.len()) + digits_value(b),
    decreases b.len(),
{
    if b.len() == 0 {
        assert(a + b =~= a);
        assert(digits_value(b) == 0);
        assert(pow10(0) == 1);
        assert(digits_value(a) * 1 == digits_value(a));
    } else {
        let b1 = b.drop_last();
        assert((a + b).drop_last() =~= a + b1);
        lemma_digits_value_concat(a, b1);
        let x = digits_value(a);
        let y = pow10(b1.len());
        assert((x * y + digits_value(b1)) * 10 == x * (10 * y) + digits_value(b1) * 10)
            by (nonlinear_arith);
        assert((a + b).last() == b.last());
        assert(pow10(b.len()) == 10 * y);
        assert(digits_value(b) == digits_value(b1) * 10 + digit_of(b.last()));
        assert(digits_value(a + b) == digits_value(a + b1) * 10 + digit_of(b.last()));
    }
}

/// The leading digits of `a + b` are `a` when `b` starts with no digit.
pub proof fn lemma_digit_run_concat(a: Seq<char>, b: Seq<char>)
    requires
        all_digits(a),
        b.len() == 0 || !is_digit(b[0]),
    ensures
        digit_run(a + b) == a.len(),
    decreases a.len(),
{
    if a.len() > 0 {
        assert((a + b).drop_first() =~= a.drop_first() + b);
        lemma_digit_run_concat(a.drop_first(), b);
    } else {
        assert(a + b =~= b);
    }
}

/// Integer text reads back as the integer it was made from.
pub proof fn lemma_int_round_trip(v: int)
    requires
        i32::MIN <= v <= i32::MAX,
    ensures
        int_value(int_text(v)) == Some(v),
{
    let nd = nat_digits(abs(v));
    let s = int_text(v);
    lemma_nat_digits(abs(v));
    assert(is_digit(nd[0]));
    assert(unsigned_part(s) =~= nd);
    lemma_digit_run_concat(nd, Seq::empty());
    assert(nd + Seq::<char>::empty() =~= nd);
    assert(int_part(s) =~= nd);
    assert(after_int_part(s) =~= Seq::<char>::empty());
}

/// Fixed-point text reads back, at the same precision, as the value it was
/// made from.
pub proof fn lemma_fixed_round_trip(v: int, p: nat)
    requires
        abs(v) <= SCALED_LIMIT,
    ensures
        fixed_value(fixed_text(v, p), p) == Some(v),
{
    let s = fixed_text(v, p);
    lemma_pow10_positive(p);
    if p == 0 {
        let nd = nat_digits(abs(v));
        lemma_nat_digits(abs(v));
        assert(is_digit(nd[0]));
        assert(unsigned_part(s) =~= nd);
        lemma_digit_run_concat(nd, Seq::empty());
        assert(nd + Seq::<char>::empty() =~= nd);
        assert(int_part(s) =~= nd);
        assert(after_int_part(s) =~= Seq::<char>::empty());
        assert(frac_part(s) =~= Seq::<char>::empty());
        assert(padded(frac_part(s), p) =~= Seq::<char>::empty());
        assert(int_part(s) + padded(frac_part(s), p) =~= nd);
    } else {
        let q = abs(v) / pow10(p);
        let r = abs(v) % pow10(p);
        let nd = nat_digits(q);
        let pd = padded_digits(r, p);
        lemma_nat_digits(q);
        lemma_padded_digits(r, p);
        assert(r % pow10(p) == r) by {
            vstd::arithmetic::div_mod::lemma_mod_twice(abs(v) as int, pow10(p) as int);
        }
        assert(is_digit(nd[0]));
        let tail = seq!['.'] + pd;
        assert(unsigned_part(s) =~= nd + tail);
        lemma_digit_run_concat(nd, tail);
        assert(int_part(s) =~= nd);
        assert(after_int_part(s) =~= tail);
        assert(frac_part(s) =~= pd);
        assert(padded(pd, p) =~= pd);
        lemma_digits_value_concat(nd, pd);
        assert(q * pow10(p) + r == abs(v)) by {
            vstd::arithmetic::div_mod::lemma_fundamental_div_mod(abs(v) as int, pow10(p) as int);
        }
    }
}


fn push_nat_digits(out: &mut Vec<char>, n: u64)
    ensures
        final(out)@ == old(out)@ + nat_digits(n as nat),
    decreases n,
{
    if n >= 10 {
        push_nat_digits(out, n / 10);
    }
    let c = char_of_digit(n % 10);
    out.push(c);
    assert(final(out)@ =~= old(out)@ + nat_digits(n as nat));
}

fn push_padded_digits(out: &mut Vec<char>, n: u64, p: usize)
    ensures
        final(out)@ == old(out)@ + padded_digits(n as nat, p as nat),
    decreases p,
{
    if p > 0 {
        push_padded_digits(out, n / 10, p - 1);
        let c = char_of_digit(n % 10);
        out.push(c);
        assert(final(out)@ =~= old(out)@ + padded_digits(n as nat, p as nat));
    } else {
        assert(final(out)@ =~= old(out)@ + padded_digits(n as nat, p as nat));
    }
}

fn magnitude(v: i64) -> (r: u64)
    ensures
        r == abs(v as int),
{
    if v < 0 {
        (0 - (v as i128)) as u64
    } else {
        v as u64
    }
}

/// `10^p` for the precisions that the telemetry columns use.
pub fn scale_of(p: usize) -> (r: u64)
    requires
        p <= 4,
    ensures
        r == pow10(p as nat),
{
    reveal_with_fuel(pow10, 5);
    if p == 0 {
        1
    } else if p == 1 {
        10
    } else if p == 2 {
        100
    } else if p == 3 {
        1000
    } else {
        10000
    }
}

/// Decimal text of an integer.
pub fn format_int(v: i64) -> (r: Vec<char>)
    ensures
        r@ == int_text(v as int),
{
    let mut out: Vec<char> = Vec::new();
    if v < 0 {
        out.push('-');
    }
    push_nat_digits(&mut out, magnitude(v));
    assert(out@ =~= int_text(v as int));
    out
}

/// Text of `v * 10^-p` with exactly `p` digits after the point.
pub fn format_fixed(v: i64, p: usize) -> (r: Vec<char>)
    requires
        p <= 4,
    ensures
        r@ == fixed_text(v as int, p as nat),
{
    if p == 0 {
        return format_int(v);
    }
    let scale = scale_of(p);
    proof {
        lemma_pow10_positive(p as nat);
    }
    let m = magnitude(v);
    let mut out: Vec<char> = Vec::new();
    if v < 0 {
        out.push('-');
    }
    push_nat_digits(&mut out, m / scale);
    out.push('.');
    push_padded_digits(&mut out, m % scale, p);
    assert(out@ =~= fixed_text(v as int, p as nat));
    out
}


/// Digits of `n`, padded with leading zeros to at least `w` digits.
pub open spec fn zero_padded(n: nat, w: nat) -> Seq<char> {
    if n < pow10(w) {
        padded_digits(n, w)
    } else {
        nat_digits(n)
    }
}

/// Digits of `n`, padded with leading zeros to at least `w` digits.
pub fn format_zero_padded(n: u64, w: usize) -> (r: Vec<char>)
    requires
        w <= 4,
    ensures
        r@ == zero_padded(n as nat, w as nat),
{
    let mut out: Vec<char> = Vec::new();
    if n < scale_of(w) {
        push_padded_digits(&mut out, n, w);
    } else {
        push_nat_digits(&mut out, n);
    }
    assert(out@ =~= zero_padded(n as nat, w as nat));
    out
}


pub proof fn lemma_pow10_add(a: nat, b: nat)
    ensures
        pow10(a + b) == pow10(a) * pow10(b),
    decreases a,
{
    if a > 0 {
        lemma_pow10_add((a - 1) as nat, b);
        assert(pow10(a + b) == 10 * pow10((a - 1 + b) as nat));
        assert(10 * (pow10((a - 1) as nat) * pow10(b)) == (10 * pow10((a - 1) as nat)) * pow10(b))
            by (nonlinear_arith);
    } else {
        assert(pow10(0) == 1);
        assert(a + b == b);
    }
}

/// A digit string is worth less than ten to the power of its length.
pub proof fn lemma_digits_value_bound(s: Seq<char>)
    requires
        all_digits(s),
    ensures
        digits_value(s) < pow10(s.len()),
    decreases s.len(),
{
    if s.len() > 0 {
        let t = s.drop_last();
        assert(all_digits(t)) by {
            assert forall|i: int| 0 <= i < t.len() implies is_digit(#[trigger] t[i]) by {
                assert(t[i] == s[i]);
            }
        }
        lemma_digits_value_bound(t);
        assert(is_digit(s[s.len() - 1]));
        let x = digits_value(t);
        let y = pow10(t.len());
        assert(x * 10 + 9 < 10 * y) by (nonlinear_arith)
            requires
                x < y,
        ;
    }
}

pub proof fn lemma_zeros_value(n: nat)
    ensures
        digits_value(Seq::new(n, |i: int| '0')) == 0,
    decreases n,
{
    if n > 0 {
        let z = Seq::new(n, |i: int| '0');
        assert(z.drop_last() =~= Seq::new((n - 1) as nat, |i: int| '0'));
        lemma_zeros_value((n - 1) as nat);
    }
}

/// The value read at precision `p` lies within half a unit of its last
/// kept digit of the exact value of the text: with `f` the digits after the
/// point, the text denotes `n / 10^|f|`, and `|v * 10^|f| - n * 10^p|` is at
/// most half of `10^|f|`.
pub proof fn lemma_fixed_value_error(s: Seq<char>, p: nat)
    requires
        fixed_value(s, p) is Some,
    ensures
        ({
            let f = frac_part(s);
            let n = signed(is_negative(s), digits_value(int_part(s) + f) as int);
            let v = fixed_value(s, p)->Some_0;
            2 * abs(v * pow10(f.len()) - n * pow10(p)) <= pow10(f.len())
        }),
{
    let a = int_part(s);
    let f = frac_part(s);
    let l = f.len();
    let m = scaled_magnitude(s, p) as int;
    let big_n = digits_value(a + f) as int;
    let neg = is_negative(s);
    lemma_pow10_positive(p);
    lemma_pow10_positive(l);
    if l <= p {
        let z = Seq::new((p - l) as nat, |i: int| '0');
        assert(padded(f, p) =~= f + z);
        assert(a + padded(f, p) =~= (a + f) + z);
        lemma_digits_value_concat(a + f, z);
        lemma_zeros_value((p - l) as nat);
        lemma_pow10_add((p - l) as nat, l);
        assert(m == big_n * pow10((p - l) as nat));
        assert(m * pow10(l) == big_n * pow10(p)) by (nonlinear_arith)
            requires
                m == big_n * pow10((p - l) as nat),
                pow10(p) == pow10((p - l) as nat) * pow10(l),
        ;
        assert(2 * abs(m * pow10(l) - big_n * pow10(p)) <= pow10(l));
    } else {
        let k = (l - p - 1) as nat;
        let head = f.take(p as int);
        let rest = f.skip(p as int + 1);
        let tail = f.skip(p as int);
        assert(padded(f, p) =~= head);
        assert(a + f =~= (a + head) + tail);
        lemma_digits_value_concat(a + head, tail);
        assert(tail =~= seq![f[p as int]] + rest);
        lemma_digits_value_concat(seq![f[p as int]], rest);
        assert(seq![f[p as int]].drop_last() =~= Seq::<char>::empty());
        assert(all_digits(rest)) by {
            assert forall|i: int| 0 <= i < rest.len() implies is_digit(#[trigger] rest[i]) by {
                assert(rest[i] == f[p + 1 + i]);
            }
        }
        lemma_digits_value_bound(rest);
        let d = digit_of(f[p as int]) as int;
        assert(is_digit(f[p as int]));
        let m0 = digits_value(a + head) as int;
        let big_r = digits_value(tail) as int;
        let q = pow10(k) as int;
        assert(rest.len() == k);
        assert(seq![f[p as int]].last() == f[p as int]);
        assert(digits_value(Seq::<char>::empty()) == 0);
        assert(digits_value(seq![f[p as int]]) == digits_value(Seq::<char>::empty()) * 10 + digit_of(
            f[p as int],
        ));
        assert(digits_value(seq![f[p as int]]) == d);
        assert(big_r == d * q + digits_value(rest));
        assert(pow10(tail.len()) == 10 * q);
        assert(big_n == m0 * (10 * q) + big_r);
        lemma_pow10_add((l - p) as nat, p);
        assert(pow10(l) == 10 * q * pow10(p));
        let r = round_up(f, p) as int;
        assert(m == m0 + r);
        let e = pow10(p) as int;
        assert(m * pow10(l) - big_n * e == e * (r * 10 * q - big_r)) by (nonlinear_arith)
            requires
                m == m0 + r,
                big_n == m0 * (10 * q) + big_r,
                pow10(l) == 10 * q * e,
        ;
        if d < 5 {
            assert(r == 0);
            assert(big_r <= 5 * q - 1) by (nonlinear_arith)
                requires
                    big_r == d * q + digits_value(rest),
                    digits_value(rest) < q,
                    d <= 4,
                    q > 0,
            ;
            assert(2 * (e * big_r) <= 10 * q * e) by (nonlinear_arith)
                requires
                    big_r <= 5 * q - 1,
                    0 <= big_r,
                    e > 0,
            ;
            assert(e * (r * 10 * q - big_r) == -(e * big_r)) by (nonlinear_arith)
                requires
                    r == 0,
            ;
            assert(2 * abs(m * pow10(l) - big_n * pow10(p)) <= pow10(l));
        } else {
            assert(r == 1);
            assert(5 * q <= big_r && big_r < 10 * q) by (nonlinear_arith)
                requires
                    big_r == d * q + digits_value(rest),
                    digits_value(rest) < q,
                    5 <= d <= 9,
                    q > 0,
            ;
            assert(2 * (e * (10 * q - big_r)) <= 10 * q * e) by (nonlinear_arith)
                requires
                    5 * q <= big_r,
                    big_r < 10 * q,
                    e > 0,
            ;
            assert(e * (10 * q - big_r) >= 0) by (nonlinear_arith)
                requires
                    big_r < 10 * q,
                    e > 0,
            ;
            assert(r * 10 * q == 10 * q);
            assert(2 * abs(m * pow10(l) - big_n * pow10(p)) <= pow10(l));
        }
    }
    let v = fixed_value(s, p)->Some_0;
    let n = signed(neg, big_n);
    assert(v == signed(neg, m));
    assert(v * pow10(l) - n * pow10(p) == signed(neg, m * pow10(l) - big_n * pow10(p)))
        by (nonlinear_arith)
        requires
            v == signed(neg, m),
            n == signed(neg, big_n),
    ;
}

} // verus!
