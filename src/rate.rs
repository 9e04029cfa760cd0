//! Bandwidth limits written as text (`50M/s`, `1.5GiB/s`), read exactly:
//! the decimal number times the unit, rounded half up.
use vstd::prelude::*;
use vstd::string::StrSliceExecFns;
use crate::probe::{count_char, find_char, lemma_find_char_at, lower_is};
use crate::text::{
    digit_value, digits_value, is_digit, is_whitespace, trim, trim_end, trim_start, trimmed,
};

verus! {

pub open spec fn pow10(n: nat) -> nat
    decreases n,
{
    if n == 0 {
        1
    } else {
        10 * pow10((n - 1) as nat)
    }
}

/// `s` with every trailing repetition of `p` removed.
pub open spec fn strip_suffix_rep(s: Seq<char>, p: Seq<char>) -> Seq<char>
    decreases s.len(),
{
    if p.len() > 0 && s.len() >= p.len() && s.subrange(s.len() - p.len(), s.len() as int) == p {
        strip_suffix_rep(s.subrange(0, s.len() - p.len()), p)
    } else {
        s
    }
}

/// The rate text without surrounding whitespace and without trailing `/s`
/// and then `ps` repetitions.
pub open spec fn normalized_rate(s: Seq<char>) -> Seq<char> {
    trimmed(strip_suffix_rep(strip_suffix_rep(trimmed(s), seq!['/', 's']), seq!['p', 's']))
}

pub open spec fn is_num_char(c: char) -> bool {
    is_digit(c) || c == '.'
}

/// The characters of `s` that are (`num`) or are not (`!num`) digits or dots, in order.
pub open spec fn keep(s: Seq<char>, num: bool) -> Seq<char>
    decreases s.len(),
{
    if s.len() == 0 {
        seq![]
    } else {
        keep(s.drop_last(), num) + if is_num_char(s.last()) == num {
            seq![s.last()]
        } else {
            seq![]
        }
    }
}

/// `t`, ASCII letters lowercased, equals the lowercase word `w`.
pub open spec fn word_is(t: Seq<char>, w: Seq<char>) -> bool {
    t.len() == w.len() && forall|i: int| 0 <= i < t.len() ==> lower_is(#[trigger] t[i], w[i])
}

/// Bytes per unit of a suffix: none, `k`/`kb`, `ki`/`kib`, `m`/`mb`,
/// `mi`/`mib`, `g`/`gb`, `gi`/`gib`, in either case.
pub open spec fn multiplier(t: Seq<char>) -> Option<nat> {
    if t.len() == 0 {
        Some(1)
    } else if word_is(t, seq!['k']) || word_is(t, seq!['k', 'b']) {
        Some(1000)
    } else if word_is(t, seq!['k', 'i']) || word_is(t, seq!['k', 'i', 'b']) {
        Some(1024)
    } else if word_is(t, seq!['m']) || word_is(t, seq!['m', 'b']) {
        Some(1000000)
    } else if word_is(t, seq!['m', 'i']) || word_is(t, seq!['m', 'i', 'b']) {
        Some(1048576)
    } else if word_is(t, seq!['g']) || word_is(t, seq!['g', 'b']) {
        Some(1000000000)
    } else if word_is(t, seq!['g', 'i']) || word_is(t, seq!['g', 'i', 'b']) {
        Some(1073741824)
    } else {
        None
    }
}

/// `(int.frac) × m`, rounded half up.
pub open spec fn rounded_rate(int_digits: Seq<char>, frac_digits: Seq<char>, m: nat) -> nat {
    let k = frac_digits.len();
    let num = (2 * digits_value(frac_digits) * m + pow10(k)) as int;
    let den = (2 * pow10(k)) as int;
    digits_value(int_digits) * m + (num / den) as nat
}

/// Why a rate was refused.
#[derive(Debug, Clone, Copy, PartialEq, Eq, Structural)]
pub enum RateError {
    /// Nothing is left once whitespace and `/s` are removed.
    Empty,
    /// The digits and dots do not form a number.
    InvalidNumber,
    /// The unit is none of the known ones.
    UnsupportedSuffix,
    /// The rate rounds to zero bytes per second.
    NotPositive,
}

/// The rate a text gives: its digits and dots form the number (at least one
/// digit, at most one dot), its other characters, trimmed, the unit; the
/// product, rounded half up, is the rate, at most `u64::MAX`.
pub open spec fn parsed_rate(s: Seq<char>) -> Result<u64, RateError> {
    let norm = normalized_rate(s);
    let num = keep(norm, true);
    if norm.len() == 0 {
        Err(RateError::Empty)
    } else if count_char(num, '.') > 1 || num.len() <= count_char(num, '.') {
        Err(RateError::InvalidNumber)
    } else {
        match multiplier(trimmed(keep(norm, false))) {
            None => Err(RateError::UnsupportedSuffix),
            Some(m) => {
                let p = find_char(num, '.');
                let frac = if p < num.len() { num.subrange(p + 1, num.len() as int) } else { seq![] };
                let r = rounded_rate(num.subrange(0, p), frac, m);
                if r == 0 {
                    Err(RateError::NotPositive)
                } else if r > u64::MAX {
                    Ok(u64::MAX)
                } else {
                    Ok(r as u64)
                }
            },
        }
    }
}

proof fn lemma_digit_value(c: char)
    requires
        is_digit(c),
    ensures
        digit_value(c) <= 9,
{
}

proof fn lemma_digits_prepend(d: char, s: Seq<char>)
    ensures
        digits_value(seq![d] + s) == digit_value(d) * pow10(s.len()) + digits_value(s),
    decreases s.len(),
{
    if s.len() > 0 {
        let t = seq![d] + s;
        assert(t.drop_last() =~= seq![d] + s.drop_last());
        assert(t.last() == s.last());
        assert(digits_value(t) == digits_value(t.drop_last()) * 10 + digit_value(t.last()));
        lemma_digits_prepend(d, s.drop_last());
        let a = digit_value(d);
        let p = pow10((s.len() - 1) as nat);
        assert(pow10(s.len()) == 10 * p);
        assert(digits_value(s) == digits_value(s.drop_last()) * 10 + digit_value(s.last()));
        assert((a * p + digits_value(s.drop_last())) * 10 + digit_value(s.last()) == a * (10 * p)
            + (digits_value(s.drop_last()) * 10 + digit_value(s.last()))) by (nonlinear_arith);
    } else {
        let t = seq![d] + s;
        assert(t.drop_last() =~= Seq::<char>::empty());
        assert(t.last() == d);
        assert(digits_value(t) == digits_value(t.drop_last()) * 10 + digit_value(t.last()));
        assert(s =~= Seq::<char>::empty());
        assert(digits_value(Seq::<char>::empty()) == 0);
        assert(pow10(0) == 1);
    }
}

proof fn lemma_digits_bound(s: Seq<char>)
    requires
        forall|i: int| 0 <= i < s.len() ==> is_digit(#[trigger] s[i]),
    ensures
        digits_value(s) < pow10(s.len()),
    decreases s.len(),
{
    if s.len() > 0 {
        let t = s.drop_last();
        assert forall|i: int| 0 <= i < t.len() implies is_digit(#[trigger] t[i]) by {
            assert(t[i] == s[i]);
        }
        lemma_digits_bound(t);
        lemma_digit_value(s.last());
    }
}

/// `s` without its trailing repetitions of the two-character `head tail`.
fn strip_suffix_all(s: &str, head: char, tail: char) -> (r: &str)
    ensures
        r@ == strip_suffix_rep(s@, seq![head, tail]),
{
    let n = s.unicode_len();
    let mut b: usize = n;
    let ghost p = seq![head, tail];
    assert(s@.subrange(0, n as int) =~= s@);
    while b >= 2 && s.get_char(b - 2) == head && s.get_char(b - 1) == tail
        invariant
            b <= n,
            n == s@.len(),
            p == seq![head, tail],
            strip_suffix_rep(s@, p) == strip_suffix_rep(s@.subrange(0, b as int), p),
        decreases b,
    {
        let ghost t = s@.subrange(0, b as int);
        assert(t.subrange(t.len() - 2, t.len() as int) =~= p);
        assert(t.subrange(0, t.len() - 2) =~= s@.subrange(0, b - 2));
        b = b - 2;
    }
    proof {
        let t = s@.subrange(0, b as int);
        if t.len() >= 2 {
            assert(t.subrange(t.len() - 2, t.len() as int) != p) by {
                if t.subrange(t.len() - 2, t.len() as int) == p {
                    assert(t.subrange(t.len() - 2, t.len() as int)[0] == head);
                    assert(t.subrange(t.len() - 2, t.len() as int)[1] == tail);
                }
            }
        }
    }
    s.substring_char(0, b)
}

fn lower_eq(c: char, t: char) -> (r: bool)
    requires
        'a' <= t <= 'z',
    ensures
        r == lower_is(c, t),
{
    c == t || (c as u32) + 32 == (t as u32)
}

/// Whether `t[lo..hi]`, ASCII letters lowercased, is the word `w`.
fn word_eq(t: &Vec<char>, lo: usize, hi: usize, w: &Vec<char>) -> (r: bool)
    requires
        lo <= hi <= t@.len(),
        forall|i: int| 0 <= i < w@.len() ==> 'a' <= #[trigger] w@[i] <= 'z',
    ensures
        r == word_is(t@.subrange(lo as int, hi as int), w@),
{
    let ghost sub = t@.subrange(lo as int, hi as int);
    if hi - lo != w.len() {
        return false;
    }
    let mut i: usize = 0;
    while i < w.len()
        invariant
            lo <= hi <= t@.len(),
            hi - lo == w@.len(),
            sub == t@.subrange(lo as int, hi as int),
            i <= w@.len(),
            forall|j: int| 0 <= j < w@.len() ==> 'a' <= #[trigger] w@[j] <= 'z',
            forall|j: int| 0 <= j < i ==> lower_is(#[trigger] sub[j], w@[j]),
        decreases w@.len() - i,
    {
        if !lower_eq(t[lo + i], w[i]) {
            assert(!lower_is(sub[i as int], w@[i as int]));
            return false;
        }
        i = i + 1;
    }
    true
}

fn unit_multiplier(t: &Vec<char>, lo: usize, hi: usize) -> (r: Option<u64>)
    requires
        lo <= hi <= t@.len(),
    ensures
        r.is_some() == multiplier(t@.subrange(lo as int, hi as int)).is_some(),
        r.is_some() ==> r.unwrap() == multiplier(t@.subrange(lo as int, hi as int)).unwrap(),
{
    if hi == lo {
        return Some(1);
    }
    let k = vec!['k'];
    let kb = vec!['k', 'b'];
    let ki = vec!['k', 'i'];
    let kib = vec!['k', 'i', 'b'];
    let m = vec!['m'];
    let mb = vec!['m', 'b'];
    let mi = vec!['m', 'i'];
    let mib = vec!['m', 'i', 'b'];
    let g = vec!['g'];
    let gb = vec!['g', 'b'];
    let gi = vec!['g', 'i'];
    let gib = vec!['g', 'i', 'b'];
    assert(k@ =~= seq!['k'] && kb@ =~= seq!['k', 'b'] && ki@ =~= seq!['k', 'i'] && kib@ =~= seq!['k', 'i', 'b']);
    assert(m@ =~= seq!['m'] && mb@ =~= seq!['m', 'b'] && mi@ =~= seq!['m', 'i'] && mib@ =~= seq!['m', 'i', 'b']);
    assert(g@ =~= seq!['g'] && gb@ =~= seq!['g', 'b'] && gi@ =~= seq!['g', 'i'] && gib@ =~= seq!['g', 'i', 'b']);
    if word_eq(t, lo, hi, &k) || word_eq(t, lo, hi, &kb) {
        Some(1000)
    } else if word_eq(t, lo, hi, &ki) || word_eq(t, lo, hi, &kib) {
        Some(1024)
    } else if word_eq(t, lo, hi, &m) || word_eq(t, lo, hi, &mb) {
        Some(1000000)
    } else if word_eq(t, lo, hi, &mi) || word_eq(t, lo, hi, &mib) {
        Some(1048576)
    } else if word_eq(t, lo, hi, &g) || word_eq(t, lo, hi, &gb) {
        Some(1000000000)
    } else if word_eq(t, lo, hi, &gi) || word_eq(t, lo, hi, &gib) {
        Some(1073741824)
    } else {
        None
    }
}

proof fn lemma_carry_bound(c: int, v: int, p: int)
    requires
        c > 0,
        0 <= v < p,
    ensures
        (c * v) / p < c,
        (c * v) / p >= 0,
{
    vstd::arithmetic::div_mod::lemma_fundamental_div_mod(c * v, p);
    vstd::arithmetic::div_mod::lemma_mod_pos_bound(c * v, p);
    let q = (c * v) / p;
    assert(c * v < c * p) by (nonlinear_arith)
        requires c > 0, v < p;
    assert(q < c) by (nonlinear_arith)
        requires p * q <= c * v, c * v < c * p, p > 0;
    assert(c * v >= 0) by (nonlinear_arith)
        requires c > 0, v >= 0;
    vstd::arithmetic::div_mod::lemma_div_pos_is_pos(c * v, p);
}

/// One step of the right-to-left long multiplication of a decimal fraction.
proof fn lemma_carry_step(c: int, d: int, v: int, p: int)
    requires
        c > 0,
        0 <= d,
        0 <= v < p,
    ensures
        (c * (d * p + v)) / (10 * p) == (c * d + (c * v) / p) / 10,
{
    let x = c * (d * p + v);
    assert(x == c * v + (c * d) * p) by (nonlinear_arith)
        requires x == c * (d * p + v);
    assert(x >= 0) by (nonlinear_arith)
        requires x == c * (d * p + v), c > 0, d >= 0, v >= 0, p > 0;
    vstd::arithmetic::div_mod::lemma_div_denominator(x, p, 10);
    vstd::arithmetic::div_mod::lemma_hoist_over_denominator(c * v, c * d, p as nat);
    assert(p * 10 == 10 * p);
}

/// Reads a bandwidth limit such as `50M/s`, `1.5GiB/s` or `800kbps`
/// (see `parsed_rate`).
pub fn parse_bandwidth_limit(input: &str) -> (r: Result<u64, RateError>)
    ensures
        r == parsed_rate(input@),
{
    let t0 = trim(input);
    let t1 = strip_suffix_all(t0, '/', 's');
    let t2 = strip_suffix_all(t1, 'p', 's');
    let norm = trim(t2);
    let n = norm.unicode_len();
    if n == 0 {
        return Err(RateError::Empty);
    }
    let mut num: Vec<char> = Vec::new();
    let mut suf: Vec<char> = Vec::new();
    let mut i: usize = 0;
    while i < n
        invariant
            n == norm@.len(),
            i <= n,
            num@ == keep(norm@.take(i as int), true),
            suf@ == keep(norm@.take(i as int), false),
            forall|k: int| 0 <= k < num@.len() ==> is_num_char(#[trigger] num@[k]),
        decreases n - i,
    {
        assert(norm@.take(i + 1).drop_last() =~= norm@.take(i as int));
        let c = norm.get_char(i);
        if ('0' <= c && c <= '9') || c == '.' {
            num.push(c);
        } else {
            suf.push(c);
        }
        assert(num@ =~= keep(norm@.take(i + 1), true));
        assert(suf@ =~= keep(norm@.take(i + 1), false));
        i = i + 1;
    }
    assert(norm@.take(n as int) =~= norm@);
    let nn = num.len();
    let mut dots: usize = 0;
    let mut p: usize = nn;
    let mut j: usize = 0;
    while j < nn
        invariant
            nn == num@.len(),
            j <= nn,
            dots == count_char(num@.take(j as int), '.'),
            dots <= j,
            dots == 0 ==> p == nn && forall|k: int| 0 <= k < j ==> num@[k] != '.',
            dots >= 1 ==> p < j && num@[p as int] == '.' && forall|k: int| 0 <= k < p ==> num@[k] != '.',
            dots == 1 ==> forall|k: int| 0 <= k < j && num@[k] == '.' ==> k == p,
        decreases nn - j,
    {
        assert(num@.take(j + 1).drop_last() =~= num@.take(j as int));
        if num[j] == '.' {
            if dots == 0 {
                p = j;
            }
            dots = dots + 1;
        }
        j = j + 1;
    }
    assert(num@.take(nn as int) =~= num@);
    if dots > 1 || nn <= dots {
        return Err(RateError::InvalidNumber);
    }
    proof {
        lemma_find_char_at(num@, '.', p as int);
    }
    let sn = suf.len();
    let mut a: usize = 0;
    assert(suf@.subrange(0, sn as int) =~= suf@);
    while a < sn && is_whitespace(suf[a])
        invariant
            a <= sn,
            sn == suf@.len(),
            trim_start(suf@) == trim_start(suf@.subrange(a as int, sn as int)),
        decreases sn - a,
    {
        assert(suf@.subrange(a as int, sn as int).drop_first() =~= suf@.subrange(a + 1, sn as int));
        a = a + 1;
    }
    let mut b: usize = sn;
    while b > a && is_whitespace(suf[b - 1])
        invariant
            a <= b <= sn,
            sn == suf@.len(),
            trimmed(suf@) == trim_end(suf@.subrange(a as int, b as int)),
        decreases b,
    {
        assert(suf@.subrange(a as int, b as int).drop_last() =~= suf@.subrange(a as int, b - 1));
        b = b - 1;
    }
    let m = match unit_multiplier(&suf, a, b) {
        None => return Err(RateError::UnsupportedSuffix),
        Some(m) => m,
    };
    let ghost int_digits = num@.subrange(0, p as int);
    let mut ival: u128 = 0;
    let mut big = false;
    let mut k: usize = 0;
    while k < p
        invariant
            p <= nn,
            nn == num@.len(),
            k <= p,
            forall|q: int| 0 <= q < p ==> num@[q] != '.',
            forall|q: int| 0 <= q < num@.len() ==> is_num_char(#[trigger] num@[q]),
            !big ==> ival == digits_value(num@.subrange(0, k as int)) && ival < 0x1_0000_0000_0000_0000,
            big ==> digits_value(num@.subrange(0, k as int)) >= 0x1_0000_0000_0000_0000,
        decreases p - k,
    {
        let ghost s1 = num@.subrange(0, k + 1);
        assert(s1.drop_last() =~= num@.subrange(0, k as int));
        assert(is_num_char(num@[k as int]));
        let d = (num[k] as u32 - '0' as u32) as u128;
        assert(digits_value(s1) == digits_value(num@.subrange(0, k as int)) * 10 + d);
        if !big {
            let v = ival * 10 + d;
            if v >= 0x1_0000_0000_0000_0000 {
                big = true;
            } else {
                ival = v;
            }
        }
        k = k + 1;
    }
    let start: usize = if p < nn { p + 1 } else { nn };
    let ghost frac = if p < nn { num@.subrange(p + 1, nn as int) } else { Seq::<char>::empty() };
    assert(frac =~= num@.subrange(start as int, nn as int));
    let c2: u128 = 2 * (m as u128);
    let mut carry: u128 = 0;
    let mut j: usize = nn;
    assert(num@.subrange(nn as int, nn as int) =~= Seq::<char>::empty());
    assert(digits_value(num@.subrange(nn as int, nn as int)) == 0);
    assert(pow10(0) == 1);
    assert(c2 * 0 == 0);
    while j > start
        invariant
            start <= j <= nn,
            nn == num@.len(),
            p < nn ==> start == p + 1,
            p == nn ==> start == nn,
            dots <= 1,
            dots == 1 ==> forall|q: int| 0 <= q < nn && num@[q] == '.' ==> q == p,
            dots == 0 ==> forall|q: int| 0 <= q < nn ==> num@[q] != '.',
            forall|q: int| 0 <= q < num@.len() ==> is_num_char(#[trigger] num@[q]),
            1 <= m <= 1073741824,
            c2 == 2 * m,
            carry == (c2 * digits_value(num@.subrange(j as int, nn as int))) / (pow10(
                (nn - j) as nat,
            ) as int),
            carry < c2,
        decreases j,
    {
        let ghost sj = num@.subrange(j as int, nn as int);
        let ghost sj1 = num@.subrange(j - 1, nn as int);
        assert(sj1 =~= seq![num@[j - 1]] + sj);
        assert(is_num_char(num@[j - 1]));
        assert(num@[j - 1] != '.');
        let d = (num[j - 1] as u32 - '0' as u32) as u128;
        proof {
            lemma_digits_prepend(num@[j - 1], sj);
            assert forall|q: int| 0 <= q < sj.len() implies is_digit(#[trigger] sj[q]) by {
                assert(sj[q] == num@[j + q]);
                assert(is_num_char(num@[j + q]));
            }
            lemma_digits_bound(sj);
            lemma_carry_step(c2 as int, d as int, digits_value(sj) as int, pow10(sj.len()) as int);
            assert(pow10((nn - (j - 1)) as nat) == 10 * pow10((nn - j) as nat));
            assert(sj1.len() == sj.len() + 1);
            lemma_digits_bound(sj1.subrange(1, sj1.len() as int));
            assert forall|q: int| 0 <= q < sj1.len() implies is_digit(#[trigger] sj1[q]) by {
                assert(sj1[q] == num@[j - 1 + q]);
                assert(is_num_char(num@[j - 1 + q]));
            }
            lemma_digits_bound(sj1);
            lemma_carry_bound(c2 as int, digits_value(sj1) as int, pow10(sj1.len()) as int);
        }
        carry = (c2 * d + carry) / 10;
        j = j - 1;
    }
    let half = (carry + 1) / 2;
    proof {
        let f = digits_value(frac);
        let pk = pow10(frac.len());
        let x = 2 * f * m + pk;
        assert(c2 * f == 2 * f * m) by (nonlinear_arith)
            requires c2 == 2 * m;
        assert(2 * f * m >= 0) by (nonlinear_arith)
            requires f >= 0, m >= 1;
        assert(pk > 0) by {
            lemma_pow10_pos(frac.len());
        }
        vstd::arithmetic::div_mod::lemma_div_plus_one(2 * f * m, pk as int);
        vstd::arithmetic::div_mod::lemma_div_denominator(x as int, pk as int, 2);
        assert(pk * 2 == 2 * pk);
    }
    if big {
        proof {
            assert(digits_value(int_digits) * m >= digits_value(int_digits)) by (nonlinear_arith)
                requires m >= 1;
        }
        return Ok(u64::MAX);
    }
    assert(ival * m <= 0xffff_ffff_ffff_ffff * 1073741824) by (nonlinear_arith)
        requires ival < 0x1_0000_0000_0000_0000, m <= 1073741824;
    let r = ival * (m as u128) + half;
    if r == 0 {
        return Err(RateError::NotPositive);
    }
    if r > u64::MAX as u128 {
        Ok(u64::MAX)
    } else {
        Ok(r as u64)
    }
}

proof fn lemma_pow10_pos(n: nat)
    ensures
        pow10(n) > 0,
    decreases n,
{
    if n > 0 {
        lemma_pow10_pos((n - 1) as nat);
    }
}

} // verus!
