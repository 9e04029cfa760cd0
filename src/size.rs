//! Byte counts for humans: `512 B`, `1.50 KiB`, up to TiB.
use vstd::prelude::*;
use vstd::string::StringExecFns;
use crate::text::{decimal, decimal_string};

verus! {

pub open spec fn pow1024(n: nat) -> nat
    decreases n,
{
    if n == 0 {
        1
    } else {
        1024 * pow1024((n - 1) as nat)
    }
}

/// Index of the largest unit among B, KiB, MiB, GiB, TiB that `v` reaches.
pub open spec fn unit_index(v: nat) -> nat {
    if v < pow1024(1) {
        0
    } else if v < pow1024(2) {
        1
    } else if v < pow1024(3) {
        2
    } else if v < pow1024(4) {
        3
    } else {
        4
    }
}

pub open spec fn unit_name(u: nat) -> Seq<char> {
    if u == 0 {
        seq!['B']
    } else if u == 1 {
        seq!['K', 'i', 'B']
    } else if u == 2 {
        seq!['M', 'i', 'B']
    } else if u == 3 {
        seq!['G', 'i', 'B']
    } else {
        seq!['T', 'i', 'B']
    }
}

/// `v / 1024^u` in hundredths, rounded to nearest, ties to even.
pub open spec fn hundredths(v: nat, u: nat) -> nat {
    let d = pow1024(u) as int;
    let q = ((v * 100) as int) / d;
    let r = ((v * 100) as int) % d;
    if 2 * r > d || (2 * r == d && q % 2 == 1) {
        (q + 1) as nat
    } else {
        q as nat
    }
}

/// `v` in the largest unit it reaches: whole bytes as `N B`, larger units
/// with two decimals, as `N.DD KiB`.
pub open spec fn byte_size_text(v: nat) -> Seq<char> {
    let u = unit_index(v);
    if u == 0 {
        decimal(v) + seq![' ', 'B']
    } else {
        let h = hundredths(v, u);
        decimal(h / 100) + seq!['.'] + decimal((h % 100) / 10) + decimal(h % 10) + seq![' ']
            + unit_name(u)
    }
}

proof fn lemma_pow1024_values()
    ensures
        pow1024(1) == 1024,
        pow1024(2) == 1048576,
        pow1024(3) == 1073741824,
        pow1024(4) == 1099511627776,
{
    reveal_with_fuel(pow1024, 5);
}

pub fn format_bytes(value: u64) -> (r: String)
    ensures
        r@ == byte_size_text(value as nat),
{
    proof {
        lemma_pow1024_values();
    }
    if value < 1024 {
        let mut s = decimal_string(value);
        s.append(" B");
        proof {
            reveal_strlit(" B");
        }
        return s;
    }
    let (d, unit): (u128, &str) = if value < 1048576 {
        (1024, "KiB")
    } else if value < 1073741824 {
        (1048576, "MiB")
    } else if value < 1099511627776 {
        (1073741824, "GiB")
    } else {
        (1099511627776, "TiB")
    };
    proof {
        reveal_strlit("KiB");
        reveal_strlit("MiB");
        reveal_strlit("GiB");
        reveal_strlit("TiB");
    }
    let scaled = value as u128 * 100;
    let q = scaled / d;
    let rem = scaled % d;
    let h = if 2 * rem > d || (2 * rem == d && q % 2 == 1) { q + 1 } else { q };
    assert(h == hundredths(value as nat, unit_index(value as nat)));
    let whole = (h / 100) as u64;
    let tens = ((h % 100) / 10) as u64;
    let ones = (h % 10) as u64;
    let mut s = decimal_string(whole);
    s.append(".");
    let t = decimal_string(tens);
    s.append(t.as_str());
    let o = decimal_string(ones);
    s.append(o.as_str());
    s.append(" ");
    s.append(unit);
    proof {
        reveal_strlit(".");
        reveal_strlit(" ");
    }
    assert(unit@ == unit_name(unit_index(value as nat)));
    s
}

} // verus!
