//! System facts: the queries a placeholder resolves to, and the verified
//! formatting of their raw numbers.

use vstd::prelude::*;
use vstd::arithmetic::div_mod::lemma_div_denominator;
use vstd::arithmetic::div_mod::lemma_fundamental_div_mod;
use vstd::arithmetic::mul::lemma_mul_inequality;
use vstd::string::StringExecFns;

pub mod host;
pub mod memory;
pub mod os;
pub mod uptime;

verus! {

/// The type holding the live system tables.
/// Relies on the sysinfo crate's `System` struct.
#[verifier::external_type_specification]
#[verifier::external_body]
pub struct ExSystem(sysinfo::System);

/// Relies on sysinfo's `System::new`: a system table with nothing
/// refreshed yet.
pub assume_specification[ sysinfo::System::new ]() -> sysinfo::System;

/// Relies on sysinfo's `System::refresh_memory`: loads the machine's
/// current memory numbers into the table.
pub assume_specification[ sysinfo::System::refresh_memory ](s: &mut sysinfo::System);

/// Relies on sysinfo's `System::used_memory`: used memory in bytes, as
/// last refreshed.
pub assume_specification[ sysinfo::System::used_memory ](s: &sysinfo::System) -> u64;

/// Relies on sysinfo's `System::total_memory`: total memory in bytes, as
/// last refreshed.
pub assume_specification[ sysinfo::System::total_memory ](s: &sysinfo::System) -> u64;

/// Relies on sysinfo's `System::uptime`: seconds since the machine booted.
pub assume_specification[ sysinfo::System::uptime ]() -> u64;

/// The character a decimal digit prints as.
pub open spec fn digit(n: nat) -> char {
    if n == 0 {
        '0'
    } else if n == 1 {
        '1'
    } else if n == 2 {
        '2'
    } else if n == 3 {
        '3'
    } else if n == 4 {
        '4'
    } else if n == 5 {
        '5'
    } else if n == 6 {
        '6'
    } else if n == 7 {
        '7'
    } else if n == 8 {
        '8'
    } else {
        '9'
    }
}

/// The decimal digits of `n`, most significant first, no leading zero.
pub open spec fn dec_str(n: nat) -> Seq<char>
    decreases n,
{
    if n < 10 {
        seq![digit(n)]
    } else {
        dec_str(n / 10).push(digit(n % 10))
    }
}

/// A duration in whole seconds, written as days, hours and minutes; a zero
/// part is left out altogether.
pub open spec fn dhm_text(secs: nat) -> Seq<char> {
    let days = secs / 86400;
    let hours = (secs % 86400) / 3600;
    let mins = ((secs % 86400) % 3600) / 60;
    (if days == 0 {
        Seq::<char>::empty()
    } else {
        dec_str(days) + seq!['d', ' ']
    }) + (if hours == 0 {
        Seq::<char>::empty()
    } else {
        dec_str(hours) + seq!['h', ' ']
    }) + (if mins == 0 {
        Seq::<char>::empty()
    } else {
        dec_str(mins) + seq!['m', ' ']
    })
}

pub open spec fn pow1000(e: nat) -> nat
    decreases e,
{
    if e == 0 {
        1
    } else {
        1000 * pow1000((e - 1) as nat)
    }
}

/// Floor of the base-1000 logarithm: the unit step a quantity falls in.
pub open spec fn kb_exp(n: nat) -> nat
    decreases n,
{
    if n < 1000 {
        0
    } else {
        kb_exp(n / 1000) + 1
    }
}

/// The unit name of step `e`, starting from kilobytes.
pub open spec fn unit_text(e: nat) -> Seq<char> {
    if e == 0 {
        seq!['k', 'B']
    } else if e == 1 {
        seq!['M', 'B']
    } else if e == 2 {
        seq!['G', 'B']
    } else if e == 3 {
        seq!['T', 'B']
    } else if e == 4 {
        seq!['P', 'B']
    } else if e == 5 {
        seq!['E', 'B']
    } else if e == 6 {
        seq!['Z', 'B']
    } else {
        seq!['Y', 'B']
    }
}

/// `n` kilobytes written with the largest unit it reaches, at most two
/// decimals, rounded half up, trailing decimal zeros left off.
pub open spec fn kb_text(n: nat) -> Seq<char> {
    if n == 0 {
        seq!['0', ' ', 'k', 'B']
    } else {
        let e = kb_exp(n);
        let d = pow1000(e);
        let h0 = ((n % d) * 200 / d + 1) / 2;
        let whole = n / d + h0 / 100;
        let h = h0 % 100;
        (if h == 0 {
            dec_str(whole)
        } else if h % 10 == 0 {
            dec_str(whole) + seq!['.'] + dec_str(h / 10)
        } else {
            dec_str(whole) + seq!['.', digit(h / 10), digit(h % 10)]
        }) + seq![' '] + unit_text(e)
    }
}

/// A single decimal digit as text.
fn digit_str(d: u64) -> (r: &'static str)
    requires
        d < 10,
    ensures
        r@ == seq![digit(d as nat)],
{
    proof {
        reveal_strlit("0");
        reveal_strlit("1");
        reveal_strlit("2");
        reveal_strlit("3");
        reveal_strlit("4");
        reveal_strlit("5");
        reveal_strlit("6");
        reveal_strlit("7");
        reveal_strlit("8");
        reveal_strlit("9");
    }
    let r = match d {
        0 => "0",
        1 => "1",
        2 => "2",
        3 => "3",
        4 => "4",
        5 => "5",
        6 => "6",
        7 => "7",
        8 => "8",
        _ => "9",
    };
    proof {
        assert(r@ =~= seq![digit(d as nat)]);
    }
    r
}

/// `n` in decimal.
pub fn u64_dec(n: u64) -> (r: String)
    ensures
        r@ == dec_str(n as nat),
    decreases n,
{
    if n < 10 {
        let r = digit_str(n).to_owned();
        proof {
            assert(r@ =~= dec_str(n as nat));
        }
        r
    } else {
        let mut r = u64_dec(n / 10);
        r.append(digit_str(n % 10));
        proof {
            assert(r@ =~= dec_str(n as nat));
        }
        r
    }
}

/// Seconds into the `"<d>d <h>h <m>m "` form used for uptime.
pub fn convert_seconds(input: u64) -> (r: String)
    ensures
        r@ == dhm_text(input as nat),
{
    proof {
        reveal_strlit("d ");
        reveal_strlit("h ");
        reveal_strlit("m ");
    }
    let days = input / 86400;
    let hours = (input % 86400) / 3600;
    let mins = ((input % 86400) % 3600) / 60;
    let mut out = String::new();
    if days != 0 {
        out.append(u64_dec(days).as_str());
        out.append("d ");
        proof {
            assert("d "@ =~= seq!['d', ' ']);
        }
    }
    if hours != 0 {
        out.append(u64_dec(hours).as_str());
        out.append("h ");
        proof {
            assert("h "@ =~= seq!['h', ' ']);
        }
    }
    if mins != 0 {
        out.append(u64_dec(mins).as_str());
        out.append("m ");
        proof {
            assert("m "@ =~= seq!['m', ' ']);
        }
    }
    proof {
        assert(out@ =~= dhm_text(input as nat));
    }
    out
}

proof fn lemma_pow1000_pos(e: nat)
    ensures
        pow1000(e) >= 1,
    decreases e,
{
    if e > 0 {
        lemma_pow1000_pos((e - 1) as nat);
        lemma_mul_inequality(1, pow1000((e - 1) as nat) as int, 1000);
    }
}

/// Division stays under `c` as long as the dividend is under `c * d`.
proof fn lemma_div_lt(x: int, c: int, d: int)
    requires
        0 <= x,
        0 < d,
        x < c * d,
    ensures
        x / d < c,
{
    lemma_fundamental_div_mod(x, d);
    if x / d >= c {
        lemma_mul_inequality(c, x / d, d);
        assert(c * d <= (x / d) * d);
    }
}

/// The unit step is pinned by the bracket `d <= n < 1000 * d`.
proof fn lemma_kb_exp_eq(n: nat, e: nat, d: nat)
    requires
        d == pow1000(e),
        d <= n,
        n < 1000 * d,
    ensures
        kb_exp(n) == e,
    decreases e,
{
    lemma_pow1000_pos(e);
    if e == 0 {
        assert(n < 1000);
    } else {
        let p = pow1000((e - 1) as nat);
        lemma_pow1000_pos((e - 1) as nat);
        assert(d == 1000 * p);
        lemma_mul_inequality(1, p as int, 1000);
        assert(n >= 1000);
        // n / 1000 >= p
        vstd::arithmetic::div_mod::lemma_div_is_ordered(d as int, n as int, 1000);
        vstd::arithmetic::div_mod::lemma_div_by_multiple(p as int, 1000);
        assert(d as int / 1000 == p);
        // n / 1000 < 1000 * p
        lemma_div_lt(n as int, (1000 * p) as int, 1000);
        lemma_kb_exp_eq((n / 1000) as nat, (e - 1) as nat, p);
        assert(kb_exp(n) == kb_exp(n / 1000) + 1);
    }
}

/// Kilobytes into the humanized `"<value> <unit>"` form used for memory.
pub fn convert_kilobytes(num: u64) -> (r: String)
    ensures
        r@ == kb_text(num as nat),
{
    if num == 0 {
        proof {
            reveal_strlit("0 kB");
        }
        let r = String::from_str("0 kB");
        proof {
            assert(r@ =~= kb_text(0));
        }
        return r;
    }
    let mut e: u64 = 0;
    let mut d: u64 = 1;
    let mut x: u64 = num;
    while x >= 1000
        invariant
            num >= 1,
            1 <= d,
            e <= 6,
            d as nat == pow1000(e as nat),
            x as nat == num as nat / d as nat,
            d <= num,
        decreases x,
    {
        proof {
            // num >= 1000 * d, so the new divisor still fits and divides in
            lemma_fundamental_div_mod(num as int, d as int);
            lemma_mul_inequality(1000, x as int, d as int);
            assert(num >= 1000 * (d as int));
            lemma_div_denominator(num as int, d as int, 1000);
            assert(pow1000(0) == 1);
            assert(pow1000(1) == 1000);
            assert(pow1000(2) == 1000000);
            assert(pow1000(3) == 1000000000);
            assert(pow1000(4) == 1000000000000);
            assert(pow1000(5) == 1000000000000000);
            assert(pow1000(6) == 1000000000000000000);
            assert(e < 6);
        }
        x = x / 1000;
        e = e + 1;
        d = d * 1000;
        proof {
            assert(d as nat == pow1000(e as nat));
        }
    }
    proof {
        // the bracket d <= num < 1000 * d pins the exponent
        lemma_fundamental_div_mod(num as int, d as int);
        vstd::arithmetic::div_mod::lemma_mod_division_less_than_divisor(num as int, d as int);
        assert((num as int) < 1000 * (d as int)) by (nonlinear_arith)
            requires
                (num as int) == (d as int) * (x as int) + (num as int) % (d as int),
                ((num as int) % (d as int)) < (d as int),
                x < 1000,
                d >= 1,
        ;
        lemma_kb_exp_eq(num as nat, e as nat, d as nat);
    }
    let whole0 = num / d;
    let rem = num % d;
    let h0_wide = ((rem as u128) * 200 / (d as u128) + 1) / 2;
    proof {
        lemma_div_lt((rem as int) * 200, 200, d as int);
    }
    let h0 = h0_wide as u64;
    let whole = whole0 + h0 / 100;
    let h = h0 % 100;
    proof {
        reveal_strlit(".");
        reveal_strlit(" ");
    }
    let mut out = u64_dec(whole);
    if h != 0 {
        out.append(".");
        proof {
            assert("."@ =~= seq!['.']);
        }
        if h % 10 == 0 {
            out.append(u64_dec(h / 10).as_str());
        } else {
            out.append(digit_str(h / 10));
            out.append(digit_str(h % 10));
        }
    }
    out.append(" ");
    out.append(unit_str(e));
    proof {
        assert(" "@ =~= seq![' ']);
        assert(out@ =~= kb_text(num as nat));
    }
    out
}

/// The unit name of step `e` as text.
fn unit_str(e: u64) -> (r: &'static str)
    ensures
        r@ == unit_text(e as nat),
{
    proof {
        reveal_strlit("kB");
        reveal_strlit("MB");
        reveal_strlit("GB");
        reveal_strlit("TB");
        reveal_strlit("PB");
        reveal_strlit("EB");
        reveal_strlit("ZB");
        reveal_strlit("YB");
    }
    let r = match e {
        0 => "kB",
        1 => "MB",
        2 => "GB",
        3 => "TB",
        4 => "PB",
        5 => "EB",
        6 => "ZB",
        _ => "YB",
    };
    proof {
        assert(r@ =~= unit_text(e as nat));
    }
    r
}

} // verus!
