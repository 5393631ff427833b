use vstd::prelude::*;

use crate::calendar::{digit_char, Date};
use crate::text::{lower_of, lowercase};

verus! {

/// The text of a decimal digit.
pub(crate) fn digit_str(v: u32) -> (r: &'static str)
    requires
        v < 10,
    ensures
        r@ == seq![digit_char(v as int)],
{
    proof {
        reveal_strlit("0");
        reveal_strlit("1");
        reveal_strlit("2");
        reveal_strlit("3");
        reveal_strlit("4");
        reveal_strlit("5");
        reveal_strlit("6");
        reveal_strlit("7");
        reveal_strlit("8");
        reveal_strlit("9");
    }
    match v {
        0 => "0",
        1 => "1",
        2 => "2",
        3 => "3",
        4 => "4",
        5 => "5",
        6 => "6",
        7 => "7",
        8 => "8",
        _ => "9",
    }
}

/// The decimal digits of `n`.
pub open spec fn decimal(n: nat) -> Seq<char>
    decreases n,
{
    if n < 10 {
        seq![digit_char(n as int)]
    } else {
        decimal(n / 10).push(digit_char((n % 10) as int))
    }
}

/// `v` as Rust's `{}` writes it.
pub open spec fn signed_decimal(v: int) -> Seq<char> {
    if v < 0 {
        seq!['-'] + decimal((-v) as nat)
    } else {
        decimal(v as nat)
    }
}

/// `v` as Rust's `{:02}` writes it: padded with a zero to two characters.
pub open spec fn two_digits(v: int) -> Seq<char> {
    if 0 <= v < 10 {
        seq!['0', digit_char(v)]
    } else {
        signed_decimal(v)
    }
}

/// Division rounded toward zero, as Rust's `/` on integers.
pub open spec fn trunc_div(a: int, b: int) -> int {
    if a >= 0 {
        a / b
    } else {
        -((-a) / b)
    }
}

/// The remainder of `trunc_div`, as Rust's `%` on integers.
pub open spec fn trunc_rem(a: int, b: int) -> int {
    a - b * trunc_div(a, b)
}

/// A duration of `s` seconds written `{hours}h{minutes:02}m`.
pub open spec fn duration_text(s: int) -> Seq<char> {
    let h = trunc_div(s, 3600);
    let m = trunc_div(trunc_rem(s, 3600), 60);
    signed_decimal(h) + seq!['h'] + two_digits(m) + seq!['m']
}

fn push_decimal(out: &mut String, n: u64)
    ensures
        final(out)@ == old(out)@ + decimal(n as nat),
    decreases n,
{
    let ghost start = out@;
    if n >= 10 {
        push_decimal(out, n / 10);
    }
    out.append(digit_str((n % 10) as u32));
    if n >= 10 {
        assert(out@ =~= start + decimal(n as nat));
    } else {
        assert(out@ =~= start + decimal(n as nat));
    }
}

/// A duration in seconds as hours and minutes: `{hours}h{minutes:02}m`, each cut toward zero.
pub fn format_duration(seconds: i64) -> (r: String)
    ensures
        r@ == duration_text(seconds as int),
{
    let negative = seconds < 0;
    let magnitude: u64 = if negative {
        (0 - (seconds as i128)) as u64
    } else {
        seconds as u64
    };
    let hours = magnitude / 3600;
    let minutes = (magnitude % 3600) / 60;
    let ghost s = seconds as int;
    assert(trunc_div(s, 3600) == if negative { -(hours as int) } else { hours as int });
    assert(trunc_rem(s, 3600) == if negative { -((magnitude % 3600) as int) } else { (magnitude % 3600) as int });
    assert(trunc_div(trunc_rem(s, 3600), 60) == if negative { -(minutes as int) } else { minutes as int });
    let mut out = String::new();
    proof {
        reveal_strlit("-");
        reveal_strlit("h");
        reveal_strlit("m");
        reveal_strlit("0");
    }
    if negative && hours > 0 {
        out.append("-");
    }
    push_decimal(&mut out, hours);
    out.append("h");
    if negative && minutes > 0 {
        out.append("-");
        push_decimal(&mut out, minutes);
    } else if minutes < 10 {
        out.append("0");
        out.append(digit_str(minutes as u32));
    } else {
        push_decimal(&mut out, minutes);
    }
    out.append("m");
    assert(out@ =~= duration_text(s));
    out
}

/// A date written `{month}/{day}`, without padding.
pub fn format_date_short(date: Date) -> (r: String)
    ensures
        r@ == decimal(date.month as nat) + seq!['/'] + decimal(date.day as nat),
{
    let mut out = String::new();
    push_decimal(&mut out, date.month as u64);
    proof {
        reveal_strlit("/");
    }
    out.append("/");
    push_decimal(&mut out, date.day as u64);
    assert(out@ =~= decimal(date.month as nat) + seq!['/'] + decimal(date.day as nat));
    out
}


/// `s` without its leading zeros.
pub open spec fn strip_leading_zeros(s: Seq<char>) -> Seq<char>
    decreases s.len(),
{
    if s.len() > 0 && s[0] == '0' {
        strip_leading_zeros(s.drop_first())
    } else {
        s
    }
}

/// A clock time such as `09:30PM` as the report shows it: without leading zeros, in
/// lowercase (`9:30pm`).
pub fn clock_label(raw: &str) -> (r: String)
    ensures
        r@ == lower_of(strip_leading_zeros(raw@)),
{
    let n = raw.unicode_len();
    let mut i: usize = 0;
    assert(raw@.subrange(0, n as int) =~= raw@);
    while i < n && raw.get_char(i) == '0'
        invariant
            n == raw@.len(),
            i <= n,
            strip_leading_zeros(raw@) == strip_leading_zeros(raw@.subrange(i as int, n as int)),
        decreases n - i,
    {
        let ghost rest = raw@.subrange(i as int, n as int);
        assert(rest.drop_first() =~= raw@.subrange(i + 1, n as int));
        i = i + 1;
    }
    let rest = raw.substring_char(i, n);
    lowercase(rest)
}

} // verus!
