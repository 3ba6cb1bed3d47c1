//! Text for people: numbers.
use vstd::prelude::*;
use vstd::string::*;

verus! {

/// The hexadecimal digit for a value below 16.
pub open spec fn hex_digit(d: int) -> Seq<char> {
    if d == 0 {
        "0"@
    } else if d == 1 {
        "1"@
    } else if d == 2 {
        "2"@
    } else if d == 3 {
        "3"@
    } else if d == 4 {
        "4"@
    } else if d == 5 {
        "5"@
    } else if d == 6 {
        "6"@
    } else if d == 7 {
        "7"@
    } else if d == 8 {
        "8"@
    } else if d == 9 {
        "9"@
    } else if d == 10 {
        "a"@
    } else if d == 11 {
        "b"@
    } else if d == 12 {
        "c"@
    } else if d == 13 {
        "d"@
    } else if d == 14 {
        "e"@
    } else {
        "f"@
    }
}

/// The last `n` hexadecimal digits of `v`.
pub open spec fn hex_text(v: int, n: nat) -> Seq<char>
    decreases n,
{
    if n == 0 {
        Seq::empty()
    } else {
        hex_text(v / 16, (n - 1) as nat) + hex_digit(v % 16)
    }
}

fn digit(d: u64) -> (r: &'static str)
    requires
        d < 16,
    ensures
        r@ == hex_digit(d as int),
{
    if d == 0 {
        "0"
    } else if d == 1 {
        "1"
    } else if d == 2 {
        "2"
    } else if d == 3 {
        "3"
    } else if d == 4 {
        "4"
    } else if d == 5 {
        "5"
    } else if d == 6 {
        "6"
    } else if d == 7 {
        "7"
    } else if d == 8 {
        "8"
    } else if d == 9 {
        "9"
    } else if d == 10 {
        "a"
    } else if d == 11 {
        "b"
    } else if d == 12 {
        "c"
    } else if d == 13 {
        "d"
    } else if d == 14 {
        "e"
    } else {
        "f"
    }
}

/// Appends the last `n` hexadecimal digits of `v`.
pub fn append_hex(out: &mut String, v: u64, n: u64)
    ensures
        final(out)@ == old(out)@ + hex_text(v as int, n as nat),
    decreases n,
{
    if n > 0 {
        append_hex(out, v / 16, n - 1);
        out.append(digit(v % 16));
        assert(out@ =~= old(out)@ + hex_text(v as int, n as nat));
    } else {
        assert(out@ =~= old(out)@ + hex_text(v as int, 0));
    }
}

/// The hexadecimal digits of `v`, as few as will do.
pub open spec fn short_hex_text(v: nat) -> Seq<char>
    decreases v,
{
    if v < 16 {
        hex_digit(v as int)
    } else {
        short_hex_text(v / 16) + hex_digit((v % 16) as int)
    }
}

/// The number in hexadecimal, marked as such.
pub open spec fn hash_hex(v: u64) -> Seq<char> {
    "0x"@ + short_hex_text(v as nat)
}

/// The decimal digits of `v`, as few as will do.
pub open spec fn dec_text(v: nat) -> Seq<char>
    decreases v,
{
    if v < 10 {
        hex_digit(v as int)
    } else {
        dec_text(v / 10) + hex_digit((v % 10) as int)
    }
}

/// Appends the hexadecimal digits of `v`, as few as will do.
pub fn append_short_hex(out: &mut String, v: u64)
    ensures
        final(out)@ == old(out)@ + short_hex_text(v as nat),
    decreases v,
{
    if v >= 16 {
        append_short_hex(out, v / 16);
    }
    out.append(digit(v % 16));
    assert(out@ =~= old(out)@ + short_hex_text(v as nat));
}

/// Appends the number in hexadecimal, marked as such.
pub fn append_hash_hex(out: &mut String, v: u64)
    ensures
        final(out)@ == old(out)@ + hash_hex(v),
{
    out.append("0x");
    append_short_hex(out, v);
    assert(out@ =~= old(out)@ + hash_hex(v));
}

/// Appends the decimal digits of `v`, as few as will do.
pub fn append_dec(out: &mut String, v: u64)
    ensures
        final(out)@ == old(out)@ + dec_text(v as nat),
    decreases v,
{
    if v >= 10 {
        append_dec(out, v / 10);
    }
    out.append(digit(v % 10));
    assert(out@ =~= old(out)@ + dec_text(v as nat));
}

} // verus!
