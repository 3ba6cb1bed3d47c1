//! Numbers that are written as text can be read back.
use vstd::arithmetic::power::pow;
use vstd::prelude::*;
use crate::mm::text::{dec_text, hash_hex, hex_digit, hex_text, short_hex_text};

verus! {

/// The value of a digit.
pub open spec fn digit_value(c: char) -> int {
    if '0' <= c <= '9' {
        c as int - '0' as int
    } else if 'a' <= c <= 'f' {
        c as int - 'a' as int + 10
    } else {
        -1
    }
}

/// The number that a text of digits stands for, the most significant digit first.
pub open spec fn number(s: Seq<char>, base: int) -> int
    decreases s.len(),
{
    if s.len() == 0 {
        0
    } else {
        number(s.drop_last(), base) * base + digit_value(s.last())
    }
}

proof fn lemma_digit(d: int)
    requires
        0 <= d < 16,
    ensures
        hex_digit(d).len() == 1,
        digit_value(hex_digit(d)[0]) == d,
{
    reveal_strlit("0");
    reveal_strlit("1");
    reveal_strlit("2");
    reveal_strlit("3");
    reveal_strlit("4");
    reveal_strlit("5");
    reveal_strlit("6");
    reveal_strlit("7");
    reveal_strlit("8");
    reveal_strlit("9");
    reveal_strlit("a");
    reveal_strlit("b");
    reveal_strlit("c");
    reveal_strlit("d");
    reveal_strlit("e");
    reveal_strlit("f");
}

/// One more digit behind a text.
proof fn lemma_append_digit(s: Seq<char>, d: int, base: int)
    requires
        0 <= d < 16,
    ensures
        (s + hex_digit(d)).len() == s.len() + 1,
        number(s + hex_digit(d), base) == number(s, base) * base + d,
        s.len() > 0 ==> (s + hex_digit(d))[0] == s[0],
{
    lemma_digit(d);
    let t = s + hex_digit(d);
    assert(t.drop_last() =~= s);
    assert(t.last() == hex_digit(d)[0]);
}

/// A number of `n` hexadecimal digits is written with `n` digits, and reads back.
pub proof fn law_hex_reads_back(v: int, n: nat)
    requires
        0 <= v < pow(16, n),
    ensures
        hex_text(v, n).len() == n,
        number(hex_text(v, n), 16) == v,
    decreases n,
{
    reveal(pow);
    if n > 0 {
        assert(pow(16, n) == 16 * pow(16, (n - 1) as nat));
        law_hex_reads_back(v / 16, (n - 1) as nat);
        lemma_append_digit(hex_text(v / 16, (n - 1) as nat), v % 16, 16);
    }
}

/// Every 64-bit number has sixteen hexadecimal digits.
pub proof fn law_sixteen_digits_are_enough(v: u64)
    ensures
        hex_text(v as int, 16).len() == 16,
        number(hex_text(v as int, 16), 16) == v,
{
    assert(pow(16, 16) == 0x1_0000_0000_0000_0000) by {
        reveal_with_fuel(pow, 17);
    }
    law_hex_reads_back(v as int, 16);
}

/// A hexadecimal number without padding reads back, and starts with a zero only where it is one.
pub proof fn law_short_hex_reads_back(v: nat)
    ensures
        number(short_hex_text(v), 16) == v,
        short_hex_text(v).len() >= 1,
        short_hex_text(v)[0] == '0' ==> v == 0,
    decreases v,
{
    if v < 16 {
        lemma_digit(v as int);
        let t = hex_digit(v as int);
        assert(t.drop_last() =~= Seq::<char>::empty());
        assert(number(t.drop_last(), 16) == 0);
    } else {
        law_short_hex_reads_back(v / 16);
        lemma_append_digit(short_hex_text(v / 16), (v % 16) as int, 16);
    }
}

/// It has `0x` in front where that is asked for.
pub proof fn law_marked_hex(v: u64)
    ensures
        hash_hex(v).len() >= 3,
        hash_hex(v)[0] == '0',
        hash_hex(v)[1] == 'x',
        number(hash_hex(v).skip(2), 16) == v,
{
    reveal_strlit("0x");
    law_short_hex_reads_back(v as nat);
    assert(hash_hex(v).skip(2) =~= short_hex_text(v as nat));
}

/// A decimal number reads back, and starts with a zero only where it is one.
pub proof fn law_decimal_reads_back(v: nat)
    ensures
        number(dec_text(v), 10) == v,
        dec_text(v).len() >= 1,
        dec_text(v)[0] == '0' ==> v == 0,
    decreases v,
{
    if v < 10 {
        lemma_digit(v as int);
        let t = hex_digit(v as int);
        assert(t.drop_last() =~= Seq::<char>::empty());
        assert(number(t.drop_last(), 10) == 0);
    } else {
        law_decimal_reads_back(v / 10);
        lemma_append_digit(dec_text(v / 10), (v % 10) as int, 10);
    }
}

} // verus!
