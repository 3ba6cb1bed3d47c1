//! Memory gives back what was written: words, bytes and whole frames.
use vstd::arithmetic::div_mod::lemma_div_denominator;
use vstd::prelude::*;
use crate::mm::physmem::{
    byte_at, byte_of, data_byte, frame_words, page_from, qword_at, set_slot, slot, with_frame,
    word_at, word_from, zero_frame,
};

verus! {

/// A word that was written is read back; no other word changes.
pub proof fn law_written_word_is_read(
    mem: Seq<u64>,
    table: u64,
    idx: int,
    v: u64,
    other: u64,
    j: int,
)
    requires
        0 <= idx < 512,
        0 <= j < 512,
        table as int / 8 + idx < mem.len(),
    ensures
        slot(set_slot(mem, table, idx, v), table, idx) == v,
        other as int / 8 + j != table as int / 8 + idx ==> slot(
            set_slot(mem, table, idx, v),
            other,
            j,
        ) == slot(mem, other, j),
        set_slot(mem, table, idx, v).len() == mem.len(),
        table % 4096 == 0 && other % 4096 == 0 && (other != table || j != idx) ==> slot(
            set_slot(mem, table, idx, v),
            other,
            j,
        ) == slot(mem, other, j),
{
    if table % 4096 == 0 && other % 4096 == 0 && other != table {
        assert(other as int / 8 + j != table as int / 8 + idx);
    }
}

/// A frame that was written is read back; no other frame changes.
pub proof fn law_written_frame_is_read(
    mem: Seq<u64>,
    phys: u64,
    contents: Seq<u64>,
    other: u64,
    i: int,
)
    requires
        phys % 4096 == 0,
        other % 4096 == 0,
        phys as int / 8 + 512 <= mem.len(),
        contents.len() == 512,
        0 <= i < 512,
    ensures
        slot(with_frame(mem, phys, contents), phys, i) == contents[i],
        other != phys ==> slot(with_frame(mem, phys, contents), other, i) == slot(mem, other, i),
        frame_words(with_frame(mem, phys, contents), phys) == contents,
        frame_words(mem, phys).len() == 512,
        frame_words(mem, phys)[i] == slot(mem, phys, i),
        zero_frame().len() == 512,
        zero_frame()[i] == 0,
{
    assert(frame_words(with_frame(mem, phys, contents), phys) =~= contents);
}

/// Outside of memory everything reads as zero.
pub proof fn law_outside_memory_reads_zero(mem: Seq<u64>, table: u64, idx: int)
    requires
        idx >= 0,
        table as int / 8 + idx >= mem.len(),
    ensures
        slot(mem, table, idx) == 0,
        byte_at(mem, table + 8 * idx) == 0,
{
    assert((table + 8 * idx) / 8 == table as int / 8 + idx);
    assert(byte_of(0, table as int % 8) == 0);
}

/// A word is made of its eight bytes, the lowest first.
pub proof fn law_word_is_its_bytes(w: u64)
    ensures
        w == byte_of(w, 0) + 0x100 * byte_of(w, 1) + 0x1_0000 * byte_of(w, 2) + 0x100_0000
            * byte_of(w, 3) + 0x1_0000_0000 * byte_of(w, 4) + 0x100_0000_0000 * byte_of(w, 5)
            + 0x1_0000_0000_0000 * byte_of(w, 6) + 0x100_0000_0000_0000 * byte_of(w, 7),
{
    lemma_shifts(w as int);
    let w1 = w as int / 0x100;
    let w2 = w1 / 0x100;
    let w3 = w2 / 0x100;
    let w4 = w3 / 0x100;
    let w5 = w4 / 0x100;
    let w6 = w5 / 0x100;
    assert(byte_of(w, 1) == w1 % 0x100);
    assert(byte_of(w, 2) == w2 % 0x100);
    assert(byte_of(w, 3) == w3 % 0x100);
    assert(byte_of(w, 4) == w4 % 0x100);
    assert(byte_of(w, 5) == w5 % 0x100);
    assert(byte_of(w, 6) == w6 % 0x100);
    assert(byte_of(w, 7) == w6 / 0x100);
}

/// A shift by several bytes is several shifts by one.
proof fn lemma_shifts(w: int)
    requires
        w >= 0,
    ensures
        ({
            let w2 = w / 0x100 / 0x100;
            let w3 = w2 / 0x100;
            let w4 = w3 / 0x100;
            let w5 = w4 / 0x100;
            let w6 = w5 / 0x100;
            &&& w / 0x1_0000 == w2
            &&& w / 0x100_0000 == w3
            &&& w / 0x1_0000_0000 == w4
            &&& w / 0x100_0000_0000 == w5
            &&& w / 0x1_0000_0000_0000 == w6
            &&& w / 0x100_0000_0000_0000 == w6 / 0x100
        }),
{
    lemma_div_denominator(w, 0x100, 0x100);
    lemma_div_denominator(w, 0x1_0000, 0x100);
    lemma_div_denominator(w, 0x100_0000, 0x100);
    lemma_div_denominator(w, 0x1_0000_0000, 0x100);
    lemma_div_denominator(w, 0x100_0000_0000, 0x100);
    lemma_div_denominator(w, 0x1_0000_0000_0000, 0x100);
}

/// The byte at an address is the one of its word, and the eight bytes at a word's address are
/// the word.
pub proof fn law_aligned_bytes_are_the_word(mem: Seq<u64>, k: int)
    requires
        k >= 0,
    ensures
        byte_at(mem, 8 * k) == word_at(mem, k) % 0x100,
        byte_at(mem, 8 * k + 7) == word_at(mem, k) / 0x100_0000_0000_0000,
        qword_at(mem, 8 * k) == word_at(mem, k),
{
    let w = word_at(mem, k);
    let d = Seq::new(8, |i: int| byte_at(mem, 8 * k + i));
    law_word_is_its_bytes(w);
    assert forall|i: int| 0 <= i < 8 implies #[trigger] data_byte(d, i) == byte_of(w, i) by {
        assert((8 * k + i) / 8 == k);
        assert((8 * k + i) % 8 == i);
        assert(d[i] == byte_at(mem, 8 * k + i));
    }
    assert(d[0] == byte_of(w, 0));
    assert(byte_at(mem, 8 * k + 7) == d[7]);
}

/// The eight bytes at any address, the lowest first.
pub proof fn law_qword_is_its_bytes(mem: Seq<u64>, at: int)
    requires
        at >= 0,
    ensures
        qword_at(mem, at) == byte_at(mem, at) + 0x100 * byte_at(mem, at + 1) + 0x1_0000 * byte_at(
            mem,
            at + 2,
        ) + 0x100_0000 * byte_at(mem, at + 3) + 0x1_0000_0000 * byte_at(mem, at + 4)
            + 0x100_0000_0000 * byte_at(mem, at + 5) + 0x1_0000_0000_0000 * byte_at(mem, at + 6)
            + 0x100_0000_0000_0000 * byte_at(mem, at + 7),
{
    let d = Seq::new(8, |i: int| byte_at(mem, at + i));
    assert forall|i: int| 0 <= i < 8 implies #[trigger] data_byte(d, i) == byte_at(mem, at + i) by {
        assert(d[i] == byte_at(mem, at + i));
    }
}

/// A page that is filled from data holds its bytes in order, from the given one on, and zeros
/// behind its end.
pub proof fn law_page_holds_the_data(data: Seq<u8>, from: int, n: int)
    requires
        from >= 0,
        0 <= n < 4096,
    ensures
        page_from(data, from).len() == 512,
        byte_of(page_from(data, from)[n / 8], n % 8) == if from + n < data.len() {
            data[from + n]
        } else {
            0
        },
{
    lemma_word_bytes(data, from + 8 * (n / 8), n % 8);
    assert(page_from(data, from)[n / 8] == word_from(data, from + 8 * (n / 8)));
    assert(from + 8 * (n / 8) + n % 8 == from + n);
}

proof fn lemma_word_bytes(data: Seq<u8>, at: int, i: int)
    requires
        at >= 0,
        0 <= i < 8,
    ensures
        byte_of(word_from(data, at), i) == data_byte(data, at + i),
{
    lemma_eight_bytes(
        data_byte(data, at) as int,
        data_byte(data, at + 1) as int,
        data_byte(data, at + 2) as int,
        data_byte(data, at + 3) as int,
        data_byte(data, at + 4) as int,
        data_byte(data, at + 5) as int,
        data_byte(data, at + 6) as int,
        data_byte(data, at + 7) as int,
    );
}

proof fn lemma_eight_bytes(
    b0: int,
    b1: int,
    b2: int,
    b3: int,
    b4: int,
    b5: int,
    b6: int,
    b7: int,
)
    requires
        0 <= b0 < 0x100,
        0 <= b1 < 0x100,
        0 <= b2 < 0x100,
        0 <= b3 < 0x100,
        0 <= b4 < 0x100,
        0 <= b5 < 0x100,
        0 <= b6 < 0x100,
        0 <= b7 < 0x100,
    ensures
        ({
            let w = b0 + b1 * 0x100 + b2 * 0x1_0000 + b3 * 0x100_0000 + b4 * 0x1_0000_0000 + b5
                * 0x100_0000_0000 + b6 * 0x1_0000_0000_0000 + b7 * 0x100_0000_0000_0000;
            &&& 0 <= w <= u64::MAX
            &&& w % 0x100 == b0
            &&& w / 0x100 % 0x100 == b1
            &&& w / 0x1_0000 % 0x100 == b2
            &&& w / 0x100_0000 % 0x100 == b3
            &&& w / 0x1_0000_0000 % 0x100 == b4
            &&& w / 0x100_0000_0000 % 0x100 == b5
            &&& w / 0x1_0000_0000_0000 % 0x100 == b6
            &&& w / 0x100_0000_0000_0000 == b7
        }),
{
    let t6 = b6 + 0x100 * b7;
    let t5 = b5 + 0x100 * t6;
    let t4 = b4 + 0x100 * t5;
    let t3 = b3 + 0x100 * t4;
    let t2 = b2 + 0x100 * t3;
    let t1 = b1 + 0x100 * t2;
    let w = b0 + 0x100 * t1;
    lemma_shifts(w);
    assert(w / 0x100 == t1);
    assert(t1 / 0x100 == t2);
    assert(t2 / 0x100 == t3);
    assert(t3 / 0x100 == t4);
    assert(t4 / 0x100 == t5);
    assert(t5 / 0x100 == t6);
}

} // verus!
