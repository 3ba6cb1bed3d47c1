//! Physical memory as the kernel sees it through its direct map: an array of 64-bit
//! words.
//!
//! Memory that is not installed reads as zero, and what is written there is lost.
use vstd::prelude::*;

verus! {

/// Installed physical memory, from address zero on.
pub struct PhysMem {
    pub words: Vec<u64>,
}

impl View for PhysMem {
    type V = Seq<u64>;

    open spec fn view(&self) -> Seq<u64> {
        self.words@
    }
}

/// Word number `k` of memory.
pub open spec fn word_at(mem: Seq<u64>, k: int) -> u64 {
    if 0 <= k < mem.len() {
        mem[k]
    } else {
        0
    }
}

/// Entry `idx` of the table that starts at physical address `table`.
pub open spec fn slot(mem: Seq<u64>, table: u64, idx: int) -> u64 {
    word_at(mem, table as int / 8 + idx)
}

/// Memory with entry `idx` of the table at `table` replaced.
pub open spec fn set_slot(mem: Seq<u64>, table: u64, idx: int, v: u64) -> Seq<u64> {
    if table as int / 8 + idx < mem.len() {
        mem.update(table as int / 8 + idx, v)
    } else {
        mem
    }
}

/// Memory with the frame at `phys` replaced by 512 words.
pub open spec fn with_frame(mem: Seq<u64>, phys: u64, contents: Seq<u64>) -> Seq<u64> {
    Seq::new(
        mem.len(),
        |k: int|
            if phys as int / 8 <= k < phys as int / 8 + 512 {
                contents[k - phys as int / 8]
            } else {
                mem[k]
            },
    )
}

/// The 512 words of the frame at `phys`.
pub open spec fn frame_words(mem: Seq<u64>, phys: u64) -> Seq<u64> {
    Seq::new(512, |i: int| slot(mem, phys, i))
}

/// A frame of zeros.
pub open spec fn zero_frame() -> Seq<u64> {
    Seq::new(512, |i: int| 0u64)
}

/// Byte `i` of memory; words are little-endian.
pub open spec fn byte_at(mem: Seq<u64>, i: int) -> u8 {
    byte_of(word_at(mem, i / 8), i % 8)
}

/// Byte `i` of a little-endian word.
pub open spec fn byte_of(w: u64, i: int) -> u8 {
    if i == 0 {
        (w % 0x100) as u8
    } else if i == 1 {
        (w / 0x100 % 0x100) as u8
    } else if i == 2 {
        (w / 0x1_0000 % 0x100) as u8
    } else if i == 3 {
        (w / 0x100_0000 % 0x100) as u8
    } else if i == 4 {
        (w / 0x1_0000_0000 % 0x100) as u8
    } else if i == 5 {
        (w / 0x100_0000_0000 % 0x100) as u8
    } else if i == 6 {
        (w / 0x1_0000_0000_0000 % 0x100) as u8
    } else {
        (w / 0x100_0000_0000_0000) as u8
    }
}

/// Byte `i` of a little-endian word.
fn byte_of_word(w: u64, i: u64) -> (b: u8)
    requires
        i < 8,
    ensures
        b == byte_of(w, i as int),
{
    if i == 0 {
        (w % 0x100) as u8
    } else if i == 1 {
        (w / 0x100 % 0x100) as u8
    } else if i == 2 {
        (w / 0x1_0000 % 0x100) as u8
    } else if i == 3 {
        (w / 0x100_0000 % 0x100) as u8
    } else if i == 4 {
        (w / 0x1_0000_0000 % 0x100) as u8
    } else if i == 5 {
        (w / 0x100_0000_0000 % 0x100) as u8
    } else if i == 6 {
        (w / 0x1_0000_0000_0000 % 0x100) as u8
    } else {
        (w / 0x100_0000_0000_0000) as u8
    }
}

/// Byte `i` of `data`; zero past its end.
pub open spec fn data_byte(data: Seq<u8>, i: int) -> u8 {
    if 0 <= i < data.len() {
        data[i]
    } else {
        0
    }
}

/// The little-endian word that starts at byte `at` of `data`, which is continued with
/// zeros.
pub open spec fn word_from(data: Seq<u8>, at: int) -> u64 {
    (data_byte(data, at) + data_byte(data, at + 1) * 0x100 + data_byte(data, at + 2) * 0x1_0000
        + data_byte(data, at + 3) * 0x100_0000 + data_byte(data, at + 4) * 0x1_0000_0000
        + data_byte(data, at + 5) * 0x100_0000_0000 + data_byte(data, at + 6) * 0x1_0000_0000_0000
        + data_byte(data, at + 7) * 0x100_0000_0000_0000) as u64
}

/// The 512 words that start at byte `from` of `data`, which is continued with zeros.
pub open spec fn page_from(data: Seq<u8>, from: int) -> Seq<u64> {
    Seq::new(512, |i: int| word_from(data, from + 8 * i))
}

/// Division by the weight of a byte strips the bytes below it.
proof fn lemma_strip(low: int, high: int, weight: int)
    requires
        weight > 0,
        0 <= low < weight,
        high >= 0,
    ensures
        (low + high * weight) / weight == high,
        (low + high * weight) % weight == low,
{
    vstd::arithmetic::div_mod::lemma_fundamental_div_mod_converse(
        low + high * weight,
        weight,
        high,
        low,
    );
}

/// A word is made of the bytes that went into it.
#[verifier::spinoff_prover]
pub proof fn lemma_word_from(data: Seq<u8>, at: int, i: int)
    requires
        0 <= i < 8,
    ensures
        byte_of(word_from(data, at), i) == data_byte(data, at + i),
{
    let b0 = data_byte(data, at) as int;
    let b1 = data_byte(data, at + 1) as int;
    let b2 = data_byte(data, at + 2) as int;
    let b3 = data_byte(data, at + 3) as int;
    let b4 = data_byte(data, at + 4) as int;
    let b5 = data_byte(data, at + 5) as int;
    let b6 = data_byte(data, at + 6) as int;
    let b7 = data_byte(data, at + 7) as int;
    let h7 = b7;
    let h6 = b6 + h7 * 0x100;
    let h5 = b5 + h6 * 0x100;
    let h4 = b4 + h5 * 0x100;
    let h3 = b3 + h4 * 0x100;
    let h2 = b2 + h3 * 0x100;
    let h1 = b1 + h2 * 0x100;
    let w = b0 + h1 * 0x100;
    assert(w == word_from(data, at));
    lemma_strip(b0, h1, 0x100);
    lemma_strip(b1, h2, 0x100);
    lemma_strip(b2, h3, 0x100);
    lemma_strip(b3, h4, 0x100);
    lemma_strip(b4, h5, 0x100);
    lemma_strip(b5, h6, 0x100);
    lemma_strip(b6, h7, 0x100);
    lemma_strip(b0 + b1 * 0x100, h2, 0x1_0000);
    lemma_strip(b0 + b1 * 0x100 + b2 * 0x1_0000, h3, 0x100_0000);
    let low4 = b0 + b1 * 0x100 + b2 * 0x1_0000 + b3 * 0x100_0000;
    lemma_strip(low4, h4, 0x1_0000_0000);
    let low5 = low4 + b4 * 0x1_0000_0000;
    lemma_strip(low5, h5, 0x100_0000_0000);
    let low6 = low5 + b5 * 0x100_0000_0000;
    lemma_strip(low6, h6, 0x1_0000_0000_0000);
    lemma_strip(low6 + b6 * 0x1_0000_0000_0000, h7, 0x100_0000_0000_0000);
}

fn data_byte_of(data: &Vec<u8>, i: u64) -> (b: u8)
    ensures
        b == data_byte(data@, i as int),
{
    if i < data.len() as u64 {
        data[i as usize]
    } else {
        0
    }
}

/// The page of words that starts at byte `from` of `data`, continued with zeros.
pub fn page_of_bytes(data: &Vec<u8>, from: u64) -> (r: Vec<u64>)
    requires
        from <= u64::MAX - 4096,
    ensures
        r@ == page_from(data@, from as int),
{
    let mut r: Vec<u64> = Vec::new();
    let mut i: u64 = 0;
    while i < 512
        invariant
            i <= 512,
            from <= u64::MAX - 4096,
            r@ =~= page_from(data@, from as int).take(i as int),
        decreases 512 - i,
    {
        let at: u64 = from + 8 * i;
        let w: u64 = data_byte_of(data, at) as u64 + data_byte_of(data, at + 1) as u64 * 0x100
            + data_byte_of(data, at + 2) as u64 * 0x1_0000 + data_byte_of(data, at + 3) as u64
            * 0x100_0000 + data_byte_of(data, at + 4) as u64 * 0x1_0000_0000 + data_byte_of(
            data,
            at + 5,
        ) as u64 * 0x100_0000_0000 + data_byte_of(data, at + 6) as u64 * 0x1_0000_0000_0000
            + data_byte_of(data, at + 7) as u64 * 0x100_0000_0000_0000;
        assert(w == word_from(data@, from + 8 * i));
        r.push(w);
        i = i + 1;
    }
    r
}

/// The little-endian word of the eight bytes from address `at` on.
pub open spec fn qword_at(mem: Seq<u64>, at: int) -> u64 {
    word_from(Seq::new(8, |i: int| byte_at(mem, at + i)), 0)
}

impl PhysMem {
    /// Memory of the given number of frames, all zero.
    pub fn new(frames: u64) -> (r: PhysMem)
        requires
            frames <= 0x10_0000,
        ensures
            r@ == Seq::new((frames * 512) as nat, |i: int| 0u64),
    {
        let words: Vec<u64> = vec![0u64; (frames * 512) as usize];
        assert(words@ =~= Seq::new((frames * 512) as nat, |i: int| 0u64));
        PhysMem { words }
    }

    /// Reads entry `idx` of the table at `table`.
    pub fn read(&self, table: u64, idx: u64) -> (v: u64)
        requires
            idx < 512,
        ensures
            v == slot(self@, table, idx as int),
    {
        let k: u64 = table / 8 + idx;
        if k < self.words.len() as u64 {
            self.words[k as usize]
        } else {
            0
        }
    }

    /// Writes entry `idx` of the table at `table`.
    pub fn write(&mut self, table: u64, idx: u64, v: u64)
        requires
            idx < 512,
        ensures
            final(self)@ == set_slot(old(self)@, table, idx as int, v),
    {
        let k: u64 = table / 8 + idx;
        if k < self.words.len() as u64 {
            self.words.set(k as usize, v);
        }
    }

    /// Reads the byte at physical address `phys`.
    pub fn read_byte(&self, phys: u64) -> (b: u8)
        ensures
            b == byte_at(self@, phys as int),
    {
        let k: u64 = phys / 8;
        if k < self.words.len() as u64 {
            byte_of_word(self.words[k as usize], phys % 8)
        } else {
            0
        }
    }

    /// Reads the word at physical address `phys`, aligned or not.
    pub fn read_qword(&self, phys: u64) -> (w: u64)
        requires
            phys <= u64::MAX - 8,
        ensures
            w == qword_at(self@, phys as int),
    {
        let ghost bytes = Seq::new(8, |i: int| byte_at(self@, phys + i));
        let w: u64 = self.read_byte(phys) as u64 + self.read_byte(phys + 1) as u64 * 0x100
            + self.read_byte(phys + 2) as u64 * 0x1_0000 + self.read_byte(phys + 3) as u64
            * 0x100_0000 + self.read_byte(phys + 4) as u64 * 0x1_0000_0000 + self.read_byte(
            phys + 5,
        ) as u64 * 0x100_0000_0000 + self.read_byte(phys + 6) as u64 * 0x1_0000_0000_0000
            + self.read_byte(phys + 7) as u64 * 0x100_0000_0000_0000;
        assert(w == word_from(bytes, 0));
        w
    }

    /// Reads the frame at `phys`.
    pub fn read_frame(&self, phys: u64) -> (r: Vec<u64>)
        ensures
            r@ == frame_words(self@, phys),
    {
        let mut r: Vec<u64> = Vec::new();
        let mut i: u64 = 0;
        while i < 512
            invariant
                i <= 512,
                r@ =~= frame_words(self@, phys).take(i as int),
            decreases 512 - i,
        {
            r.push(self.read(phys, i));
            i = i + 1;
        }
        r
    }

    /// Writes the frame at `phys`.
    pub fn write_frame(&mut self, phys: u64, contents: &Vec<u64>)
        requires
            contents@.len() == 512,
        ensures
            final(self)@ == with_frame(old(self)@, phys, contents@),
    {
        let mut i: u64 = 0;
        while i < 512
            invariant
                i <= 512,
                contents@.len() == 512,
                self@.len() == old(self)@.len(),
                forall|k: int|
                    0 <= k < self@.len() ==> #[trigger] self@[k] == (if phys as int / 8 <= k < phys
                        as int / 8 + i {
                        contents@[k - phys as int / 8]
                    } else {
                        old(self)@[k]
                    }),
            decreases 512 - i,
        {
            let v: u64 = contents[i as usize];
            self.write(phys, i, v);
            i = i + 1;
        }
        assert(self@ =~= with_frame(old(self)@, phys, contents@));
    }

    /// Clears the frame at `phys`.
    pub fn zero_frame(&mut self, phys: u64)
        ensures
            final(self)@ == with_frame(old(self)@, phys, zero_frame()),
    {
        let zeros: Vec<u64> = vec![0u64; 512];
        assert(zeros@ =~= zero_frame());
        self.write_frame(phys, &zeros);
    }
}

} // verus!
