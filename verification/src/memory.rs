//! Word-addressed memory.
//!
//! 1130 memory is word-addressed: address N refers to a 16-bit word.
//! Default size is 4096 words (8 KB), the smallest configuration in the
//! historical lineup; the constructor accepts any size. Reads outside the
//! memory give 0 and writes outside it are dropped.
//!
//! Byte interfaces serve the decoder, which expects big-endian byte
//! streams. Word N occupies byte addresses (N*2, N*2+1).
use vstd::prelude::*;
use crate::insn::Instruction;
use crate::word::wrap16;

verus! {

/// Word-addressed memory.
#[derive(Debug, Clone)]
pub struct Memory {
    words: Vec<u16>,
}

/// The word at `addr`, or 0 where `addr` lies outside the memory.
pub open spec fn word_at(m: Seq<u16>, addr: u16) -> u16 {
    if (addr as int) < m.len() {
        m[addr as int]
    } else {
        0
    }
}

/// The memory after writing `value` at `addr`: unchanged where `addr`
/// lies outside it.
pub open spec fn store_word(m: Seq<u16>, addr: u16, value: u16) -> Seq<u16> {
    if (addr as int) < m.len() {
        m.update(addr as int, value)
    } else {
        m
    }
}

/// The big-endian word made of the bytes `hi` and `lo`.
pub open spec fn be_word(hi: u8, lo: u8) -> u16 {
    (hi as int * 0x100 + lo as int) as u16
}

/// The high (first, big-endian) byte of a word.
pub open spec fn high_byte(w: u16) -> u8 {
    (w as int / 0x100) as u8
}

/// The low (second, big-endian) byte of a word.
pub open spec fn low_byte(w: u16) -> u8 {
    (w as int % 0x100) as u8
}

/// The word that `load_bytes` places `j` words past its start: the
/// big-endian pair of bytes `2j`, `2j+1`, or, for a trailing odd byte,
/// that byte in the high half with a zero low half.
pub open spec fn loaded_word(bytes: Seq<u8>, j: int) -> u16 {
    if 2 * j + 1 < bytes.len() {
        be_word(bytes[2 * j], bytes[2 * j + 1])
    } else {
        be_word(bytes[2 * j], 0)
    }
}

/// The memory after loading `bytes` as big-endian words from `start`
/// on; words that would fall past the end of the memory are dropped.
pub open spec fn load_image(m: Seq<u16>, start: u16, bytes: Seq<u8>) -> Seq<u16> {
    Seq::new(
        m.len(),
        |i: int|
            if start <= i && 2 * (i - start) < bytes.len() {
                loaded_word(bytes, i - start)
            } else {
                m[i]
            },
    )
}

/// The four bytes, big-endian, of the words at `addr` and `addr + 1`
/// (the second address wrapping around at 2^16).
pub open spec fn fetch_image(m: Seq<u16>, addr: u16) -> Seq<u8> {
    let w0 = word_at(m, addr);
    let w1 = word_at(m, wrap16(addr + 1));
    seq![high_byte(w0), low_byte(w0), high_byte(w1), low_byte(w1)]
}

/// What `decode_at` makes of a decoder's result: the byte count becomes
/// a word count (1 for short, 2 for long), and an error stays as it is.
pub open spec fn decoded_in_words(d: Result<(Instruction, usize), String>) -> Result<
    (Instruction, u16),
    String,
> {
    match d {
        Ok((insn, n)) => Ok((insn, (n / 2) as u16)),
        Err(e) => Err(e),
    }
}

/// `d` is a result that `decode` may give for the four bytes at `addr`
/// of memory `m`, with its byte count turned into a word count.
pub open spec fn decodes<D>(decode: D, m: Seq<u16>, addr: u16, d: Result<(Instruction, u16), String>) -> bool
    where
        D: Fn([u8; 4]) -> Result<(Instruction, usize), String>,
{
    exists|b: [u8; 4], raw: Result<(Instruction, usize), String>|
        b@ == fetch_image(m, addr) && #[trigger] decode.ensures((b,), raw) && d
            == decoded_in_words(raw)
}

/// Reading a word after writing it gives the written value back when
/// the address lies inside the memory, and 0 otherwise; every other word
/// and the size are unchanged.
pub proof fn law_read_after_write(m: Seq<u16>, addr: u16, other: u16, value: u16)
    requires
        other != addr,
    ensures
        word_at(store_word(m, addr, value), addr) == (if (addr as int) < m.len() {
            value
        } else {
            0u16
        }),
        word_at(store_word(m, addr, value), other) == word_at(m, other),
        store_word(m, addr, value).len() == m.len(),
{
}

/// Fetching the bytes at the start of a program that was just loaded
/// gives back its first four bytes, when both words lie inside memory
/// and the second address does not wrap around.
pub proof fn law_load_then_fetch(m: Seq<u16>, start: u16, bytes: Seq<u8>)
    requires
        start < 0xFFFF,
        start as int + 1 < m.len(),
        bytes.len() >= 4,
    ensures
        fetch_image(load_image(m, start, bytes), start) == bytes.subrange(0, 4),
        load_image(m, start, bytes).len() == m.len(),
{
    let l = load_image(m, start, bytes);
    assert(wrap16(start + 1) == start + 1);
    assert(l[start as int] == be_word(bytes[0], bytes[1]));
    assert(l[start + 1] == be_word(bytes[2], bytes[3]));
    assert(fetch_image(l, start) =~= bytes.subrange(0, 4));
}

impl View for Memory {
    type V = Seq<u16>;

    closed spec fn view(&self) -> Seq<u16> {
        self.words@
    }
}

fn word_bytes(w: u16) -> (r: (u8, u8))
    ensures
        r.0 == high_byte(w),
        r.1 == low_byte(w),
{
    let hi = (w >> 8) as u8;
    let lo = (w & 0xFF) as u8;
    assert(hi as int == w as int / 0x100 && lo as int == w as int % 0x100) by (bit_vector)
        requires
            hi == (w >> 8) as u8,
            lo == (w & 0xFF) as u8,
    ;
    (hi, lo)
}

fn bytes_word(hi: u8, lo: u8) -> (w: u16)
    ensures
        w == be_word(hi, lo),
{
    let w = (hi as u16) << 8 | lo as u16;
    assert(w as int == hi as int * 0x100 + lo as int) by (bit_vector)
        requires
            w == (hi as u16) << 8 | lo as u16,
    ;
    w
}

impl Memory {
    /// Allocate `size_words` words, all zero. The 1130 minimum was 4096
    /// words; tests can pick any size.
    pub fn new(size_words: usize) -> (m: Memory)
        ensures
            m@ == Seq::new(size_words as nat, |i: int| 0u16),
    {
        let words = vec![0u16; size_words];
        let m = Memory { words };
        assert(m@ =~= Seq::new(size_words as nat, |i: int| 0u16));
        m
    }

    /// The number of words.
    pub fn size_words(&self) -> (n: usize)
        ensures
            n == self@.len(),
    {
        self.words.len()
    }

    /// The word at `addr`; 0 outside the memory.
    pub fn read_word(&self, addr: u16) -> (w: u16)
        ensures
            w == word_at(self@, addr),
    {
        let i = addr as usize;
        if i < self.words.len() {
            self.words[i]
        } else {
            0
        }
    }

    /// Write `value` at `addr`; a write outside the memory is dropped.
    pub fn write_word(&mut self, addr: u16, value: u16)
        ensures
            final(self)@ == store_word(old(self)@, addr, value),
    {
        let i = addr as usize;
        if i < self.words.len() {
            self.words.set(i, value);
        }
    }

    /// Load a contiguous program at the given word address. Each pair of
    /// bytes becomes one big-endian word; a trailing odd byte goes into
    /// the high half of the next word. Words past the end of the memory
    /// are dropped.
    pub fn load_bytes(&mut self, word_addr: u16, bytes: &[u8])
        ensures
            final(self)@ == load_image(old(self)@, word_addr, bytes@),
    {
        let ghost m0 = self@;
        let mut idx = word_addr as usize;
        let mut i: usize = 0;
        while i + 1 < bytes.len() && idx < self.words.len()
            invariant
                self@.len() == m0.len(),
                idx == word_addr + i / 2,
                i % 2 == 0,
                i <= bytes.len(),
                forall|k: int|
                    0 <= k < self@.len() ==> #[trigger] self@[k] == (if word_addr <= k < idx {
                        loaded_word(bytes@, k - word_addr)
                    } else {
                        m0[k]
                    }),
            decreases bytes.len() - i,
        {
            let w = bytes_word(bytes[i], bytes[i + 1]);
            self.words.set(idx, w);
            i = i + 2;
            idx = idx + 1;
        }
        if i < bytes.len() && idx < self.words.len() {
            let w = bytes_word(bytes[i], 0);
            self.words.set(idx, w);
        }
        assert(self@ =~= load_image(m0, word_addr, bytes@));
    }

    /// Read 4 bytes starting at the byte address of `word_addr`
    /// (big-endian). Used by the decoder.
    pub fn fetch_bytes(&self, word_addr: u16) -> (b: [u8; 4])
        ensures
            b@ == fetch_image(self@, word_addr),
    {
        let (a, b) = word_bytes(self.read_word(word_addr));
        let next = word_addr.wrapping_add(1);
        let (c, d) = word_bytes(self.read_word(next));
        let r = [a, b, c, d];
        assert(r@ =~= fetch_image(self@, word_addr));
        r
    }

    /// Decode the instruction at `word_addr` with `decode`, which maps
    /// the four bytes there to an instruction and the number of bytes it
    /// occupies, and return the instruction plus its size in words (1 for
    /// short, 2 for long).
    pub fn decode_at<D>(&self, word_addr: u16, decode: &D) -> (r: Result<(Instruction, u16), String>)
        where
            D: Fn([u8; 4]) -> Result<(Instruction, usize), String>,
        requires
            forall|b: [u8; 4]| decode.requires((b,)),
        ensures
            decodes(*decode, self@, word_addr, r),
    {
        let bytes = self.fetch_bytes(word_addr);
        let d = decode(bytes);
        match d {
            Ok((insn, n)) => Ok((insn, (n / 2) as u16)),
            Err(e) => Err(e),
        }
    }
}

impl Default for Memory {
    fn default() -> (m: Memory)
        ensures
            m@ == Seq::new(4096, |i: int| 0u16),
    {
        Memory::new(4096)
    }
}

} // verus!
