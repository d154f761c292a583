//! Backing memory: a contiguous word-indexed store with byte, halfword and
//! word accessors, plus the pluggable address translators that cores apply
//! before issuing requests.

use vstd::prelude::*;

use crate::isa::Instruction;

verus! {

/// Errors surfaced by the memory hierarchy.
///
/// `InvalidAddress` means the access fell outside the backing store (or
/// targeted the reserved word 0 on a write).  `CacheMiss` is a control-flow
/// signal, not a failure: it tells the core how many cycles to stall and
/// whether the operation must be reissued once the stall has elapsed.
#[derive(Clone, Copy, Debug, PartialEq, Eq, Structural)]
pub enum MemoryError {
    InvalidAddress,
    CacheMiss { stall_cycles: u32, retry: bool },
}

/// The fixed access latency of the backing store, in cycles.
pub const MEMORY_LATENCY: u32 = 100;

/// The value `v` reduced modulo 2^32: the result of 32-bit wrapping
/// arithmetic, as a mathematical integer in `[0, 2^32)`.
pub open spec fn wrap32(v: int) -> int {
    v % 0x1_0000_0000
}

/// Closed form of `wrap32` on the range one wrap away from `[0, 2^32)`.
pub proof fn lemma_wrap32_cases(v: int)
    requires
        -0x1_0000_0000 <= v < 0x2_0000_0000,
    ensures
        wrap32(v) == if v < 0 {
            v + 0x1_0000_0000
        } else if v >= 0x1_0000_0000 {
            v - 0x1_0000_0000
        } else {
            v
        },
{
    let m = 0x1_0000_0000int;
    if v < 0 {
        vstd::arithmetic::div_mod::lemma_mod_add_multiples_vanish(v, m);
        vstd::arithmetic::div_mod::lemma_small_mod((v + m) as nat, m as nat);
    } else if v >= m {
        vstd::arithmetic::div_mod::lemma_mod_sub_multiples_vanish(v, m);
        vstd::arithmetic::div_mod::lemma_small_mod((v - m) as nat, m as nat);
    } else {
        vstd::arithmetic::div_mod::lemma_small_mod(v as nat, m as nat);
    }
}

/// The wrapping operations of `u32` compute `wrap32` of the exact result.
pub proof fn lemma_wrapping_is_wrap32(x: u32, y: u32)
    ensures
        x.wrapping_add(y) == wrap32(x + y),
        x.wrapping_sub(y) == wrap32(x - y),
{
    lemma_wrap32_cases(x + y);
    lemma_wrap32_cases(x - y);
}

/// `wrapping_add_signed` computes `wrap32` of the exact sum.
pub proof fn lemma_wrapping_add_signed_is_wrap32(x: u32, y: i32)
    ensures
        x.wrapping_add_signed(y) == wrap32(x + y),
{
    lemma_wrap32_cases(x + y);
}


/// An address translator applied by a core before every memory request.
/// Translation must be a pure function of the address.
pub trait Mmu: Sized {
    /// The translation, as a mathematical function.
    spec fn spec_translate(&self, address: u32) -> u32;

    fn translate(&self, address: u32) -> (r: u32)
        ensures
            r == self.spec_translate(address);
}

/// The translator that maps every address to itself.
pub struct IdentityMmu {}

impl IdentityMmu {
    pub fn new() -> (r: IdentityMmu)
        ensures
            forall|a: u32| r.spec_translate(a) == a,
    {
        IdentityMmu {}
    }
}

impl Mmu for IdentityMmu {
    open spec fn spec_translate(&self, address: u32) -> u32 {
        address
    }

    fn translate(&self, address: u32) -> (r: u32) {
        address
    }
}

/// The translation performed by [`ReverseMmu`] with top bound `top`: words
/// are mirrored downward from `top` while byte offsets within a word are
/// kept.  Arithmetic wraps modulo 2^32.
pub open spec fn spec_reverse_translate(top: u32, address: u32) -> u32 {
    let offset = address % 4;
    wrap32(top - 4 - (address - offset) + offset) as u32
}

/// A translator that mirrors word addresses downward from a top bound,
/// preserving the byte offset within each word.  On `[0, top)` with `top`
/// word-aligned it is an involution.
pub struct ReverseMmu {
    top: u32,
}

impl ReverseMmu {
    pub fn new(top: u32) -> (r: ReverseMmu)
        ensures
            forall|a: u32| r.spec_translate(a) == spec_reverse_translate(top, a),
    {
        ReverseMmu { top }
    }
}

impl Mmu for ReverseMmu {
    closed spec fn spec_translate(&self, address: u32) -> u32 {
        spec_reverse_translate(self.top, address)
    }

    #[verifier::rlimit(30)]
    fn translate(&self, address: u32) -> (r: u32) {
        let offset = address % 4;
        let base = address - offset;
        let r = self.top.wrapping_sub(4).wrapping_sub(base).wrapping_add(offset);
        proof {
            lemma_wrap32_compose(self.top as int, base as int, offset as int);
        }
        r
    }
}

proof fn lemma_wrap32_compose(top: int, base: int, offset: int)
    requires
        0 <= top < 0x1_0000_0000,
        0 <= base < 0x1_0000_0000,
        0 <= offset < 0x1_0000_0000,
    ensures
        wrap32(wrap32(wrap32(top - 4) - base) + offset) == wrap32(top - 4 - base + offset),
{
    let m = 0x1_0000_0000int;
    assert(wrap32(wrap32(top - 4) - base) == wrap32(top - 4 - base)) by {
        vstd::arithmetic::div_mod::lemma_sub_mod_noop(top - 4, base, m);
        vstd::arithmetic::div_mod::lemma_mod_twice(top - 4, m);
        vstd::arithmetic::div_mod::lemma_sub_mod_noop(wrap32(top - 4), base, m);
        vstd::arithmetic::div_mod::lemma_mod_twice(base, m);
    }
    assert(wrap32(wrap32(top - 4 - base) + offset) == wrap32(top - 4 - base + offset)) by {
        vstd::arithmetic::div_mod::lemma_add_mod_noop(top - 4 - base, offset, m);
        vstd::arithmetic::div_mod::lemma_mod_twice(top - 4 - base, m);
        vstd::arithmetic::div_mod::lemma_add_mod_noop(wrap32(top - 4 - base), offset, m);
        vstd::arithmetic::div_mod::lemma_mod_twice(offset, m);
    }
}

/// The byte in `w` selected by the low two bits of `address`, as a value in
/// `[0, 256)`.  Lane 0 is the least significant byte.
pub open spec fn byte_of(w: u32, address: u32) -> u32 {
    if address % 4 == 0 {
        w & 0xFF
    } else if address % 4 == 1 {
        (w & 0xFF00) >> 8
    } else if address % 4 == 2 {
        (w & 0xFF0000) >> 16
    } else {
        (w & 0xFF000000) >> 24
    }
}

/// `w` with the byte lane selected by `address` replaced by `b` (the other
/// lanes are kept).
pub open spec fn with_byte(w: u32, address: u32, b: u32) -> u32 {
    if address % 4 == 0 {
        (w & !0xFF) | b
    } else if address % 4 == 1 {
        (w & !0xFF00) | (b << 8)
    } else if address % 4 == 2 {
        (w & !0xFF0000) | (b << 16)
    } else {
        (w & !0xFF000000) | (b << 24)
    }
}

/// The halfword in `w` selected by bit 1 of `address`, as a value in
/// `[0, 65536)`.  Bit 1 clear selects the low half.
pub open spec fn half_of(w: u32, address: u32) -> u32 {
    if address & 2 == 0 {
        w & 0xFFFF
    } else {
        (w & 0xFFFF0000) >> 16
    }
}

/// `w` with the half lane selected by `address` replaced by `v` (the other
/// half is kept).
pub open spec fn with_half(w: u32, address: u32, v: u32) -> u32 {
    if address & 2 == 0 {
        (w & 0xFFFF0000) | v
    } else {
        (w & 0xFFFF) | (v << 16)
    }
}

/// Extract the byte lane of `w` selected by `address`.
pub(crate) fn byte_from_word(w: u32, address: u32) -> (r: u8)
    ensures
        r as u32 == byte_of(w, address),
{
    let lane = address % 4;
    let b = if lane == 0 {
        w & 0xFF
    } else if lane == 1 {
        (w & 0xFF00) >> 8
    } else if lane == 2 {
        (w & 0xFF0000) >> 16
    } else {
        (w & 0xFF000000) >> 24
    };
    proof {
        lemma_byte_of_bound(w, address);
    }
    b as u8
}

/// Replace the byte lane of `w` selected by `address` with `b`.
pub(crate) fn word_with_byte(w: u32, address: u32, b: u8) -> (r: u32)
    ensures
        r == with_byte(w, address, b as u32),
{
    let lane = address % 4;
    let v = b as u32;
    if lane == 0 {
        (w & !0xFF) | v
    } else if lane == 1 {
        (w & !0xFF00) | (v << 8)
    } else if lane == 2 {
        (w & !0xFF0000) | (v << 16)
    } else {
        (w & !0xFF000000) | (v << 24)
    }
}

/// Extract the half lane of `w` selected by `address`.
pub(crate) fn half_from_word(w: u32, address: u32) -> (r: u16)
    ensures
        r as u32 == half_of(w, address),
{
    let h = if address & 2 == 0 {
        w & 0xFFFF
    } else {
        (w & 0xFFFF0000) >> 16
    };
    proof {
        lemma_half_of_bound(w, address);
    }
    h as u16
}

/// Replace the half lane of `w` selected by `address` with `v`.
pub(crate) fn word_with_half(w: u32, address: u32, v: u16) -> (r: u32)
    ensures
        r == with_half(w, address, v as u32),
{
    let x = v as u32;
    if address & 2 == 0 {
        (w & 0xFFFF0000) | x
    } else {
        (w & 0xFFFF) | (x << 16)
    }
}

pub proof fn lemma_byte_of_bound(w: u32, address: u32)
    ensures
        byte_of(w, address) < 0x100,
{
    assert(byte_of(w, address) < 0x100) by (bit_vector);
}

pub proof fn lemma_half_of_bound(w: u32, address: u32)
    ensures
        half_of(w, address) < 0x10000,
{
    assert(half_of(w, address) < 0x10000) by (bit_vector);
}

/// Byte round trip within a word: writing a byte lane yields exactly that
/// byte on a read of the same lane, and leaves the other three lanes as they
/// were.
pub proof fn lemma_byte_lane_round_trip(w: u32, address: u32, other: u32, b: u32)
    requires
        b < 0x100,
    ensures
        byte_of(with_byte(w, address, b), address) == b,
        address % 4 != other % 4 ==> byte_of(with_byte(w, address, b), other) == byte_of(w, other),
{
    assert(byte_of(with_byte(w, address, b), address) == b) by (bit_vector)
        requires
            b < 0x100,
    ;
    assert(address % 4 != other % 4 ==> byte_of(with_byte(w, address, b), other) == byte_of(
        w,
        other,
    )) by (bit_vector)
        requires
            b < 0x100,
    ;
}

/// Halfword round trip within a word: writing a half lane yields exactly that
/// halfword on a read of the same lane, and leaves the other half as it was.
pub proof fn lemma_half_lane_round_trip(w: u32, address: u32, other: u32, v: u32)
    requires
        v < 0x10000,
    ensures
        half_of(with_half(w, address, v), address) == v,
        address & 2 != other & 2 ==> half_of(with_half(w, address, v), other) == half_of(w, other),
{
    assert(half_of(with_half(w, address, v), address) == v) by (bit_vector)
        requires
            v < 0x10000,
    ;
    assert(address & 2 != other & 2 ==> half_of(with_half(w, address, v), other) == half_of(
        w,
        other,
    )) by (bit_vector)
        requires
            v < 0x10000,
    ;
}

/// Translator involution: translating twice through the same `ReverseMmu`
/// bound returns the original address, for every address below a word-aligned
/// top bound.
pub proof fn lemma_reverse_translate_involution(top: u32, address: u32)
    requires
        top % 4 == 0,
        address < top,
    ensures
        spec_reverse_translate(top, spec_reverse_translate(top, address)) == address,
{
    let offset = (address % 4) as int;
    let base = address - offset;
    assert(base % 4 == 0);
    assert(base + 4 <= top);
    let t1 = top - 4 - base + offset;
    assert(0 <= t1 < top);
    assert(wrap32(t1) == t1);
    let r1 = spec_reverse_translate(top, address);
    assert(r1 == t1);
    assert(t1 % 4 == offset) by {
        assert((top - 4 - base) % 4 == 0);
        vstd::arithmetic::div_mod::lemma_add_mod_noop(top - 4 - base, offset, 4int);
    }
    let base1 = r1 - (r1 % 4);
    assert(base1 == top - 4 - base);
    let t2 = top - 4 - base1 + offset;
    assert(t2 == address);
    assert(wrap32(t2) == t2);
}

/// The result of reading the word containing byte address `address` from a
/// store of words `mem`.  Memory is word-indexed: the low two address bits
/// are discarded.
pub open spec fn spec_read_word(mem: Seq<u32>, address: u32) -> Result<u32, MemoryError> {
    if (address / 4) < mem.len() {
        Ok(mem[(address / 4) as int])
    } else {
        Err(MemoryError::InvalidAddress)
    }
}

/// Whether a word write at byte address `address` is accepted: the word index
/// must be in range and nonzero (word 0 is reserved to trap null-ish writes).
pub open spec fn spec_write_word_ok(mem: Seq<u32>, address: u32) -> bool {
    1 <= (address / 4) && (address / 4) < mem.len()
}

/// The store after a word write (unchanged when the write is rejected).
pub open spec fn spec_write_word_post(mem: Seq<u32>, address: u32, value: u32) -> Seq<u32> {
    if spec_write_word_ok(mem, address) {
        mem.update((address / 4) as int, value)
    } else {
        mem
    }
}

/// The result of reading the byte at `address`: the lane `address % 4` of the
/// enclosing word.
pub open spec fn spec_read_byte(mem: Seq<u32>, address: u32) -> Result<u8, MemoryError> {
    match spec_read_word(mem, address) {
        Ok(w) => Ok(byte_of(w, address) as u8),
        Err(e) => Err(e),
    }
}

/// The result of reading the halfword at `address`: the half lane selected by
/// bit 1 of the address.
pub open spec fn spec_read_half(mem: Seq<u32>, address: u32) -> Result<u16, MemoryError> {
    match spec_read_word(mem, address) {
        Ok(w) => Ok(half_of(w, address) as u16),
        Err(e) => Err(e),
    }
}

/// Whether a byte or halfword write is accepted: it is a read-modify-write of
/// the enclosing word, so both the read and the word write must succeed.
pub open spec fn spec_write_lane_ok(mem: Seq<u32>, address: u32) -> bool {
    (address / 4) < mem.len() && spec_write_word_ok(mem, address)
}

/// The store after a byte write (unchanged when the write is rejected).
pub open spec fn spec_write_byte_post(mem: Seq<u32>, address: u32, b: u8) -> Seq<u32> {
    match spec_read_word(mem, address) {
        Ok(w) => spec_write_word_post(mem, address, with_byte(w, address, b as u32)),
        Err(_) => mem,
    }
}

/// The store after a halfword write (unchanged when the write is rejected).
pub open spec fn spec_write_half_post(mem: Seq<u32>, address: u32, v: u16) -> Seq<u32> {
    match spec_read_word(mem, address) {
        Ok(w) => spec_write_word_post(mem, address, with_half(w, address, v as u32)),
        Err(_) => mem,
    }
}

/// The word assembled from the 4-byte chunk `k` of `src`, least significant
/// byte first; a trailing chunk of 1 to 3 bytes packs with zero-padded high
/// bytes.
pub open spec fn chunk_word(src: Seq<u8>, k: int) -> u32 {
    let b0: int = if 4 * k < src.len() {
        src[4 * k] as int
    } else {
        0
    };
    let b1: int = if 4 * k + 1 < src.len() {
        src[4 * k + 1] as int
    } else {
        0
    };
    let b2: int = if 4 * k + 2 < src.len() {
        src[4 * k + 2] as int
    } else {
        0
    };
    let b3: int = if 4 * k + 3 < src.len() {
        src[4 * k + 3] as int
    } else {
        0
    };
    (b0 + b1 * 0x100 + b2 * 0x10000 + b3 * 0x1000000) as u32
}

/// The word slot that chunk `k` of a segment based at `base` lands in, after
/// translation through `mmu`.
pub open spec fn chunk_slot<T: Mmu>(mmu: &T, base: int, k: int) -> int {
    mmu.spec_translate((base + 4 * k) as u32) as int / 4
}

/// Install a byte segment into a word store: each 4-byte chunk of `src`,
/// collapsed LSB-first into a word, is written to the slot its translated
/// address selects.  When two chunks translate to the same slot the later
/// one wins.
pub fn copy_u8_into_u32<T: Mmu>(mmu: &T, base: usize, src: &Vec<u8>, dst: &mut Vec<u32>)
    requires
        base + src@.len() <= 0x1_0000_0000,
        forall|k: int|
            0 <= k && 4 * k < src@.len() ==> #[trigger] chunk_slot(mmu, base as int, k) < old(
                dst,
            )@.len(),
    ensures
        final(dst)@.len() == old(dst)@.len(),
        forall|k: int|
            (0 <= k && 4 * k < src@.len() && (forall|k2: int|
                k < k2 && 4 * k2 < src@.len() ==> chunk_slot(mmu, base as int, k2) != chunk_slot(
                    mmu,
                    base as int,
                    k,
                ))) ==> final(dst)@[#[trigger] chunk_slot(mmu, base as int, k)] == chunk_word(
                src@,
                k,
            ),
        forall|j: int|
            (0 <= j < old(dst)@.len() && (forall|k: int|
                0 <= k && 4 * k < src@.len() ==> chunk_slot(mmu, base as int, k) != j))
                ==> final(dst)@[j] == old(dst)@[j],
{
    let len = src.len();
    let nwords = len / 4 + if len % 4 == 0 {
        0
    } else {
        1
    };
    proof {
        vstd::arithmetic::div_mod::lemma_fundamental_div_mod(len as int, 4);
    }
    let mut k: usize = 0;
    while k < nwords
        invariant
            len == src@.len(),
            base + len <= 0x1_0000_0000,
            nwords == len as int / 4 + if len as int % 4 == 0 {
                0int
            } else {
                1int
            },
            k <= nwords,
            dst@.len() == old(dst)@.len(),
            forall|k1: int|
                0 <= k1 && 4 * k1 < src@.len() ==> #[trigger] chunk_slot(mmu, base as int, k1)
                    < dst@.len(),
            forall|k1: int|
                (0 <= k1 < k && (forall|k2: int|
                    k1 < k2 < k ==> chunk_slot(mmu, base as int, k2) != chunk_slot(
                        mmu,
                        base as int,
                        k1,
                    ))) ==> dst@[#[trigger] chunk_slot(mmu, base as int, k1)] == chunk_word(
                    src@,
                    k1,
                ),
            forall|j: int|
                (0 <= j < dst@.len() && (forall|k1: int|
                    0 <= k1 < k ==> chunk_slot(mmu, base as int, k1) != j)) ==> dst@[j] == old(
                    dst,
                )@[j],
        decreases nwords - k,
    {
        proof {
            vstd::arithmetic::div_mod::lemma_fundamental_div_mod(len as int, 4);
            assert(4 * k < len);
        }
        let i = 4 * k;
        let b0 = src[i] as u32;
        let b1 = if i + 1 < len {
            src[i + 1] as u32
        } else {
            0
        };
        let b2 = if i + 2 < len {
            src[i + 2] as u32
        } else {
            0
        };
        let b3 = if i + 3 < len {
            src[i + 3] as u32
        } else {
            0
        };
        let w = b0 | (b1 << 8) | (b2 << 16) | (b3 << 24);
        proof {
            assert(b0 | (b1 << 8) | (b2 << 16) | (b3 << 24) == b0 + b1 * 0x100 + b2 * 0x10000 + b3
                * 0x1000000) by (bit_vector)
                requires
                    b0 < 0x100 && b1 < 0x100 && b2 < 0x100 && b3 < 0x100,
            ;
            assert(w == chunk_word(src@, k as int));
        }
        let addr = (base + 4 * k) as u32;
        let t = mmu.translate(addr);
        let slot = (t / 4) as usize;
        proof {
            assert(slot == chunk_slot(mmu, base as int, k as int));
        }
        dst[slot] = w;
        k = k + 1;
    }
    proof {
        vstd::arithmetic::div_mod::lemma_fundamental_div_mod(len as int, 4);
        assert forall|k2: int| 0 <= k2 implies ((#[trigger] (4 * k2) < src@.len()) <==> (k2
            < nwords)) by {}
    }
}

/// A vector of `n` zeroed words.
pub(crate) fn zeroed_words(n: usize) -> (r: Vec<u32>)
    ensures
        r@.len() == n,
        forall|i: int| 0 <= i < n ==> r@[i] == 0u32,
{
    let mut words: Vec<u32> = Vec::new();
    let mut i: usize = 0;
    while i < n
        invariant
            i <= n,
            words@.len() == i,
            forall|j: int| 0 <= j < i ==> words@[j] == 0u32,
        decreases n - i,
    {
        words.push(0);
        i = i + 1;
    }
    words
}

/// A contiguous, word-indexed backing store.  Byte addresses are mapped to
/// word slots by discarding the low two bits.
pub struct Memory {
    memory: Vec<u32>,
}

impl View for Memory {
    type V = Seq<u32>;

    closed spec fn view(&self) -> Seq<u32> {
        self.memory@
    }
}

impl Memory {
    /// A memory of `size` words, all zero.
    pub fn new(size: usize) -> (r: Memory)
        ensures
            r@.len() == size,
            forall|i: int| 0 <= i < size ==> r@[i] == 0u32,
    {
        Memory { memory: zeroed_words(size) }
    }

    /// Install a byte segment beginning at the translated `offset`: each
    /// 4-byte chunk, collapsed LSB-first into a word, lands in the slot its
    /// translated address selects.
    pub fn write_segment<T: Mmu>(&mut self, mmu: &T, data: &Vec<u8>, offset: usize)
        requires
            offset + data@.len() <= 0x1_0000_0000,
            forall|k: int|
                0 <= k && 4 * k < data@.len() ==> #[trigger] chunk_slot(mmu, offset as int, k)
                    < old(self)@.len(),
        ensures
            final(self)@.len() == old(self)@.len(),
            forall|k: int|
                (0 <= k && 4 * k < data@.len() && (forall|k2: int|
                    k < k2 && 4 * k2 < data@.len() ==> chunk_slot(mmu, offset as int, k2)
                        != chunk_slot(mmu, offset as int, k))) ==> final(self)@[#[trigger] chunk_slot(
                    mmu,
                    offset as int,
                    k,
                )] == chunk_word(data@, k),
            forall|j: int|
                (0 <= j < old(self)@.len() && (forall|k: int|
                    0 <= k && 4 * k < data@.len() ==> chunk_slot(mmu, offset as int, k)
                        != j)) ==> final(self)@[j] == old(self)@[j],
    {
        copy_u8_into_u32(mmu, offset, data, &mut self.memory);
    }

    /// The fixed access latency of the backing store, in cycles.
    pub fn latency(&self) -> (r: u32)
        ensures
            r == MEMORY_LATENCY,
    {
        MEMORY_LATENCY
    }

    /// Advancing the store by one cycle does nothing: it has no internal
    /// state machine.
    pub fn step(&mut self)
        ensures
            final(self)@ == old(self)@,
    {
    }

    /// Whether the word containing `address` lies inside the store.
    pub fn is_address_accessible(&self, address: u32) -> (r: bool)
        ensures
            r == ((address / 4) < self@.len()),
    {
        ((address / 4) as usize) < self.memory.len()
    }

    /// Read the word containing `address`.
    pub fn read_word(&self, address: u32) -> (r: Result<u32, MemoryError>)
        ensures
            r == spec_read_word(self@, address),
    {
        let idx = (address / 4) as usize;
        if idx < self.memory.len() {
            Ok(self.memory[idx])
        } else {
            Err(MemoryError::InvalidAddress)
        }
    }

    /// Write the word containing `address`.  Rejected when the word index is
    /// out of range or zero.
    pub fn write_word(&mut self, address: u32, value: u32) -> (r: Result<(), MemoryError>)
        ensures
            final(self)@ == spec_write_word_post(old(self)@, address, value),
            r == if spec_write_word_ok(old(self)@, address) {
                Ok::<(), MemoryError>(())
            } else {
                Err::<(), MemoryError>(MemoryError::InvalidAddress)
            },
    {
        let idx = (address / 4) as usize;
        if idx >= self.memory.len() || idx == 0 {
            Err(MemoryError::InvalidAddress)
        } else {
            self.memory[idx] = value;
            Ok(())
        }
    }

    /// Read the byte at `address` (the lane `address % 4` of the enclosing
    /// word).
    pub fn read_byte(&self, address: u32) -> (r: Result<u8, MemoryError>)
        ensures
            r == spec_read_byte(self@, address),
    {
        match self.read_word(address) {
            Ok(w) => Ok(byte_from_word(w, address)),
            Err(e) => Err(e),
        }
    }

    /// Read the halfword at `address` (the half selected by bit 1 of the
    /// address).
    pub fn read_halfword(&self, address: u32) -> (r: Result<u16, MemoryError>)
        ensures
            r == spec_read_half(self@, address),
    {
        match self.read_word(address) {
            Ok(w) => Ok(half_from_word(w, address)),
            Err(e) => Err(e),
        }
    }

    /// Read the word containing `address` as a decoded instruction.  Returns
    /// `None` when the address is out of range.
    pub fn read_instruction(&self, address: u32) -> (r: Option<Instruction>)
        ensures
            r is Some <==> spec_read_word(self@, address) is Ok,
            r matches Some(i) ==> spec_read_word(self@, address) == Ok::<u32, MemoryError>(i@)
                && i == crate::isa::spec_instruction(i@),
    {
        match self.read_word(address) {
            Ok(w) => Some(Instruction::new(w)),
            Err(_) => None,
        }
    }

    /// Write the byte at `address` by a read-modify-write of the enclosing
    /// word.
    pub fn write_byte(&mut self, address: u32, b: u8) -> (r: Result<(), MemoryError>)
        ensures
            final(self)@ == spec_write_byte_post(old(self)@, address, b),
            r == if spec_write_lane_ok(old(self)@, address) {
                Ok::<(), MemoryError>(())
            } else {
                Err::<(), MemoryError>(MemoryError::InvalidAddress)
            },
    {
        match self.read_word(address) {
            Ok(w) => self.write_word(address, word_with_byte(w, address, b)),
            Err(e) => Err(e),
        }
    }

    /// Write the halfword at `address` by a read-modify-write of the
    /// enclosing word.
    pub fn write_halfword(&mut self, address: u32, v: u16) -> (r: Result<(), MemoryError>)
        ensures
            final(self)@ == spec_write_half_post(old(self)@, address, v),
            r == if spec_write_lane_ok(old(self)@, address) {
                Ok::<(), MemoryError>(())
            } else {
                Err::<(), MemoryError>(MemoryError::InvalidAddress)
            },
    {
        match self.read_word(address) {
            Ok(w) => self.write_word(address, word_with_half(w, address, v)),
            Err(e) => Err(e),
        }
    }
}

/// Word alignment round trip: for every word-aligned in-range address, a word
/// write followed by a word read returns the written value.
pub proof fn lemma_word_round_trip(mem: Seq<u32>, address: u32, value: u32)
    requires
        address % 4 == 0,
        spec_write_word_ok(mem, address),
    ensures
        spec_read_word(spec_write_word_post(mem, address, value), address) == Ok::<
            u32,
            MemoryError,
        >(value),
{
}

/// Byte round trip: after a byte write, the lane `address % 4` of the
/// enclosing word holds exactly the written byte, the other three lanes are
/// unchanged, and every other word is unchanged.
pub proof fn lemma_byte_round_trip(mem: Seq<u32>, address: u32, b: u8)
    requires
        spec_write_lane_ok(mem, address),
    ensures
        spec_read_byte(spec_write_byte_post(mem, address, b), address) == Ok::<u8, MemoryError>(b),
        forall|other: u32|
            other / 4 == address / 4 && other % 4 != address % 4 ==> spec_read_byte(
                spec_write_byte_post(mem, address, b),
                other,
            ) == spec_read_byte(mem, other),
        forall|j: int|
            0 <= j < mem.len() && j != address / 4 ==> spec_write_byte_post(mem, address, b)[j]
                == mem[j],
{
    let w = mem[(address / 4) as int];
    let m1 = spec_write_byte_post(mem, address, b);
    lemma_byte_lane_round_trip(w, address, address, b as u32);
    assert(byte_of(m1[(address / 4) as int], address) == b as u32);
    assert forall|other: u32|
        other / 4 == address / 4 && other % 4 != address % 4 implies spec_read_byte(
        m1,
        other,
    ) == spec_read_byte(mem, other) by {
        lemma_byte_lane_round_trip(w, address, other, b as u32);
    }
}

/// Halfword round trip: after a halfword write, the half lane selected by the
/// address holds exactly the written halfword, the other half lane is
/// unchanged, and every other word is unchanged.
pub proof fn lemma_half_round_trip(mem: Seq<u32>, address: u32, v: u16)
    requires
        spec_write_lane_ok(mem, address),
    ensures
        spec_read_half(spec_write_half_post(mem, address, v), address) == Ok::<u16, MemoryError>(v),
        forall|other: u32|
            other / 4 == address / 4 && (other & 2) != (address & 2) ==> spec_read_half(
                spec_write_half_post(mem, address, v),
                other,
            ) == spec_read_half(mem, other),
        forall|j: int|
            0 <= j < mem.len() && j != address / 4 ==> spec_write_half_post(mem, address, v)[j]
                == mem[j],
{
    let w = mem[(address / 4) as int];
    let m1 = spec_write_half_post(mem, address, v);
    lemma_half_lane_round_trip(w, address, address, v as u32);
    assert(half_of(m1[(address / 4) as int], address) == v as u32);
    assert forall|other: u32|
        other / 4 == address / 4 && (other & 2) != (address & 2) implies spec_read_half(
        m1,
        other,
    ) == spec_read_half(mem, other) by {
        lemma_half_lane_round_trip(w, address, other, v as u32);
    }
}

}
