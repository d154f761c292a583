//! A direct-mapped, write-allocate, write-through cache in front of the
//! backing memory.  Misses start a per-set fetch request that counts down the
//! next level's latency, then fills the line one word per step; the requester
//! is told how long to stall and reissues the access.

use vstd::arithmetic::power2::is_pow2;
use vstd::prelude::*;

use crate::memory::Memory;
use crate::memory::MemoryError;
use crate::memory::MEMORY_LATENCY;

verus! {

/// A snapshot of the cache geometry and the tags currently resident, for
/// inspection.
pub struct CacheMetadata {
    /// How many sets are in the cache.
    pub num_sets: usize,
    /// How many ways are in a set (always 1: the cache is direct mapped).
    pub num_ways: usize,
    /// How many words are in a block/line.
    pub num_block_words: usize,
    /// The tag of each set, in set order; `None` for an invalid set.
    pub tags: Vec<Option<u32>>,
}

/// Where a block sits in the cache: its tag, set index, byte offset of the
/// requested word, and way (always 0).
#[derive(Clone, Copy, Debug, PartialEq, Eq, Structural)]
pub struct CacheLocation {
    pub tag: u32,
    pub index: u32,
    pub offset: u32,
    pub way: u32,
}

/// A callback fired when a cache finishes installing a block.
pub trait CacheEventHandler {
    fn block_fetched(&self, location: CacheLocation);
}

/// The event handler that ignores every event.
pub struct EmptyCacheEventHandler {}

impl CacheEventHandler for EmptyCacheEventHandler {
    fn block_fetched(&self, _location: CacheLocation) {
    }
}

/// An outstanding line fill for one set.
struct FetchRequest {
    /// The line base address (offset bits cleared).
    address: u32,
    /// Cycles left before the fill may begin; never zero while waiting.
    cycles_left: u32,
    /// Where the block will be installed.
    location: CacheLocation,
    /// Words collected so far; slots at `waiting_on` and above are stale.
    data: Vec<u32>,
    /// An error returned by the next level, delivered to the requester on its
    /// next access to the same base.
    error: Option<MemoryError>,
    /// The index of the word of the block the fill waits on.
    waiting_on: u32,
}

/// One direct-mapped set: a single block plus an optional fetch request.
struct CacheBlock {
    valid: bool,
    tag: u32,
    contents: Vec<u32>,
    fetch_request: Option<FetchRequest>,
}

/// The observable state of an outstanding fetch request.
#[verifier::ext_equal]
pub ghost struct RequestModel {
    /// The line base address (offset bits cleared).
    pub address: u32,
    /// Cycles left before the fill may begin.
    pub cycles_left: u32,
    /// Words collected so far.
    pub data: Seq<u32>,
    /// A recorded next-level error, if any.
    pub error: Option<MemoryError>,
    /// The index of the word of the block the fill waits on.
    pub waiting_on: u32,
}

/// The observable state of one cache set.
#[verifier::ext_equal]
pub ghost struct SetModel {
    pub valid: bool,
    pub tag: u32,
    pub contents: Seq<u32>,
    pub request: Option<RequestModel>,
}

/// The observable state of the whole cache.
#[verifier::ext_equal]
pub ghost struct CacheModel {
    pub num_sets: u32,
    pub block_words: u32,
    pub sets: Seq<SetModel>,
}

/// The size of a line in bytes.
pub open spec fn line_bytes(m: CacheModel) -> int {
    m.block_words * 4
}

/// The byte offset of `a` within its line.
pub open spec fn spec_offset(m: CacheModel, a: u32) -> int {
    a as int % line_bytes(m)
}

/// The set index of `a`.
pub open spec fn spec_index(m: CacheModel, a: u32) -> int {
    (a as int / line_bytes(m)) % m.num_sets as int
}

/// The tag of `a`: the address bits above offset and index.
pub open spec fn spec_tag(m: CacheModel, a: u32) -> int {
    (a as int / line_bytes(m)) / m.num_sets as int
}

/// The line base address of `a`: the address with its offset bits cleared.
pub open spec fn spec_base(m: CacheModel, a: u32) -> int {
    a - spec_offset(m, a)
}

/// Well-formedness of a fetch request: its buffer matches the line size, its
/// base address is line-aligned and its line lies below the end of the
/// address space, the countdown never reaches zero while it waits, and only
/// an invalid-address error can be recorded.
pub open spec fn request_wf(m: CacheModel, req: RequestModel) -> bool {
    &&& req.data.len() == m.block_words
    &&& req.waiting_on < m.block_words
    &&& 1 <= req.cycles_left
    &&& spec_offset(m, req.address) == 0
    &&& req.address % 4 == 0
    &&& req.address + line_bytes(m) <= 0x1_0000_0000
    &&& (req.error matches Some(e) ==> e == MemoryError::InvalidAddress)
}

/// Well-formedness of one set.
pub open spec fn set_wf(m: CacheModel, s: SetModel) -> bool {
    &&& s.contents.len() == m.block_words
    &&& (s.request matches Some(req) ==> request_wf(m, req))
}

/// Well-formedness of the cache model: both geometry parameters are powers of
/// two within range, and every set is well formed.
pub open spec fn model_wf(m: CacheModel) -> bool {
    &&& 1 <= m.num_sets <= 0x1000_0000
    &&& is_pow2(m.num_sets as int)
    &&& 1 <= m.block_words <= 0x1000_0000
    &&& is_pow2(m.block_words as int)
    &&& m.sets.len() == m.num_sets
    &&& forall|i: int| 0 <= i < m.sets.len() ==> set_wf(m, #[trigger] m.sets[i])
}

/// Whether `a` hits: its set holds a valid block with the matching tag.
pub open spec fn spec_cache_hit(m: CacheModel, a: u32) -> bool {
    let s = m.sets[spec_index(m, a)];
    s.valid && s.tag == spec_tag(m, a)
}

/// The cached word a hit on `a` returns.
pub open spec fn spec_cache_word(m: CacheModel, a: u32) -> u32 {
    m.sets[spec_index(m, a)].contents[spec_offset(m, a) / 4]
}

/// A fresh fetch request for the line of `a`, with a zeroed buffer and the
/// full next-level latency ahead of it.
pub open spec fn fresh_request(m: CacheModel, a: u32) -> RequestModel {
    RequestModel {
        address: spec_base(m, a) as u32,
        cycles_left: MEMORY_LATENCY,
        data: Seq::new(m.block_words as nat, |j: int| 0u32),
        error: None,
        waiting_on: 0,
    }
}

/// `m` with set `i` replaced.
pub open spec fn with_set(m: CacheModel, i: int, s: SetModel) -> CacheModel {
    CacheModel { num_sets: m.num_sets, block_words: m.block_words, sets: m.sets.update(i, s) }
}

/// What `read_word(a)` returns, as a function of the cache state: the word on
/// a hit; a recorded error when the set's request for the same base has one;
/// otherwise a retryable miss carrying the cycles left (the full latency when
/// the request is fresh or repurposed).
pub open spec fn spec_cache_read_result(m: CacheModel, a: u32) -> Result<u32, MemoryError> {
    let s = m.sets[spec_index(m, a)];
    if spec_cache_hit(m, a) {
        Ok(spec_cache_word(m, a))
    } else {
        match s.request {
            None => Err(
                MemoryError::CacheMiss { stall_cycles: MEMORY_LATENCY, retry: true },
            ),
            Some(req) => {
                if req.address == spec_base(m, a) {
                    match req.error {
                        Some(e) => Err(e),
                        None => Err(
                            MemoryError::CacheMiss { stall_cycles: req.cycles_left, retry: true },
                        ),
                    }
                } else {
                    Err(MemoryError::CacheMiss { stall_cycles: MEMORY_LATENCY, retry: true })
                }
            },
        }
    }
}

/// The cache state after `read_word(a)`: unchanged on a hit; a fresh request
/// is started when the set had none; a surfaced error clears the request; a
/// request for another base is repurposed for this one.
pub open spec fn spec_cache_read_post(m: CacheModel, a: u32) -> CacheModel {
    let i = spec_index(m, a);
    let s = m.sets[i];
    if spec_cache_hit(m, a) {
        m
    } else {
        match s.request {
            None => with_set(m, i, SetModel { request: Some(fresh_request(m, a)), ..s }),
            Some(req) => {
                if req.address == spec_base(m, a) {
                    if req.error is Some {
                        with_set(m, i, SetModel { request: None, ..s })
                    } else {
                        m
                    }
                } else {
                    with_set(
                        m,
                        i,
                        SetModel {
                            request: Some(
                                RequestModel {
                                    address: spec_base(m, a) as u32,
                                    cycles_left: MEMORY_LATENCY,
                                    data: req.data,
                                    error: None,
                                    waiting_on: 0,
                                },
                            ),
                            ..s
                        },
                    )
                }
            },
        }
    }
}

/// What `write_word(a, v)` returns: the write first goes through the miss
/// path of `read_word` (write-allocate); once the line is resident the write
/// is forwarded to the next level and its verdict is surfaced.
pub open spec fn spec_cache_write_result(m: CacheModel, mem: Seq<u32>, a: u32) -> Result<
    (),
    MemoryError,
> {
    if spec_cache_hit(m, a) {
        if crate::memory::spec_write_word_ok(mem, a) {
            Ok(())
        } else {
            Err(MemoryError::InvalidAddress)
        }
    } else {
        match spec_cache_read_result(m, a) {
            Ok(_) => Ok(()),
            Err(e) => Err(e),
        }
    }
}

/// The cache state after `write_word(a, v)`: on a hit the line word is
/// updated (write-through leaves it consistent with memory); otherwise the
/// state moves as for `read_word`.
pub open spec fn spec_cache_write_post(m: CacheModel, mem: Seq<u32>, a: u32, v: u32) -> CacheModel {
    if spec_cache_hit(m, a) {
        let i = spec_index(m, a);
        let s = m.sets[i];
        with_set(m, i, SetModel { contents: s.contents.update(spec_offset(m, a) / 4, v), ..s })
    } else {
        spec_cache_read_post(m, a)
    }
}

/// The backing memory after `write_word(a, v)` through the cache: updated by
/// the write-through on a hit, untouched otherwise.
pub open spec fn spec_cache_write_mem_post(mem: Seq<u32>, m: CacheModel, a: u32, v: u32) -> Seq<
    u32,
> {
    if spec_cache_hit(m, a) {
        crate::memory::spec_write_word_post(mem, a, v)
    } else {
        mem
    }
}

/// The word index of the first word of the line a request fills.
pub open spec fn fill_first(req: RequestModel) -> int {
    req.address as int / 4
}

/// How many words of the line, counted from its start, the next level can
/// serve: the whole line when it lies inside the store, and the readable
/// prefix otherwise.
pub open spec fn fill_limit(mem: Seq<u32>, req: RequestModel, bw: int) -> int {
    let first = fill_first(req);
    if first + bw <= mem.len() {
        bw
    } else if first <= mem.len() {
        mem.len() - first
    } else {
        0
    }
}

/// The fill buffer after one filling step: the words from `waiting_on` up to
/// the readable limit are brought in, the rest are kept.
pub open spec fn fill_data(mem: Seq<u32>, req: RequestModel, bw: int) -> Seq<u32> {
    Seq::new(
        bw as nat,
        |j: int|
            if req.waiting_on <= j < fill_limit(mem, req, bw) {
                mem[fill_first(req) + j]
            } else {
                req.data[j]
            },
    )
}

/// One step of the per-set miss state machine.  A waiting request counts
/// down; when its countdown reaches one it starts filling.  A filling
/// request reads words from the next level until the line is complete (the
/// block is then installed and the request cleared) or an address leaves the
/// store (the error is recorded and the request kept for the requester).
pub open spec fn spec_set_step(m: CacheModel, s: SetModel, mem: Seq<u32>) -> SetModel {
    match s.request {
        None => s,
        Some(req) => {
            if req.cycles_left > 1 {
                SetModel {
                    request: Some(RequestModel { cycles_left: (req.cycles_left - 1) as u32, ..req }),
                    ..s
                }
            } else {
                let bw = m.block_words as int;
                let limit = fill_limit(mem, req, bw);
                let data2 = fill_data(mem, req, bw);
                if limit == bw {
                    SetModel {
                        valid: true,
                        tag: spec_tag(m, req.address) as u32,
                        contents: data2,
                        request: None,
                    }
                } else {
                    SetModel {
                        request: Some(
                            RequestModel {
                                address: req.address,
                                cycles_left: req.cycles_left,
                                data: data2,
                                error: Some(MemoryError::InvalidAddress),
                                waiting_on: if limit > req.waiting_on {
                                    limit as u32
                                } else {
                                    req.waiting_on
                                },
                            },
                        ),
                        ..s
                    }
                }
            }
        },
    }
}

/// One step of the whole cache: every set's miss state machine advances
/// independently.
pub open spec fn spec_cache_step(m: CacheModel, mem: Seq<u32>) -> CacheModel {
    CacheModel {
        num_sets: m.num_sets,
        block_words: m.block_words,
        sets: Seq::new(m.sets.len(), |i: int| spec_set_step(m, m.sets[i], mem)),
    }
}

/// The observable state of a fetch request.
spec fn request_model(r: FetchRequest) -> RequestModel {
    RequestModel {
        address: r.address,
        cycles_left: r.cycles_left,
        data: r.data@,
        error: r.error,
        waiting_on: r.waiting_on,
    }
}

/// The observable state of one set.
spec fn block_model(b: CacheBlock) -> SetModel {
    SetModel {
        valid: b.valid,
        tag: b.tag,
        contents: b.contents@,
        request: match b.fetch_request {
            Some(r) => Some(request_model(r)),
            None => None,
        },
    }
}

/// A direct-mapped cache with `num_sets` sets of `block_words`-word lines.
/// It does not own its next level: every access that can reach the backing
/// memory takes it as an argument.
pub struct DirectMappedCache<E: CacheEventHandler> {
    num_sets: u32,
    block_words: u32,
    cache: Vec<CacheBlock>,
    events: E,
}

impl<E: CacheEventHandler> View for DirectMappedCache<E> {
    type V = CacheModel;

    closed spec fn view(&self) -> CacheModel {
        CacheModel {
            num_sets: self.num_sets,
            block_words: self.block_words,
            sets: Seq::new(self.cache@.len(), |i: int| block_model(self.cache@[i])),
        }
    }
}

impl<E: CacheEventHandler> DirectMappedCache<E> {
    /// Well-formedness: the model invariant, plus consistency of the cached
    /// location of each outstanding request with its base address.
    pub closed spec fn inv(&self) -> bool {
        &&& model_wf(self@)
        &&& forall|i: int|
            0 <= i < self.cache@.len() ==> (#[trigger] self.cache@[i].fetch_request matches Some(r)
                ==> r.location.tag == spec_tag(self@, r.address) && r.location.index == spec_index(
                self@,
                r.address,
            ))
    }

    /// A well-formed cache has a well-formed model.
    pub proof fn lemma_model_wf(&self)
        requires
            self.inv(),
        ensures
            model_wf(self@),
    {
    }

    /// A cache of `sets` sets of `block_words`-word lines, all invalid, with
    /// no outstanding requests.
    pub fn new(sets: u32, block_words: u32, events: E) -> (r: DirectMappedCache<E>)
        requires
            1 <= sets <= 0x1000_0000,
            is_pow2(sets as int),
            1 <= block_words <= 0x1000_0000,
            is_pow2(block_words as int),
        ensures
            r.inv(),
            r@.num_sets == sets,
            r@.block_words == block_words,
            forall|i: int|
                0 <= i < sets ==> #[trigger] r@.sets[i] == (SetModel {
                    valid: false,
                    tag: 0u32,
                    contents: Seq::new(block_words as nat, |j: int| 0u32),
                    request: None::<RequestModel>,
                }),
    {
        let mut cache: Vec<CacheBlock> = Vec::new();
        let mut i: u32 = 0;
        while i < sets
            invariant
                i <= sets,
                cache@.len() == i,
                forall|k: int|
                    0 <= k < i ==> #[trigger] block_model(cache@[k]) == (SetModel {
                        valid: false,
                        tag: 0u32,
                        contents: Seq::new(block_words as nat, |j: int| 0u32),
                        request: None::<RequestModel>,
                    }),
            decreases sets - i,
        {
            let block = CacheBlock {
                valid: false,
                tag: 0,
                contents: crate::memory::zeroed_words(block_words as usize),
                fetch_request: None,
            };
            proof {
                assert(block.contents@ =~= Seq::new(block_words as nat, |j: int| 0u32));
            }
            cache.push(block);
            i = i + 1;
        }
        let r = DirectMappedCache { num_sets: sets, block_words, cache, events };
        proof {
            assert forall|i: int| 0 <= i < sets implies #[trigger] r@.sets[i] == (SetModel {
                valid: false,
                tag: 0u32,
                contents: Seq::new(block_words as nat, |j: int| 0u32),
                request: None::<RequestModel>,
            }) by {
                assert(r@.sets[i] == block_model(r.cache@[i]));
            }
            assert forall|i: int| 0 <= i < r@.sets.len() implies set_wf(
                r@,
                #[trigger] r@.sets[i],
            ) by {
                assert(r@.sets[i] == block_model(r.cache@[i]));
            }
            assert(model_wf(r@));
            assert forall|i: int|
                0 <= i < r.cache@.len() implies (#[trigger] r.cache@[i].fetch_request matches Some(
                q,
            ) ==> q.location.tag == spec_tag(r@, q.address) && q.location.index == spec_index(
                r@,
                q.address,
            )) by {
                assert(block_model(r.cache@[i]).request is None);
            }
        }
        r
    }

    /// The cache itself adds no delay: all latency is incurred by the next
    /// level during fills.
    pub fn latency(&self) -> (r: u32)
        ensures
            r == 0u32,
    {
        0
    }

    /// Split `address` into its tag, set index and byte offset within the
    /// line.
    pub fn parse_address(&self, address: u32) -> (r: (u32, u32, u32))
        requires
            self.inv(),
        ensures
            r.0 == spec_tag(self@, address),
            r.1 == spec_index(self@, address),
            r.2 == spec_offset(self@, address),
    {
        let line = self.block_words * 4;
        let offset = address % line;
        let index = (address / line) % self.num_sets;
        let tag = (address / line) / self.num_sets;
        (tag, index, offset)
    }

    /// The line base address of `address`: the address with its offset bits
    /// cleared.
    pub fn normalize_address(&self, address: u32) -> (r: u32)
        requires
            self.inv(),
        ensures
            r == spec_base(self@, address),
    {
        let line = self.block_words * 4;
        proof {
            vstd::arithmetic::div_mod::lemma_mod_decreases(address as nat, line as nat);
        }
        address - address % line
    }

    /// Whether `address` would hit right now.  No side effects.
    pub fn is_address_accessible(&self, address: u32) -> (r: bool)
        requires
            self.inv(),
        ensures
            r == spec_cache_hit(self@, address),
    {
        let (tag, index, _offset) = self.parse_address(address);
        proof {
            lemma_index_in_range(self@, address);
        }
        let set = &self.cache[index as usize];
        set.valid && set.tag == tag
    }

    /// Read the word at `address`.  On a hit the cached word is returned and
    /// nothing changes.  Otherwise the set's fetch request is started,
    /// consulted or repurposed, and the caller is told how long to stall (or
    /// handed the recorded error for this line).
    pub fn read_word(&mut self, address: u32, next: &Memory) -> (r: Result<u32, MemoryError>)
        requires
            old(self).inv(),
        ensures
            final(self).inv(),
            final(self)@ == spec_cache_read_post(old(self)@, address),
            r == spec_cache_read_result(old(self)@, address),
    {
        proof {
            lemma_index_in_range(old(self)@, address);
            lemma_offset_in_range(old(self)@, address);
            lemma_base_properties(old(self)@, address);
        }
        let ghost m0 = self@;
        let stall = next.latency();
        let (tag, index, offset) = self.parse_address(address);
        let normalized = self.normalize_address(address);
        let location = CacheLocation { tag, index, offset, way: 0 };
        let idx = index as usize;
        let is_hit = self.cache[idx].valid && self.cache[idx].tag == tag;
        proof {
            assert(m0.sets[idx as int] == block_model(self.cache@[idx as int]));
            assert(is_hit == spec_cache_hit(m0, address));
        }
        if is_hit {
            let v = self.cache[idx].contents[(offset / 4) as usize];
            return Ok(v);
        }
        if self.cache[idx].fetch_request.is_none() {
            let data = crate::memory::zeroed_words(self.block_words as usize);
            proof {
                assert(data@ =~= Seq::new(m0.block_words as nat, |j: int| 0u32));
            }
            let set = &mut self.cache[idx];
            set.fetch_request = Some(
                FetchRequest {
                    address: normalized,
                    cycles_left: stall,
                    location,
                    data,
                    error: None,
                    waiting_on: 0,
                },
            );
            proof {
                self.lemma_one_set_changed(m0, idx as int);
                assert(self@.sets[idx as int] == block_model(self.cache@[idx as int]));
                assert(self@ =~~= spec_cache_read_post(m0, address));
            }
            return Err(MemoryError::CacheMiss { stall_cycles: stall, retry: true });
        }
        // the set has an outstanding request
        let (req_has_error, req_error, req_address, req_cycles) = match &self.cache[
            idx
        ].fetch_request {
            Some(req) => (req.error.is_some(), req.error, req.address, req.cycles_left),
            None => (false, None, 0, 0),
        };
        if req_has_error && req_address == normalized {
            let set = &mut self.cache[idx];
            set.fetch_request = None;
            proof {
                self.lemma_one_set_changed(m0, idx as int);
                assert(self@.sets[idx as int] == block_model(self.cache@[idx as int]));
                assert(self@ =~~= spec_cache_read_post(m0, address));
            }
            return Err(req_error.unwrap());
        }
        if req_address == normalized {
            return Err(MemoryError::CacheMiss { stall_cycles: req_cycles, retry: true });
        }
        // repurpose the request for the new address
        let set = &mut self.cache[idx];
        let mut taken: Option<FetchRequest> = None;
        core::mem::swap(&mut set.fetch_request, &mut taken);
        match taken {
            Some(mut req) => {
                req.address = normalized;
                req.cycles_left = stall;
                req.location = location;
                req.waiting_on = 0;
                req.error = None;
                set.fetch_request = Some(req);
            },
            None => {
            },
        }
        proof {
            self.lemma_one_set_changed(m0, idx as int);
            assert(self@.sets[idx as int] == block_model(self.cache@[idx as int]));
            assert(self@ =~~= spec_cache_read_post(m0, address));
        }
        Err(MemoryError::CacheMiss { stall_cycles: stall, retry: true })
    }

    /// Write the word at `address` under the write-allocate, write-through
    /// policy: a miss starts or advances the line fill exactly as `read_word`
    /// does; once resident, the line word is updated and the write is
    /// forwarded to the next level, whose verdict is surfaced.
    pub fn write_word(&mut self, address: u32, value: u32, next: &mut Memory) -> (r: Result<
        (),
        MemoryError,
    >)
        requires
            old(self).inv(),
        ensures
            final(self).inv(),
            final(self)@ == spec_cache_write_post(old(self)@, old(next)@, address, value),
            final(next)@ == spec_cache_write_mem_post(old(next)@, old(self)@, address, value),
            r == spec_cache_write_result(old(self)@, old(next)@, address),
    {
        let ghost m0 = self@;
        proof {
            lemma_index_in_range(m0, address);
            lemma_offset_in_range(m0, address);
        }
        match self.read_word(address, next) {
            Ok(_) => {
                let (tag, index, offset) = self.parse_address(address);
                let idx = index as usize;
                let set = &mut self.cache[idx];
                set.contents[(offset / 4) as usize] = value;
                proof {
                    self.lemma_one_set_changed(m0, idx as int);
                    assert(self@.sets[idx as int] == block_model(self.cache@[idx as int]));
                    assert(self@ =~~= spec_cache_write_post(m0, old(next)@, address, value));
                }
                next.write_word(address, value)
            },
            Err(e) => Err(e),
        }
    }

    /// Read the byte at `address` through the cache: `read_word` followed by
    /// selection of the lane `address % 4`.
    pub fn read_byte(&mut self, address: u32, next: &Memory) -> (r: Result<u8, MemoryError>)
        requires
            old(self).inv(),
        ensures
            final(self).inv(),
            final(self)@ == spec_cache_read_post(old(self)@, address),
            r == (match spec_cache_read_result(old(self)@, address) {
                Ok(w) => Ok(crate::memory::byte_of(w, address) as u8),
                Err(e) => Err::<u8, MemoryError>(e),
            }),
    {
        match self.read_word(address, next) {
            Ok(w) => Ok(crate::memory::byte_from_word(w, address)),
            Err(e) => Err(e),
        }
    }

    /// Read the halfword at `address` through the cache: `read_word`
    /// followed by selection of the half lane.
    pub fn read_halfword(&mut self, address: u32, next: &Memory) -> (r: Result<u16, MemoryError>)
        requires
            old(self).inv(),
        ensures
            final(self).inv(),
            final(self)@ == spec_cache_read_post(old(self)@, address),
            r == (match spec_cache_read_result(old(self)@, address) {
                Ok(w) => Ok(crate::memory::half_of(w, address) as u16),
                Err(e) => Err::<u16, MemoryError>(e),
            }),
    {
        match self.read_word(address, next) {
            Ok(w) => Ok(crate::memory::half_from_word(w, address)),
            Err(e) => Err(e),
        }
    }

    /// Write the byte at `address` through the cache: a read-modify-write of
    /// the enclosing word under the same policies as `write_word`.
    pub fn write_byte(&mut self, address: u32, b: u8, next: &mut Memory) -> (r: Result<
        (),
        MemoryError,
    >)
        requires
            old(self).inv(),
        ensures
            final(self).inv(),
            final(self)@ == spec_cache_write_post(
                old(self)@,
                old(next)@,
                address,
                crate::memory::with_byte(spec_cache_word(old(self)@, address), address, b as u32),
            ),
            final(next)@ == spec_cache_write_mem_post(
                old(next)@,
                old(self)@,
                address,
                crate::memory::with_byte(spec_cache_word(old(self)@, address), address, b as u32),
            ),
            r == spec_cache_write_result(old(self)@, old(next)@, address),
    {
        match self.read_word(address, next) {
            Ok(w) => self.write_word(address, crate::memory::word_with_byte(w, address, b), next),
            Err(e) => Err(e),
        }
    }

    /// Write the halfword at `address` through the cache: a read-modify-write
    /// of the enclosing word under the same policies as `write_word`.
    pub fn write_halfword(&mut self, address: u32, v: u16, next: &mut Memory) -> (r: Result<
        (),
        MemoryError,
    >)
        requires
            old(self).inv(),
        ensures
            final(self).inv(),
            final(self)@ == spec_cache_write_post(
                old(self)@,
                old(next)@,
                address,
                crate::memory::with_half(spec_cache_word(old(self)@, address), address, v as u32),
            ),
            final(next)@ == spec_cache_write_mem_post(
                old(next)@,
                old(self)@,
                address,
                crate::memory::with_half(spec_cache_word(old(self)@, address), address, v as u32),
            ),
            r == spec_cache_write_result(old(self)@, old(next)@, address),
    {
        match self.read_word(address, next) {
            Ok(w) => self.write_word(address, crate::memory::word_with_half(w, address, v), next),
            Err(e) => Err(e),
        }
    }

    /// Advance every set's miss state machine by one cycle, reading line
    /// words from the next level where a fill is due.
    pub fn step(&mut self, next: &Memory)
        requires
            old(self).inv(),
        ensures
            final(self).inv(),
            final(self)@ == spec_cache_step(old(self)@, next@),
            forall|i: int|
                0 <= i < old(self)@.sets.len() ==> final(self)@.sets[i] == spec_set_step(
                    old(self)@,
                    old(self)@.sets[i],
                    next@,
                ),
    {
        let ghost m0 = self@;
        let n = self.cache.len();
        let bw = self.block_words;
        let mut i: usize = 0;
        while i < n
            invariant
                self.inv(),
                n == self.cache@.len(),
                bw == self@.block_words,
                self@.num_sets == m0.num_sets,
                self@.block_words == m0.block_words,
                n == m0.sets.len(),
                i <= n,
                forall|k: int|
                    0 <= k < i ==> self@.sets[k] == spec_set_step(m0, m0.sets[k], next@),
                forall|k: int| i <= k < n ==> self@.sets[k] == m0.sets[k],
            decreases n - i,
        {
            let ghost mprev = self@;
            let ghost cprev = self.cache@;
            let ghost s0 = self@.sets[i as int];
            proof {
                assert(s0 == block_model(self.cache@[i as int]));
                assert forall|k: int| 0 <= k < cprev.len() implies set_wf(
                    mprev,
                    block_model(#[trigger] cprev[k]),
                ) by {
                    assert(mprev.sets[k] == block_model(cprev[k]));
                }
            }
            let has_request = self.cache[i].fetch_request.is_some();
            if has_request {
                let is_waiting = match &self.cache[i].fetch_request {
                    Some(r) => r.cycles_left > 1,
                    None => false,
                };
                if is_waiting {
                    // Waiting: count down the next-level latency.
                    let set = &mut self.cache[i];
                    let mut taken: Option<FetchRequest> = None;
                    core::mem::swap(&mut set.fetch_request, &mut taken);
                    let mut req = taken.unwrap();
                    req.cycles_left = req.cycles_left - 1;
                    set.fetch_request = Some(req);
                    proof {
                        self.lemma_one_set_changed(mprev, i as int);
                        assert(self@.sets[i as int] == block_model(self.cache@[i as int]));
                        assert(self@.sets[i as int] =~~= spec_set_step(m0, m0.sets[i as int], next@));
                        assert(set_wf(self@, block_model(self.cache@[i as int])));
                        self.lemma_inv_after_update(mprev, cprev, i as int);
                    }
                } else {
                    // Filling: read the line from the next level, starting at
                    // the word the request waits on.
                    proof {
                        assert(s0.request matches Some(q) ==> request_wf(self@, q));
                    }
                    let set = &mut self.cache[i];
                    let mut taken: Option<FetchRequest> = None;
                    core::mem::swap(&mut set.fetch_request, &mut taken);
                    let mut req = taken.unwrap();
                    let ghost r0 = request_model(req);
                    let ghost loc0 = req.location;
                    let ghost first = fill_first(r0);
                    let ghost limit = fill_limit(next@, r0, bw as int);
                    proof {
                        assert(request_wf(mprev, r0));
                        assert(loc0.tag == spec_tag(mprev, r0.address));
                        vstd::arithmetic::div_mod::lemma_fundamental_div_mod(r0.address as int, 4);
                        vstd::arithmetic::div_mod::lemma_div_pos_is_pos(r0.address as int, 4);
                    }
                    while req.waiting_on < bw
                        invariant_except_break
                            bw == m0.block_words,
                            1 <= bw <= 0x1000_0000,
                            req.data@.len() == bw,
                            r0.waiting_on <= req.waiting_on <= bw,
                            req.waiting_on == r0.waiting_on || req.waiting_on <= limit,
                            req.address == r0.address,
                            req.cycles_left == r0.cycles_left,
                            req.location == loc0,
                            req.error == r0.error,
                            first == fill_first(r0),
                            first >= 0,
                            r0.address == 4 * first,
                            limit == fill_limit(next@, r0, bw as int),
                            r0.address + bw * 4 <= 0x1_0000_0000,
                            forall|j: int|
                                0 <= j < bw ==> req.data@[j] == (if r0.waiting_on <= j
                                    < req.waiting_on {
                                    next@[first + j]
                                } else {
                                    r0.data[j]
                                }),
                        ensures
                            req.data@.len() == bw,
                            req.address == r0.address,
                            req.cycles_left == r0.cycles_left,
                            req.location == loc0,
                            req.waiting_on == (if limit > r0.waiting_on {
                                limit
                            } else {
                                r0.waiting_on as int
                            }),
                            forall|j: int|
                                0 <= j < bw ==> req.data@[j] == (if r0.waiting_on <= j < limit {
                                    next@[first + j]
                                } else {
                                    r0.data[j]
                                }),
                            req.waiting_on < bw ==> req.error == Some(MemoryError::InvalidAddress),
                            req.waiting_on == bw ==> req.error == r0.error,
                        decreases bw - req.waiting_on,
                    {
                        let a = req.address + 4 * req.waiting_on;
                        proof {
                            assert(a == 4 * (first + req.waiting_on));
                            vstd::arithmetic::div_mod::lemma_div_multiples_vanish(
                                first + req.waiting_on,
                                4,
                            );
                            assert(a as int / 4 == first + req.waiting_on);
                        }
                        match next.read_word(a) {
                            Ok(v) => {
                                req.data[req.waiting_on as usize] = v;
                                req.waiting_on = req.waiting_on + 1;
                            },
                            Err(MemoryError::CacheMiss { stall_cycles, .. }) => {
                                req.cycles_left = stall_cycles;
                                break ;
                            },
                            Err(MemoryError::InvalidAddress) => {
                                req.error = Some(MemoryError::InvalidAddress);
                                break ;
                            },
                        }
                    }
                    if req.waiting_on == bw {
                        // All words fetched: install the block and fire the
                        // event.
                        self.events.block_fetched(req.location);
                        let set = &mut self.cache[i];
                        set.valid = true;
                        set.tag = req.location.tag;
                        set.contents = req.data;
                        proof {
                            self.lemma_one_set_changed(mprev, i as int);
                            assert(self@.sets[i as int] == block_model(self.cache@[i as int]));
                            assert(self.cache@[i as int].contents@ =~= fill_data(
                                next@,
                                r0,
                                bw as int,
                            ));
                            assert(self@.sets[i as int] =~~= spec_set_step(
                                m0,
                                m0.sets[i as int],
                                next@,
                            ));
                            assert(set_wf(self@, block_model(self.cache@[i as int])));
                            self.lemma_inv_after_update(mprev, cprev, i as int);
                        }
                    } else {
                        // The line is not complete: keep the request, with
                        // the error recorded, for the requester to find.
                        let set = &mut self.cache[i];
                        set.fetch_request = Some(req);
                        proof {
                            self.lemma_one_set_changed(mprev, i as int);
                            assert(self@.sets[i as int] == block_model(self.cache@[i as int]));
                            assert(self.cache@[i as int].fetch_request matches Some(q)
                                && q.data@ =~= fill_data(next@, r0, bw as int));
                            assert(self@.sets[i as int] =~~= spec_set_step(
                                m0,
                                m0.sets[i as int],
                                next@,
                            ));
                            assert(set_wf(self@, block_model(self.cache@[i as int])));
                            self.lemma_inv_after_update(mprev, cprev, i as int);
                        }
                    }
                }
            } else {
                proof {
                    assert(self@.sets[i as int] == spec_set_step(m0, m0.sets[i as int], next@));
                }
            }
            proof {
                assert forall|k: int| 0 <= k <= i implies self@.sets[k] == spec_set_step(
                    m0,
                    m0.sets[k],
                    next@,
                ) by {
                    if k < i {
                        assert(self@.sets[k] == mprev.sets[k]);
                    }
                }
            }
            i = i + 1;
        }
        proof {
            assert(self@ =~~= spec_cache_step(m0, next@));
        }
    }

    /// Re-establish the invariant after a mutation of set `idx` alone, given
    /// that the invariant held for the previous blocks `cprev` under the
    /// unchanged geometry.
    proof fn lemma_inv_after_update(&self, mprev: CacheModel, cprev: Seq<CacheBlock>, idx: int)
        requires
            cprev.len() == self.cache@.len(),
            cprev.len() == self@.num_sets,
            self@.num_sets == mprev.num_sets,
            self@.block_words == mprev.block_words,
            1 <= mprev.num_sets <= 0x1000_0000,
            is_pow2(mprev.num_sets as int),
            1 <= mprev.block_words <= 0x1000_0000,
            is_pow2(mprev.block_words as int),
            0 <= idx < cprev.len(),
            forall|k: int| 0 <= k < cprev.len() && k != idx ==> #[trigger] self.cache@[k] == cprev[k],
            forall|k: int|
                0 <= k < cprev.len() && k != idx ==> set_wf(mprev, block_model(#[trigger] cprev[k])),
            forall|k: int|
                0 <= k < cprev.len() && k != idx ==> (#[trigger] cprev[k].fetch_request matches Some(
                    r,
                ) ==> r.location.tag == spec_tag(mprev, r.address) && r.location.index == spec_index(
                    mprev,
                    r.address,
                )),
            set_wf(self@, block_model(self.cache@[idx])),
            (self.cache@[idx].fetch_request matches Some(r) ==> r.location.tag == spec_tag(
                self@,
                r.address,
            ) && r.location.index == spec_index(self@, r.address)),
        ensures
            self.inv(),
    {
        assert forall|k: int| 0 <= k < self@.sets.len() implies set_wf(
            self@,
            #[trigger] self@.sets[k],
        ) by {
            assert(self@.sets[k] == block_model(self.cache@[k]));
            if k != idx {
                assert(self.cache@[k] == cprev[k]);
                assert(set_wf(mprev, block_model(cprev[k])));
            }
        }
        assert(model_wf(self@));
        assert forall|k: int|
            0 <= k < self.cache@.len() implies (#[trigger] self.cache@[k].fetch_request matches Some(
            r,
        ) ==> r.location.tag == spec_tag(self@, r.address) && r.location.index == spec_index(
            self@,
            r.address,
        )) by {
            if k != idx {
                assert(self.cache@[k] == cprev[k]);
            }
        }
    }

    /// After a mutation of set `idx` alone, every other set of the view is
    /// unchanged.
    proof fn lemma_one_set_changed(&self, m0: CacheModel, idx: int)
        requires
            0 <= idx < self.cache@.len(),
            self.cache@.len() == m0.sets.len(),
            self@.num_sets == m0.num_sets,
            self@.block_words == m0.block_words,
            forall|i: int|
                0 <= i < m0.sets.len() && i != idx ==> m0.sets[i] == block_model(
                    #[trigger] self.cache@[i],
                ),
        ensures
            forall|i: int| 0 <= i < m0.sets.len() && i != idx ==> self@.sets[i] == m0.sets[i],
            self@.sets.len() == m0.sets.len(),
    {
    }

    /// The cache geometry and the resident tags, in set order.
    pub fn cache_metadata(&self) -> (r: CacheMetadata)
        requires
            self.inv(),
        ensures
            r.num_sets == self@.num_sets,
            r.num_ways == 1usize,
            r.num_block_words == self@.block_words,
            r.tags@.len() == self@.num_sets,
            forall|i: int|
                0 <= i < self@.num_sets ==> #[trigger] r.tags@[i] == if self@.sets[i].valid {
                    Some(self@.sets[i].tag)
                } else {
                    None::<u32>
                },
    {
        let mut tags: Vec<Option<u32>> = Vec::new();
        let n = self.cache.len();
        let mut i: usize = 0;
        while i < n
            invariant
                self.inv(),
                n == self.cache@.len(),
                i <= n,
                tags@.len() == i,
                forall|k: int|
                    0 <= k < i ==> #[trigger] tags@[k] == if self@.sets[k].valid {
                        Some(self@.sets[k].tag)
                    } else {
                        None::<u32>
                    },
            decreases n - i,
        {
            let set = &self.cache[i];
            if set.valid {
                tags.push(Some(set.tag));
            } else {
                tags.push(None);
            }
            proof {
                assert(self@.sets[i as int] == block_model(self.cache@[i as int]));
            }
            i = i + 1;
        }
        CacheMetadata {
            num_sets: self.num_sets as usize,
            num_ways: 1,
            num_block_words: self.block_words as usize,
            tags,
        }
    }
}

/// Cache transparency on hits: once an address hits, reading it returns the
/// cached word, costs no stall, and leaves the cache exactly as it was — so
/// repeated reads keep returning the same value until the set is evicted.
pub proof fn lemma_hit_transparency(m: CacheModel, a: u32)
    requires
        model_wf(m),
        spec_cache_hit(m, a),
    ensures
        spec_cache_read_result(m, a) == Ok::<u32, MemoryError>(spec_cache_word(m, a)),
        spec_cache_read_post(m, a) == m,
{
}

/// Write-through consistency: after every successful `write_word` through
/// the cache, the next level immediately reads back the written value, and so
/// does the cache itself.
pub proof fn lemma_write_through(m: CacheModel, mem: Seq<u32>, a: u32, v: u32)
    requires
        model_wf(m),
        spec_cache_write_result(m, mem, a) == Ok::<(), MemoryError>(()),
    ensures
        crate::memory::spec_read_word(spec_cache_write_mem_post(mem, m, a, v), a) == Ok::<
            u32,
            MemoryError,
        >(v),
        spec_cache_read_result(spec_cache_write_post(m, mem, a, v), a) == Ok::<u32, MemoryError>(v),
{
    lemma_index_in_range(m, a);
    lemma_offset_in_range(m, a);
    let m1 = spec_cache_write_post(m, mem, a, v);
    assert(spec_cache_hit(m, a));
    assert(m1.sets[spec_index(m, a)].contents[spec_offset(m, a) / 4] == v);
    assert(spec_cache_hit(m1, a));
}

/// The set index of every address lies inside the cache.
pub proof fn lemma_index_in_range(m: CacheModel, a: u32)
    requires
        model_wf(m),
    ensures
        0 <= spec_index(m, a) < m.num_sets,
{
    let line = line_bytes(m);
    vstd::arithmetic::div_mod::lemma_mod_bound(a as int / line, m.num_sets as int);
}

/// The byte offset of every address lies inside its line, and selects a word
/// slot inside the block.
pub proof fn lemma_offset_in_range(m: CacheModel, a: u32)
    requires
        model_wf(m),
    ensures
        0 <= spec_offset(m, a) < line_bytes(m),
        0 <= spec_offset(m, a) / 4 < m.block_words,
{
    let line = line_bytes(m);
    vstd::arithmetic::div_mod::lemma_mod_bound(a as int, line);
    vstd::arithmetic::div_mod::lemma_multiply_divide_lt(spec_offset(m, a), 4, m.block_words as int);
    assert(4 * m.block_words as int == line);
}

/// The line size divides the size of the address space: both are powers of
/// two.
proof fn lemma_line_divides_address_space(m: CacheModel)
    requires
        model_wf(m),
    ensures
        0x1_0000_0000int % line_bytes(m) == 0,
{
    let bw = m.block_words as int;
    let line = line_bytes(m);
    vstd::arithmetic::power2::is_pow2_equiv(bw);
    let k = choose|k: nat| vstd::arithmetic::power::pow(2, k) == bw;
    vstd::arithmetic::power2::lemma2_to64();
    assert(vstd::arithmetic::power2::pow2(k) == bw);
    if k > 28 {
        vstd::arithmetic::power2::lemma_pow2_strictly_increases(28, k);
        assert(false);
    }
    vstd::arithmetic::power2::lemma_pow2_adds(k, 2);
    assert(line == vstd::arithmetic::power2::pow2((k + 2) as nat)) by (nonlinear_arith)
        requires
            line == bw * 4,
            bw == vstd::arithmetic::power2::pow2(k),
            vstd::arithmetic::power2::pow2((k + 2) as nat) == vstd::arithmetic::power2::pow2(k)
                * vstd::arithmetic::power2::pow2(2),
            vstd::arithmetic::power2::pow2(2) == 4,
    ;
    vstd::arithmetic::power2::lemma_pow2_adds((k + 2) as nat, (30 - k) as nat);
    let rest = vstd::arithmetic::power2::pow2((30 - k) as nat) as int;
    assert(0x1_0000_0000 == line * rest);
    vstd::arithmetic::div_mod::lemma_mod_multiples_basic(rest, line);
    assert(rest * line == line * rest) by (nonlinear_arith);
}

/// Properties of the line base address: it is line-aligned and word-aligned,
/// it does not exceed the address it was derived from, its whole line lies
/// inside the address space, and it shares tag and set index with every
/// address of the line.
pub proof fn lemma_base_properties(m: CacheModel, a: u32)
    requires
        model_wf(m),
    ensures
        0 <= spec_base(m, a) <= a,
        spec_offset(m, spec_base(m, a) as u32) == 0,
        spec_base(m, a) % 4 == 0,
        spec_base(m, a) + line_bytes(m) <= 0x1_0000_0000,
        spec_tag(m, spec_base(m, a) as u32) == spec_tag(m, a),
        spec_index(m, spec_base(m, a) as u32) == spec_index(m, a),
{
    let line = line_bytes(m);
    let q = a as int / line;
    let base = spec_base(m, a);
    vstd::arithmetic::div_mod::lemma_fundamental_div_mod(a as int, line);
    vstd::arithmetic::div_mod::lemma_mod_bound(a as int, line);
    assert(base == line * q);
    vstd::arithmetic::div_mod::lemma_div_pos_is_pos(a as int, line);
    assert(base >= 0) by (nonlinear_arith)
        requires
            base == line * q,
            line > 0,
            q >= 0,
    ;
    // line-aligned: base % line == 0, so its offset is 0
    vstd::arithmetic::div_mod::lemma_mod_multiples_basic(q, line);
    assert(q * line == line * q) by (nonlinear_arith);
    assert(base % line == 0);
    // word-aligned: base is also a multiple of 4
    let bw = m.block_words as int;
    assert(base == (q * bw) * 4) by (nonlinear_arith)
        requires
            base == line * q,
            line == bw * 4,
    ;
    vstd::arithmetic::div_mod::lemma_mod_multiples_basic(q * bw, 4);
    // the whole line fits below 2^32
    lemma_line_divides_address_space(m);
    let cap = 0x1_0000_0000int;
    vstd::arithmetic::div_mod::lemma_fundamental_div_mod(cap, line);
    let big = cap / line;
    assert(cap == line * big);
    assert(q < big) by (nonlinear_arith)
        requires
            line * q <= a as int,
            (a as int) < line * big,
            line > 0,
    ;
    assert(line * (q + 1) <= line * big) by (nonlinear_arith)
        requires
            q + 1 <= big,
            line > 0,
    ;
    assert(line * (q + 1) == line * q + line) by (nonlinear_arith);
    assert(base + line <= cap);
    // same tag and index: the base has the same line number
    vstd::arithmetic::div_mod::lemma_div_multiples_vanish(q, line);
    assert((spec_base(m, a) as u32) as int == base);
    assert(base / line == q);
}

}
