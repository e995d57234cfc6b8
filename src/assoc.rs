//! Associative part of the tables: a power-of-two array of cells where
//! collisions are chained by signed offsets between cells.

use vstd::prelude::*;
use vstd::utf8::encode_utf8;
use vstd::string::StringSliceAdditionalSpecFns;

verus! {

/// The base two logarithm of an associative part's capacity.
pub type LogSize = u32;

/// The largest `LogSize` a table may have.
pub const MAX_LOGLEN: u32 = 30;

/// The seed of the string hash.
pub const STR_HASH_SEED: u32 = 0x645D_BFCD;

/// A key of the associative part.
#[derive(Debug)]
pub enum Key {
    Index(i32),
    Name(String),
}

/// The bytes of a string key.
pub open spec fn name_bytes(s: String) -> Seq<u8> {
    encode_utf8(s@)
}

/// Capacity of an associative part with the given logarithm.
pub open spec fn size_of(loglen: Option<LogSize>) -> nat {
    match loglen {
        None => 0,
        Some(l) => vstd::arithmetic::power2::pow2(l as nat),
    }
}

pub open spec fn spec_mask(loglen: LogSize) -> u32 {
    (vstd::arithmetic::power2::pow2(loglen as nat) - 1) as u32
}

/// One round of the string hash on the byte `b`.
pub open spec fn hash_mix(h: u32, b: u8) -> u32 {
    h ^ (h << 5u32).wrapping_add(h >> 2u32).wrapping_add(b as u32)
}

/// The string hash after walking down from `index` by `step`.
pub open spec fn hash_walk(bytes: Seq<u8>, index: int, step: int, h: u32) -> u32
    decreases index,
{
    if step > 0 && index >= step && index <= bytes.len() {
        hash_walk(bytes, index - step, step, hash_mix(h, bytes[index - 1]))
    } else {
        h
    }
}

/// The seeded string hash: every `step`-th byte is mixed in, from the last
/// one down, with `step` one more than the length divided by 32.
pub open spec fn spec_str_hash_with_seed(seed: u32, bytes: Seq<u8>) -> u32 {
    hash_walk(bytes, bytes.len() as int, (bytes.len() / 32 + 1) as int, seed ^ (bytes.len() as u32))
}

pub open spec fn spec_str_hash(bytes: Seq<u8>) -> u32 {
    spec_str_hash_with_seed(STR_HASH_SEED, bytes)
}

/// The integer hash: zero on a table of one cell, else the value (taken
/// as unsigned when negative) modulo the mask.
pub open spec fn spec_int_hash(value: i32, loglen: LogSize) -> u32 {
    if loglen == 0 {
        0
    } else if value >= 0 {
        (value as int % spec_mask(loglen) as int) as u32
    } else {
        ((value as u32) as int % spec_mask(loglen) as int) as u32
    }
}

/// The integer hash on a table of one cell is zero for every value, and the
/// string hash of the empty string is the seed itself.
pub proof fn lemma_hash_edge_cases(v: i32)
    ensures
        spec_int_hash(v, 0) == 0,
        spec_str_hash(Seq::<u8>::empty()) == STR_HASH_SEED,
{
    assert(STR_HASH_SEED ^ 0u32 == STR_HASH_SEED) by (bit_vector);
}

pub proof fn lemma_pow2_bounds(l: nat)
    requires
        l <= MAX_LOGLEN,
    ensures
        1 <= vstd::arithmetic::power2::pow2(l) <= 0x4000_0000,
        l > 0 ==> vstd::arithmetic::power2::pow2(l) >= 2,
        vstd::arithmetic::power2::pow2(l) == 1u32 << (l as u32),
{
    vstd::arithmetic::power2::lemma_pow2_pos(l);
    vstd::arithmetic::power2::lemma2_to64();
    if l > 0 {
        vstd::arithmetic::power2::lemma_pow2_strictly_increases(0, l);
    }
    vstd::arithmetic::power2::lemma_pow2_strictly_increases(l, 31);
    vstd::arithmetic::power2::lemma_pow2_unfold(31);
    vstd::bits::lemma_u32_shl_is_mul(1, l as u32);
}

/// `2^loglen - 1`.
pub fn mask(loglen: LogSize) -> (r: u32)
    requires
        loglen <= MAX_LOGLEN,
    ensures
        r == spec_mask(loglen),
        r as nat + 1 == size_of(Some(loglen)),
{
    proof { lemma_pow2_bounds(loglen as nat); }
    (1u32 << loglen) - 1
}

/// The seeded string hash of `value`.
pub fn str_table_hash_with_seed(seed: u32, value: &str) -> (r: u32)
    requires
        value.spec_bytes().len() <= u32::MAX,
    ensures
        r == spec_str_hash_with_seed(seed, value.spec_bytes()),
{
    let bytes = value.as_bytes();
    let mut index: usize = bytes.len();
    let mut hash: u32 = seed ^ (index as u32);
    assert(index >> 5usize == index / 32) by (bit_vector);
    let step: usize = (index >> 5) + 1;
    while index >= step
        invariant
            bytes@ == value.spec_bytes(),
            step == bytes@.len() / 32 + 1,
            index <= bytes@.len(),
            hash_walk(bytes@, index as int, step as int, hash)
                == spec_str_hash_with_seed(seed, bytes@),
        decreases index,
    {
        let j: usize = index - 1;
        hash = hash ^ (hash << 5u32).wrapping_add(hash >> 2u32).wrapping_add(bytes[j] as u32);
        index = index - step;
    }
    hash
}

/// The string hash with the table seed.
pub fn str_table_hash(value: &str) -> (r: u32)
    requires
        value.spec_bytes().len() <= u32::MAX,
    ensures
        r == spec_str_hash(value.spec_bytes()),
{
    str_table_hash_with_seed(STR_HASH_SEED, value)
}

/// The integer hash of `value` on a table of `2^loglen` cells.
pub fn int_table_hash(value: i32, loglen: LogSize) -> (r: u32)
    requires
        loglen <= MAX_LOGLEN,
    ensures
        r == spec_int_hash(value, loglen),
        r < size_of(Some(loglen)),
{
    if loglen == 0 {
        proof { lemma_pow2_bounds(0); }
        return 0;
    }
    let m = mask(loglen);
    proof { lemma_pow2_bounds(loglen as nat); }
    if value >= 0 {
        (value % (m as i32)) as u32
    } else {
        (value as u32) % m
    }
}


pub proof fn lemma_masked_below(h: u32, loglen: LogSize)
    requires
        loglen <= MAX_LOGLEN,
    ensures
        (h & spec_mask(loglen)) < size_of(Some(loglen)),
{
    lemma_pow2_bounds(loglen as nat);
    let m = spec_mask(loglen);
    assert(h & m <= m) by (bit_vector);
}

/// A key's main position lies inside the table.
pub proof fn lemma_position_below(key: Key, loglen: LogSize)
    requires
        loglen <= MAX_LOGLEN,
    ensures
        key.spec_position(loglen) < size_of(Some(loglen)),
{
    lemma_pow2_bounds(loglen as nat);
    match key {
        Key::Index(i) => {},
        Key::Name(s) => lemma_masked_below(spec_str_hash(name_bytes(s)), loglen),
    }
}

impl Key {
    /// A key whose hash can be computed: a name's length fits in 32 bits.
    pub open spec fn wf(&self) -> bool {
        match self {
            Key::Index(_) => true,
            Key::Name(s) => name_bytes(*s).len() <= u32::MAX,
        }
    }

    /// The cell a key hashes to.
    pub open spec fn spec_position(&self, loglen: LogSize) -> u32 {
        match self {
            Key::Index(i) => spec_int_hash(*i, loglen),
            Key::Name(s) => spec_str_hash(name_bytes(*s)) & spec_mask(loglen),
        }
    }

    /// The cell this key hashes to in a table of `2^loglen` cells.
    pub fn position(&self, loglen: LogSize) -> (r: u32)
        requires
            self.wf(),
            loglen <= MAX_LOGLEN,
        ensures
            r == self.spec_position(loglen),
            r < size_of(Some(loglen)),
    {
        match self {
            Key::Index(index) => int_table_hash(*index, loglen),
            Key::Name(value) => {
                proof { lemma_masked_below(spec_str_hash(name_bytes(*value)), loglen); }
                str_table_hash(value.as_str()) & mask(loglen)
            },
        }
    }
}

/// A cell's content: a live entry, or a dead one that only keeps its link.
/// `link` is the offset of the next cell of the chain, zero at its end.
#[derive(Debug)]
pub enum AssocItem<V> {
    Live { key: Key, value: Option<V>, link: i32 },
    Dead { link: i32 },
}

impl<V> AssocItem<V> {
    pub open spec fn link_of(&self) -> i32 {
        match self {
            AssocItem::Live { link, .. } => *link,
            AssocItem::Dead { link } => *link,
        }
    }

    pub open spec fn with_link(self, l: i32) -> Self {
        match self {
            AssocItem::Live { key, value, .. } => AssocItem::Live { key, value, link: l },
            AssocItem::Dead { .. } => AssocItem::Dead { link: l },
        }
    }

    pub open spec fn wf(&self) -> bool {
        match self {
            AssocItem::Live { key, .. } => key.wf(),
            AssocItem::Dead { .. } => true,
        }
    }

    /// The main position of a live item; none for a dead one.
    pub open spec fn spec_main_position(&self, loglen: LogSize) -> Option<u32> {
        match self {
            AssocItem::Live { key, .. } => Some(key.spec_position(loglen)),
            AssocItem::Dead { .. } => None,
        }
    }

    pub fn link(&self) -> (r: i32)
        ensures
            r == self.link_of(),
    {
        match self {
            AssocItem::Live { link, .. } => *link,
            AssocItem::Dead { link } => *link,
        }
    }

    pub fn main_position(&self, loglen: LogSize) -> (r: Option<u32>)
        requires
            self.wf(),
            loglen <= MAX_LOGLEN,
        ensures
            r == self.spec_main_position(loglen),
            r matches Some(p) ==> p < size_of(Some(loglen)),
    {
        match self {
            AssocItem::Dead { .. } => None,
            AssocItem::Live { key, .. } => Some(key.position(loglen)),
        }
    }

    /// The item moved from cell `old_index` to cell `new_index`: its
    /// outgoing link, if any, still leads to the same cell.
    pub fn relocate(self, old_index: u32, new_index: u32) -> (r: Self)
        requires
            old_index <= i32::MAX,
            new_index <= i32::MAX,
            self.link_of() == 0 || i32::MIN <= self.link_of() + old_index - new_index <= i32::MAX,
        ensures
            r == self.with_link(
                if self.link_of() == 0 { 0 } else { (self.link_of() + old_index - new_index) as i32 },
            ),
    {
        match self {
            AssocItem::Live { key, value, link } => {
                let link = if link != 0 { link + (old_index as i32 - new_index as i32) } else { link };
                AssocItem::Live { key, value, link }
            },
            AssocItem::Dead { link } => {
                let link = if link != 0 { link + (old_index as i32 - new_index as i32) } else { link };
                AssocItem::Dead { link }
            },
        }
    }

    /// The cell this item links to moved from `old_index` to `new_index`:
    /// its link, if any, now leads to the new cell.
    pub fn relocate_link(&mut self, old_index: u32, new_index: u32)
        requires
            old_index <= i32::MAX,
            new_index <= i32::MAX,
            old(self).link_of() == 0
                || i32::MIN <= old(self).link_of() + new_index - old_index <= i32::MAX,
        ensures
            *final(self) == old(self).with_link(
                if old(self).link_of() == 0 { 0 } else { (old(self).link_of() + new_index - old_index) as i32 },
            ),
    {
        match self {
            AssocItem::Live { link, .. } => {
                if *link != 0 {
                    *link = *link + (new_index as i32 - old_index as i32);
                }
            },
            AssocItem::Dead { link } => {
                if *link != 0 {
                    *link = *link + (new_index as i32 - old_index as i32);
                }
            },
        }
    }
}

} // verus!
