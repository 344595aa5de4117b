//! Cold per-player data in a memory-mapped file: one 128-byte slot per
//! player, each field stored little-endian at a fixed offset.

use memmap2::MmapMut;
use vstd::bytes::*;
use vstd::prelude::*;

verus! {

pub const SLOT_SIZE: usize = 128;
pub const INITIAL_CAPACITY: usize = 2_000_000;

pub const O_DFT_SPENT: usize = 0;
pub const O_DFT_EARNED: usize = 16;
pub const O_PLUNDERED: usize = 32;
pub const O_ENERGY_COL: usize = 48;
pub const O_REBUILDS: usize = 64;
pub const O_REBIRTH: usize = 68;
pub const O_GROWTH: usize = 70;
pub const O_ATK_TODAY: usize = 74;
pub const O_AGGR: usize = 76;
pub const O_GREED: usize = 77;
pub const O_BOLD: usize = 78;
pub const O_SOCIAL: usize = 79;
pub const O_EMO: usize = 80;
pub const O_ANGER: usize = 81;
pub const O_FEAR: usize = 82;
pub const O_ELATION: usize = 83;
pub const O_BOREDOM: usize = 84;
pub const O_TILT: usize = 85;
pub const O_BURNOUT: usize = 86;
pub const O_CWINS: usize = 87;
pub const O_CLOSSES: usize = 89;
pub const O_DAYS_ATK: usize = 91;
pub const O_DAYS_DEATH: usize = 95;
pub const O_GEN: usize = 99;
pub const O_INVITES: usize = 103;
pub const O_INVITED: usize = 104;
pub const O_REFERRAL: usize = 109;
pub const O_IS_ELITE: usize = 111;

/// Bit pattern of the 32-bit float 1.0: the growth multiplier of a fresh slot.
pub const GROWTH_ONE_BITS: u32 = 0x3F80_0000;

/// The first 104 bytes of a freshly reset slot: every counter and statistic
/// 0, growth multiplier 1.0, personality traits 50 and boredom 50.
pub open spec fn reset_block() -> Seq<u8> {
    spec_u128_to_le_bytes(0) + spec_u128_to_le_bytes(0) + spec_u128_to_le_bytes(0)
        + spec_u128_to_le_bytes(0) + spec_u32_to_le_bytes(0) + spec_u16_to_le_bytes(0)
        + spec_u32_to_le_bytes(GROWTH_ONE_BITS) + spec_u16_to_le_bytes(0) + seq![
        50u8,
        50u8,
        50u8,
        50u8,
        50u8,
        0u8,
        0u8,
        0u8,
        50u8,
        0u8,
        0u8,
    ] + spec_u16_to_le_bytes(0) + spec_u16_to_le_bytes(0) + spec_u32_to_le_bytes(0)
        + spec_u32_to_le_bytes(0) + spec_u32_to_le_bytes(0) + seq![0u8]
}

// ─────────────────────────────────────────────────────────────
// The memory map
// ─────────────────────────────────────────────────────────────

#[verifier::external_type_specification]
#[verifier::external_body]
pub struct ExMmapMut(MmapMut);

/// The bytes that a memory map holds.
pub uninterp spec fn mapped_bytes(m: MmapMut) -> Seq<u8>;

/// Calls `MmapMut::len`: the number of mapped bytes.
#[verifier::external_body]
fn mapped_len(m: &MmapMut) -> (n: usize)
    ensures
        n == mapped_bytes(*m).len(),
{
    m.len()
}

/// Reads `len` bytes at `start` through `MmapMut`'s `Deref` to `[u8]`. The
/// contract claims the bytes are those held by the map: that what a write
/// through the map stored is read back, which holds while no other process
/// writes the mapped file.
#[verifier::external_body]
fn mapped_read(m: &MmapMut, start: usize, len: usize) -> (v: Vec<u8>)
    requires
        start + len <= mapped_bytes(*m).len(),
    ensures
        v@ == mapped_bytes(*m).subrange(start as int, start + len),
{
    m[start..start + len].to_vec()
}

/// Writes `data` at `start` through `MmapMut`'s `DerefMut` to `[u8]`; the
/// other bytes and the length are unchanged.
#[verifier::external_body]
fn mapped_write(m: &mut MmapMut, start: usize, data: &[u8])
    requires
        start + data@.len() <= mapped_bytes(*old(m)).len(),
    ensures
        mapped_bytes(*final(m)) == overwrite(mapped_bytes(*old(m)), start as int, data@),
{
    m[start..start + data.len()].copy_from_slice(data)
}

/// Zero bytes, `n` of them.
pub open spec fn zeros(n: nat) -> Seq<u8> {
    Seq::new(n, |_i: int| 0u8)
}

/// Sets the bytes from `start` up to `end` to zero with `<[u8]>::fill`
/// through `MmapMut`'s `DerefMut` to `[u8]`; the other bytes and the length
/// are unchanged.
#[verifier::external_body]
fn mapped_fill_zero(m: &mut MmapMut, start: usize, end: usize)
    requires
        start <= end <= mapped_bytes(*old(m)).len(),
    ensures
        mapped_bytes(*final(m)) == overwrite(mapped_bytes(*old(m)), start as int, zeros((end - start) as nat)),
{
    m[start..end].fill(0)
}

/// Copies the first `n` bytes of `src` over the first `n` bytes of `dst`
/// through the maps' `Deref`/`DerefMut` to `[u8]`.
#[verifier::external_body]
fn mapped_copy_prefix(dst: &mut MmapMut, src: &MmapMut, n: usize)
    requires
        n <= mapped_bytes(*old(dst)).len(),
        n <= mapped_bytes(*src).len(),
    ensures
        mapped_bytes(*final(dst)) == overwrite(
            mapped_bytes(*old(dst)),
            0,
            mapped_bytes(*src).subrange(0, n as int),
        ),
{
    dst[..n].copy_from_slice(&src[..n])
}

/// `bytes` with `data` written over it from position `pos`.
pub open spec fn overwrite(bytes: Seq<u8>, pos: int, data: Seq<u8>) -> Seq<u8> {
    bytes.subrange(0, pos) + data + bytes.subrange(pos + data.len(), bytes.len() as int)
}

/// Reading back a written range gives the data, and the length is kept.
pub proof fn lemma_overwrite_read(bytes: Seq<u8>, pos: int, data: Seq<u8>)
    requires
        0 <= pos,
        pos + data.len() <= bytes.len(),
    ensures
        overwrite(bytes, pos, data).len() == bytes.len(),
        overwrite(bytes, pos, data).subrange(pos, pos + data.len()) == data,
{
    assert(overwrite(bytes, pos, data).subrange(pos, pos + data.len()) =~= data);
}

/// A write leaves every byte outside its range unchanged.
pub proof fn lemma_overwrite_frame(bytes: Seq<u8>, pos: int, data: Seq<u8>, lo: int, hi: int)
    requires
        0 <= pos,
        pos + data.len() <= bytes.len(),
        0 <= lo <= hi <= bytes.len(),
        hi <= pos || pos + data.len() <= lo,
    ensures
        overwrite(bytes, pos, data).subrange(lo, hi) == bytes.subrange(lo, hi),
{
    assert(overwrite(bytes, pos, data).subrange(lo, hi) =~= bytes.subrange(lo, hi));
}

// ─────────────────────────────────────────────────────────────
// The slot store
// ─────────────────────────────────────────────────────────────

pub struct ColdStore {
    mmap: MmapMut,
    capacity: usize,
}

impl ColdStore {
    /// All mapped bytes.
    pub closed spec fn bytes(&self) -> Seq<u8> {
        mapped_bytes(self.mmap)
    }

    /// Number of player slots.
    pub closed spec fn cap(&self) -> nat {
        self.capacity as nat
    }

    /// The map holds (at least) `cap` slots.
    pub open spec fn wf(&self) -> bool {
        &&& self.bytes().len() >= self.cap() * SLOT_SIZE
        &&& self.cap() * SLOT_SIZE <= usize::MAX
    }

    /// The `len` bytes at offset `off` of slot `idx`.
    pub open spec fn field(&self, idx: nat, off: nat, len: nat) -> Seq<u8> {
        self.bytes().subrange(idx * SLOT_SIZE + off, idx * SLOT_SIZE + off + len)
    }

    pub open spec fn u128_at(&self, idx: nat, off: nat) -> u128 {
        spec_u128_from_le_bytes(self.field(idx, off, 16))
    }

    pub open spec fn u32_at(&self, idx: nat, off: nat) -> u32 {
        spec_u32_from_le_bytes(self.field(idx, off, 4))
    }

    pub open spec fn u16_at(&self, idx: nat, off: nat) -> u16 {
        spec_u16_from_le_bytes(self.field(idx, off, 2))
    }

    pub open spec fn u8_at(&self, idx: nat, off: nat) -> u8 {
        self.bytes()[idx * SLOT_SIZE + off]
    }

    /// The store after writing `data` at offset `off` of slot `idx`.
    pub open spec fn written(self, after: ColdStore, idx: nat, off: nat, data: Seq<u8>) -> bool {
        &&& after.cap() == self.cap()
        &&& after.bytes() == overwrite(self.bytes(), idx * SLOT_SIZE + off, data)
    }

    proof fn lemma_slot_in_bounds(&self, idx: nat, off: nat, len: nat)
        requires
            self.wf(),
            idx < self.cap(),
            off + len <= SLOT_SIZE,
        ensures
            idx * SLOT_SIZE + off + len <= self.bytes().len(),
            idx * SLOT_SIZE + off + len <= usize::MAX,
    {
        assert(idx * SLOT_SIZE + SLOT_SIZE <= self.cap() * SLOT_SIZE) by (nonlinear_arith)
            requires
                idx < self.cap(),
        ;
    }

    fn read_bytes(&self, idx: u32, off: usize, len: usize) -> (v: Vec<u8>)
        requires
            self.wf(),
            idx < self.cap(),
            off + len <= SLOT_SIZE,
        ensures
            v@ == self.field(idx as nat, off as nat, len as nat),
    {
        proof {
            self.lemma_slot_in_bounds(idx as nat, off as nat, len as nat);
        }
        let start: usize = idx as usize * SLOT_SIZE + off;
        mapped_read(&self.mmap, start, len)
    }

    fn write_bytes(&mut self, idx: u32, off: usize, data: &[u8])
        requires
            old(self).wf(),
            idx < old(self).cap(),
            off + data@.len() <= SLOT_SIZE,
        ensures
            final(self).wf(),
            old(self).written(*final(self), idx as nat, off as nat, data@),
    {
        proof {
            self.lemma_slot_in_bounds(idx as nat, off as nat, data@.len());
            lemma_overwrite_read(self.bytes(), idx * SLOT_SIZE + off, data@);
        }
        let start: usize = idx as usize * SLOT_SIZE + off;
        mapped_write(&mut self.mmap, start, data);
    }

    fn read_u128(&self, idx: u32, off: usize) -> (r: u128)
        requires
            self.wf(),
            idx < self.cap(),
            off + 16 <= SLOT_SIZE,
        ensures
            r == self.u128_at(idx as nat, off as nat),
    {
        let b: Vec<u8> = self.read_bytes(idx, off, 16);
        u128_from_le_bytes(b.as_slice())
    }

    fn write_u128(&mut self, idx: u32, off: usize, val: u128)
        requires
            old(self).wf(),
            idx < old(self).cap(),
            off + 16 <= SLOT_SIZE,
        ensures
            final(self).wf(),
            old(self).written(*final(self), idx as nat, off as nat, spec_u128_to_le_bytes(val)),
    {
        let b: Vec<u8> = u128_to_le_bytes(val);
        self.write_bytes(idx, off, b.as_slice());
    }

    fn read_u32(&self, idx: u32, off: usize) -> (r: u32)
        requires
            self.wf(),
            idx < self.cap(),
            off + 4 <= SLOT_SIZE,
        ensures
            r == self.u32_at(idx as nat, off as nat),
    {
        let b: Vec<u8> = self.read_bytes(idx, off, 4);
        u32_from_le_bytes(b.as_slice())
    }

    fn write_u32(&mut self, idx: u32, off: usize, val: u32)
        requires
            old(self).wf(),
            idx < old(self).cap(),
            off + 4 <= SLOT_SIZE,
        ensures
            final(self).wf(),
            old(self).written(*final(self), idx as nat, off as nat, spec_u32_to_le_bytes(val)),
    {
        proof {
            lemma_auto_spec_u32_to_from_le_bytes();
        }
        let b: Vec<u8> = u32_to_le_bytes(val);
        self.write_bytes(idx, off, b.as_slice());
    }

    fn read_u16(&self, idx: u32, off: usize) -> (r: u16)
        requires
            self.wf(),
            idx < self.cap(),
            off + 2 <= SLOT_SIZE,
        ensures
            r == self.u16_at(idx as nat, off as nat),
    {
        let b: Vec<u8> = self.read_bytes(idx, off, 2);
        u16_from_le_bytes(b.as_slice())
    }

    fn write_u16(&mut self, idx: u32, off: usize, val: u16)
        requires
            old(self).wf(),
            idx < old(self).cap(),
            off + 2 <= SLOT_SIZE,
        ensures
            final(self).wf(),
            old(self).written(*final(self), idx as nat, off as nat, spec_u16_to_le_bytes(val)),
    {
        proof {
            lemma_auto_spec_u16_to_from_le_bytes();
        }
        let b: Vec<u8> = u16_to_le_bytes(val);
        self.write_bytes(idx, off, b.as_slice());
    }

    fn read_u8(&self, idx: u32, off: usize) -> (r: u8)
        requires
            self.wf(),
            idx < self.cap(),
            off + 1 <= SLOT_SIZE,
        ensures
            r == self.u8_at(idx as nat, off as nat),
    {
        let b: Vec<u8> = self.read_bytes(idx, off, 1);
        b[0]
    }

    fn write_u8(&mut self, idx: u32, off: usize, val: u8)
        requires
            old(self).wf(),
            idx < old(self).cap(),
            off + 1 <= SLOT_SIZE,
        ensures
            final(self).wf(),
            old(self).written(*final(self), idx as nat, off as nat, seq![val]),
    {
        let b: Vec<u8> = vec![val];
        assert(b@ =~= seq![val]);
        self.write_bytes(idx, off, b.as_slice());
    }

    /// Slot `idx` holds the values of a fresh player: counters and
    /// statistics 0, growth multiplier 1.0, the five personality traits 50,
    /// anger/fear/elation 0, boredom 50, tilt and burnout 0, no inviter.
    pub open spec fn slot_is_reset(&self, idx: nat) -> bool {
        &&& self.u128_at(idx, O_DFT_SPENT as nat) == 0
        &&& self.u128_at(idx, O_DFT_EARNED as nat) == 0
        &&& self.u128_at(idx, O_PLUNDERED as nat) == 0
        &&& self.u128_at(idx, O_ENERGY_COL as nat) == 0
        &&& self.u32_at(idx, O_REBUILDS as nat) == 0
        &&& self.u16_at(idx, O_REBIRTH as nat) == 0
        &&& self.u32_at(idx, O_GROWTH as nat) == GROWTH_ONE_BITS
        &&& self.u16_at(idx, O_ATK_TODAY as nat) == 0
        &&& self.u8_at(idx, O_AGGR as nat) == 50
        &&& self.u8_at(idx, O_GREED as nat) == 50
        &&& self.u8_at(idx, O_BOLD as nat) == 50
        &&& self.u8_at(idx, O_SOCIAL as nat) == 50
        &&& self.u8_at(idx, O_EMO as nat) == 50
        &&& self.u8_at(idx, O_ANGER as nat) == 0
        &&& self.u8_at(idx, O_FEAR as nat) == 0
        &&& self.u8_at(idx, O_ELATION as nat) == 0
        &&& self.u8_at(idx, O_BOREDOM as nat) == 50
        &&& self.u8_at(idx, O_TILT as nat) == 0
        &&& self.u8_at(idx, O_BURNOUT as nat) == 0
        &&& self.u16_at(idx, O_CWINS as nat) == 0
        &&& self.u16_at(idx, O_CLOSSES as nat) == 0
        &&& self.u32_at(idx, O_DAYS_ATK as nat) == 0
        &&& self.u32_at(idx, O_DAYS_DEATH as nat) == 0
        &&& self.u32_at(idx, O_GEN as nat) == 0
        &&& self.u8_at(idx, O_INVITES as nat) == 0
        &&& self.invited_by_at(idx) is None
        &&& self.u16_at(idx, O_REFERRAL as nat) == 0
    }

    /// Every slot other than `idx` holds the same bytes in both stores.
    pub open spec fn same_except(&self, other: &ColdStore, idx: nat) -> bool {
        &&& other.cap() == self.cap()
        &&& forall|j: nat| j < self.cap() && j != idx ==> #[trigger] other.field(j, 0, SLOT_SIZE as nat)
            == self.field(j, 0, SLOT_SIZE as nat)
    }

    /// Resets slot `idx` to a fresh player's values (the elite flag, the
    /// stale inviter id and the padding keep their bytes).
    pub fn reset_slot(&mut self, idx: u32)
        requires
            old(self).wf(),
            idx < old(self).cap(),
        ensures
            final(self).wf(),
            final(self).slot_is_reset(idx as nat),
            old(self).same_except(&*final(self), idx as nat),
            final(self).u8_at(idx as nat, O_IS_ELITE as nat) == old(self).u8_at(idx as nat, O_IS_ELITE as nat),
    {
        proof {
            lemma_auto_spec_u128_to_from_le_bytes();
            lemma_auto_spec_u32_to_from_le_bytes();
            lemma_auto_spec_u16_to_from_le_bytes();
        }
        let mut block: Vec<u8> = u128_to_le_bytes(0);
        let mut part: Vec<u8> = u128_to_le_bytes(0);
        block.append(&mut part);
        let mut part: Vec<u8> = u128_to_le_bytes(0);
        block.append(&mut part);
        let mut part: Vec<u8> = u128_to_le_bytes(0);
        block.append(&mut part);
        let mut part: Vec<u8> = u32_to_le_bytes(0);
        block.append(&mut part);
        let mut part: Vec<u8> = u16_to_le_bytes(0);
        block.append(&mut part);
        let mut part: Vec<u8> = u32_to_le_bytes(GROWTH_ONE_BITS);
        block.append(&mut part);
        let mut part: Vec<u8> = u16_to_le_bytes(0);
        block.append(&mut part);
        let mut part: Vec<u8> = vec![50u8, 50u8, 50u8, 50u8, 50u8, 0u8, 0u8, 0u8, 50u8, 0u8, 0u8];
        block.append(&mut part);
        let mut part: Vec<u8> = u16_to_le_bytes(0);
        block.append(&mut part);
        let mut part: Vec<u8> = u16_to_le_bytes(0);
        block.append(&mut part);
        let mut part: Vec<u8> = u32_to_le_bytes(0);
        block.append(&mut part);
        let mut part: Vec<u8> = u32_to_le_bytes(0);
        block.append(&mut part);
        let mut part: Vec<u8> = u32_to_le_bytes(0);
        block.append(&mut part);
        block.push(0u8);
        assert(block@ =~= reset_block());
        let ghost before: Seq<u8> = self.bytes();
        let ghost p: int = idx * SLOT_SIZE;
        proof {
            self.lemma_slot_in_bounds(idx as nat, 0, SLOT_SIZE as nat);
        }
        self.write_bytes(idx, 0, block.as_slice());
        let ghost b1: Seq<u8> = self.bytes();
        self.write_u8(idx, O_INVITED + 4, 0);
        let ghost b2: Seq<u8> = self.bytes();
        self.write_u16(idx, O_REFERRAL, 0);
        proof {
            assert(self.bytes() == reset_bytes(before, p));
            lemma_reset_block_layout();
            assert forall|j: nat| j < self.cap() && j != idx implies #[trigger] self.field(j, 0, SLOT_SIZE as nat)
                == old(self).field(j, 0, SLOT_SIZE as nat) by {
                lemma_reset_other_slot(before, idx as nat, j, self.cap());
            }
            lemma_reset_region(before, p, O_DFT_SPENT as int, 16);
            lemma_reset_region(before, p, O_DFT_EARNED as int, 16);
            lemma_reset_region(before, p, O_PLUNDERED as int, 16);
            lemma_reset_region(before, p, O_ENERGY_COL as int, 16);
            lemma_reset_region(before, p, O_REBUILDS as int, 4);
            lemma_reset_region(before, p, O_REBIRTH as int, 2);
            lemma_reset_region(before, p, O_GROWTH as int, 4);
            lemma_reset_region(before, p, O_ATK_TODAY as int, 2);
            lemma_reset_region(before, p, O_AGGR as int, 11);
            lemma_reset_region(before, p, O_CWINS as int, 2);
            lemma_reset_region(before, p, O_CLOSSES as int, 2);
            lemma_reset_region(before, p, O_DAYS_ATK as int, 4);
            lemma_reset_region(before, p, O_DAYS_DEATH as int, 4);
            lemma_reset_region(before, p, O_GEN as int, 4);
            lemma_reset_region(before, p, O_INVITES as int, 1);
            lemma_reset_tail(before, p);
            let r = self.bytes().subrange(p + 76, p + 87);
            assert(self.u8_at(idx as nat, O_AGGR as nat) == r[0]);
            assert(self.u8_at(idx as nat, O_GREED as nat) == r[1]);
            assert(self.u8_at(idx as nat, O_BOLD as nat) == r[2]);
            assert(self.u8_at(idx as nat, O_SOCIAL as nat) == r[3]);
            assert(self.u8_at(idx as nat, O_EMO as nat) == r[4]);
            assert(self.u8_at(idx as nat, O_ANGER as nat) == r[5]);
            assert(self.u8_at(idx as nat, O_FEAR as nat) == r[6]);
            assert(self.u8_at(idx as nat, O_ELATION as nat) == r[7]);
            assert(self.u8_at(idx as nat, O_BOREDOM as nat) == r[8]);
            assert(self.u8_at(idx as nat, O_TILT as nat) == r[9]);
            assert(self.u8_at(idx as nat, O_BURNOUT as nat) == r[10]);
            assert(self.u8_at(idx as nat, O_INVITES as nat) == self.bytes().subrange(p + 103, p + 104)[0]);
        }
    }

    // ── Field accessors ──
    pub fn dft_spent(&self, idx: u32) -> (r: u128)
        requires
            self.wf(),
            idx < self.cap(),
        ensures
            r == self.u128_at(idx as nat, O_DFT_SPENT as nat),
    {
        self.read_u128(idx, O_DFT_SPENT)
    }

    pub fn set_dft_spent(&mut self, idx: u32, val: u128)
        requires
            old(self).wf(),
            idx < old(self).cap(),
        ensures
            final(self).wf(),
            old(self).written(*final(self), idx as nat, O_DFT_SPENT as nat, spec_u128_to_le_bytes(val)),
    {
        self.write_u128(idx, O_DFT_SPENT, val)
    }

    pub fn dft_earned(&self, idx: u32) -> (r: u128)
        requires
            self.wf(),
            idx < self.cap(),
        ensures
            r == self.u128_at(idx as nat, O_DFT_EARNED as nat),
    {
        self.read_u128(idx, O_DFT_EARNED)
    }

    pub fn set_dft_earned(&mut self, idx: u32, val: u128)
        requires
            old(self).wf(),
            idx < old(self).cap(),
        ensures
            final(self).wf(),
            old(self).written(*final(self), idx as nat, O_DFT_EARNED as nat, spec_u128_to_le_bytes(val)),
    {
        self.write_u128(idx, O_DFT_EARNED, val)
    }

    pub fn plundered(&self, idx: u32) -> (r: u128)
        requires
            self.wf(),
            idx < self.cap(),
        ensures
            r == self.u128_at(idx as nat, O_PLUNDERED as nat),
    {
        self.read_u128(idx, O_PLUNDERED)
    }

    pub fn set_plundered(&mut self, idx: u32, val: u128)
        requires
            old(self).wf(),
            idx < old(self).cap(),
        ensures
            final(self).wf(),
            old(self).written(*final(self), idx as nat, O_PLUNDERED as nat, spec_u128_to_le_bytes(val)),
    {
        self.write_u128(idx, O_PLUNDERED, val)
    }

    pub fn energy_collected(&self, idx: u32) -> (r: u128)
        requires
            self.wf(),
            idx < self.cap(),
        ensures
            r == self.u128_at(idx as nat, O_ENERGY_COL as nat),
    {
        self.read_u128(idx, O_ENERGY_COL)
    }

    pub fn set_energy_collected(&mut self, idx: u32, val: u128)
        requires
            old(self).wf(),
            idx < old(self).cap(),
        ensures
            final(self).wf(),
            old(self).written(*final(self), idx as nat, O_ENERGY_COL as nat, spec_u128_to_le_bytes(val)),
    {
        self.write_u128(idx, O_ENERGY_COL, val)
    }

    pub fn rebuilds(&self, idx: u32) -> (r: u32)
        requires
            self.wf(),
            idx < self.cap(),
        ensures
            r == self.u32_at(idx as nat, O_REBUILDS as nat),
    {
        self.read_u32(idx, O_REBUILDS)
    }

    pub fn set_rebuilds(&mut self, idx: u32, val: u32)
        requires
            old(self).wf(),
            idx < old(self).cap(),
        ensures
            final(self).wf(),
            old(self).written(*final(self), idx as nat, O_REBUILDS as nat, spec_u32_to_le_bytes(val)),
    {
        self.write_u32(idx, O_REBUILDS, val)
    }

    pub fn days_since_attack(&self, idx: u32) -> (r: u32)
        requires
            self.wf(),
            idx < self.cap(),
        ensures
            r == self.u32_at(idx as nat, O_DAYS_ATK as nat),
    {
        self.read_u32(idx, O_DAYS_ATK)
    }

    pub fn set_days_since_attack(&mut self, idx: u32, val: u32)
        requires
            old(self).wf(),
            idx < old(self).cap(),
        ensures
            final(self).wf(),
            old(self).written(*final(self), idx as nat, O_DAYS_ATK as nat, spec_u32_to_le_bytes(val)),
    {
        self.write_u32(idx, O_DAYS_ATK, val)
    }

    pub fn days_since_death(&self, idx: u32) -> (r: u32)
        requires
            self.wf(),
            idx < self.cap(),
        ensures
            r == self.u32_at(idx as nat, O_DAYS_DEATH as nat),
    {
        self.read_u32(idx, O_DAYS_DEATH)
    }

    pub fn set_days_since_death(&mut self, idx: u32, val: u32)
        requires
            old(self).wf(),
            idx < old(self).cap(),
        ensures
            final(self).wf(),
            old(self).written(*final(self), idx as nat, O_DAYS_DEATH as nat, spec_u32_to_le_bytes(val)),
    {
        self.write_u32(idx, O_DAYS_DEATH, val)
    }

    pub fn generation(&self, idx: u32) -> (r: u32)
        requires
            self.wf(),
            idx < self.cap(),
        ensures
            r == self.u32_at(idx as nat, O_GEN as nat),
    {
        self.read_u32(idx, O_GEN)
    }

    pub fn set_generation(&mut self, idx: u32, val: u32)
        requires
            old(self).wf(),
            idx < old(self).cap(),
        ensures
            final(self).wf(),
            old(self).written(*final(self), idx as nat, O_GEN as nat, spec_u32_to_le_bytes(val)),
    {
        self.write_u32(idx, O_GEN, val)
    }

    pub fn rebirth_count(&self, idx: u32) -> (r: u16)
        requires
            self.wf(),
            idx < self.cap(),
        ensures
            r == self.u16_at(idx as nat, O_REBIRTH as nat),
    {
        self.read_u16(idx, O_REBIRTH)
    }

    pub fn set_rebirth_count(&mut self, idx: u32, val: u16)
        requires
            old(self).wf(),
            idx < old(self).cap(),
        ensures
            final(self).wf(),
            old(self).written(*final(self), idx as nat, O_REBIRTH as nat, spec_u16_to_le_bytes(val)),
    {
        self.write_u16(idx, O_REBIRTH, val)
    }

    pub fn attack_count_today(&self, idx: u32) -> (r: u16)
        requires
            self.wf(),
            idx < self.cap(),
        ensures
            r == self.u16_at(idx as nat, O_ATK_TODAY as nat),
    {
        self.read_u16(idx, O_ATK_TODAY)
    }

    pub fn set_attack_count_today(&mut self, idx: u32, val: u16)
        requires
            old(self).wf(),
            idx < old(self).cap(),
        ensures
            final(self).wf(),
            old(self).written(*final(self), idx as nat, O_ATK_TODAY as nat, spec_u16_to_le_bytes(val)),
    {
        self.write_u16(idx, O_ATK_TODAY, val)
    }

    pub fn consecutive_wins(&self, idx: u32) -> (r: u16)
        requires
            self.wf(),
            idx < self.cap(),
        ensures
            r == self.u16_at(idx as nat, O_CWINS as nat),
    {
        self.read_u16(idx, O_CWINS)
    }

    pub fn set_consecutive_wins(&mut self, idx: u32, val: u16)
        requires
            old(self).wf(),
            idx < old(self).cap(),
        ensures
            final(self).wf(),
            old(self).written(*final(self), idx as nat, O_CWINS as nat, spec_u16_to_le_bytes(val)),
    {
        self.write_u16(idx, O_CWINS, val)
    }

    pub fn consecutive_losses(&self, idx: u32) -> (r: u16)
        requires
            self.wf(),
            idx < self.cap(),
        ensures
            r == self.u16_at(idx as nat, O_CLOSSES as nat),
    {
        self.read_u16(idx, O_CLOSSES)
    }

    pub fn set_consecutive_losses(&mut self, idx: u32, val: u16)
        requires
            old(self).wf(),
            idx < old(self).cap(),
        ensures
            final(self).wf(),
            old(self).written(*final(self), idx as nat, O_CLOSSES as nat, spec_u16_to_le_bytes(val)),
    {
        self.write_u16(idx, O_CLOSSES, val)
    }

    pub fn referral_count(&self, idx: u32) -> (r: u16)
        requires
            self.wf(),
            idx < self.cap(),
        ensures
            r == self.u16_at(idx as nat, O_REFERRAL as nat),
    {
        self.read_u16(idx, O_REFERRAL)
    }

    pub fn set_referral_count(&mut self, idx: u32, val: u16)
        requires
            old(self).wf(),
            idx < old(self).cap(),
        ensures
            final(self).wf(),
            old(self).written(*final(self), idx as nat, O_REFERRAL as nat, spec_u16_to_le_bytes(val)),
    {
        self.write_u16(idx, O_REFERRAL, val)
    }

    pub fn aggression(&self, idx: u32) -> (r: u8)
        requires
            self.wf(),
            idx < self.cap(),
        ensures
            r == self.u8_at(idx as nat, O_AGGR as nat),
    {
        self.read_u8(idx, O_AGGR)
    }

    pub fn set_aggression(&mut self, idx: u32, val: u8)
        requires
            old(self).wf(),
            idx < old(self).cap(),
        ensures
            final(self).wf(),
            old(self).written(*final(self), idx as nat, O_AGGR as nat, seq![val]),
    {
        self.write_u8(idx, O_AGGR, val)
    }

    pub fn greed(&self, idx: u32) -> (r: u8)
        requires
            self.wf(),
            idx < self.cap(),
        ensures
            r == self.u8_at(idx as nat, O_GREED as nat),
    {
        self.read_u8(idx, O_GREED)
    }

    pub fn set_greed(&mut self, idx: u32, val: u8)
        requires
            old(self).wf(),
            idx < old(self).cap(),
        ensures
            final(self).wf(),
            old(self).written(*final(self), idx as nat, O_GREED as nat, seq![val]),
    {
        self.write_u8(idx, O_GREED, val)
    }

    pub fn boldness(&self, idx: u32) -> (r: u8)
        requires
            self.wf(),
            idx < self.cap(),
        ensures
            r == self.u8_at(idx as nat, O_BOLD as nat),
    {
        self.read_u8(idx, O_BOLD)
    }

    pub fn set_boldness(&mut self, idx: u32, val: u8)
        requires
            old(self).wf(),
            idx < old(self).cap(),
        ensures
            final(self).wf(),
            old(self).written(*final(self), idx as nat, O_BOLD as nat, seq![val]),
    {
        self.write_u8(idx, O_BOLD, val)
    }

    pub fn sociability(&self, idx: u32) -> (r: u8)
        requires
            self.wf(),
            idx < self.cap(),
        ensures
            r == self.u8_at(idx as nat, O_SOCIAL as nat),
    {
        self.read_u8(idx, O_SOCIAL)
    }

    pub fn set_sociability(&mut self, idx: u32, val: u8)
        requires
            old(self).wf(),
            idx < old(self).cap(),
        ensures
            final(self).wf(),
            old(self).written(*final(self), idx as nat, O_SOCIAL as nat, seq![val]),
    {
        self.write_u8(idx, O_SOCIAL, val)
    }

    pub fn emotionality(&self, idx: u32) -> (r: u8)
        requires
            self.wf(),
            idx < self.cap(),
        ensures
            r == self.u8_at(idx as nat, O_EMO as nat),
    {
        self.read_u8(idx, O_EMO)
    }

    pub fn set_emotionality(&mut self, idx: u32, val: u8)
        requires
            old(self).wf(),
            idx < old(self).cap(),
        ensures
            final(self).wf(),
            old(self).written(*final(self), idx as nat, O_EMO as nat, seq![val]),
    {
        self.write_u8(idx, O_EMO, val)
    }

    pub fn anger(&self, idx: u32) -> (r: u8)
        requires
            self.wf(),
            idx < self.cap(),
        ensures
            r == self.u8_at(idx as nat, O_ANGER as nat),
    {
        self.read_u8(idx, O_ANGER)
    }

    pub fn set_anger(&mut self, idx: u32, val: u8)
        requires
            old(self).wf(),
            idx < old(self).cap(),
        ensures
            final(self).wf(),
            old(self).written(*final(self), idx as nat, O_ANGER as nat, seq![val]),
    {
        self.write_u8(idx, O_ANGER, val)
    }

    pub fn fear(&self, idx: u32) -> (r: u8)
        requires
            self.wf(),
            idx < self.cap(),
        ensures
            r == self.u8_at(idx as nat, O_FEAR as nat),
    {
        self.read_u8(idx, O_FEAR)
    }

    pub fn set_fear(&mut self, idx: u32, val: u8)
        requires
            old(self).wf(),
            idx < old(self).cap(),
        ensures
            final(self).wf(),
            old(self).written(*final(self), idx as nat, O_FEAR as nat, seq![val]),
    {
        self.write_u8(idx, O_FEAR, val)
    }

    pub fn elation(&self, idx: u32) -> (r: u8)
        requires
            self.wf(),
            idx < self.cap(),
        ensures
            r == self.u8_at(idx as nat, O_ELATION as nat),
    {
        self.read_u8(idx, O_ELATION)
    }

    pub fn set_elation(&mut self, idx: u32, val: u8)
        requires
            old(self).wf(),
            idx < old(self).cap(),
        ensures
            final(self).wf(),
            old(self).written(*final(self), idx as nat, O_ELATION as nat, seq![val]),
    {
        self.write_u8(idx, O_ELATION, val)
    }

    pub fn boredom(&self, idx: u32) -> (r: u8)
        requires
            self.wf(),
            idx < self.cap(),
        ensures
            r == self.u8_at(idx as nat, O_BOREDOM as nat),
    {
        self.read_u8(idx, O_BOREDOM)
    }

    pub fn set_boredom(&mut self, idx: u32, val: u8)
        requires
            old(self).wf(),
            idx < old(self).cap(),
        ensures
            final(self).wf(),
            old(self).written(*final(self), idx as nat, O_BOREDOM as nat, seq![val]),
    {
        self.write_u8(idx, O_BOREDOM, val)
    }

    pub fn tilt_level(&self, idx: u32) -> (r: u8)
        requires
            self.wf(),
            idx < self.cap(),
        ensures
            r == self.u8_at(idx as nat, O_TILT as nat),
    {
        self.read_u8(idx, O_TILT)
    }

    pub fn set_tilt_level(&mut self, idx: u32, val: u8)
        requires
            old(self).wf(),
            idx < old(self).cap(),
        ensures
            final(self).wf(),
            old(self).written(*final(self), idx as nat, O_TILT as nat, seq![val]),
    {
        self.write_u8(idx, O_TILT, val)
    }

    pub fn burnout(&self, idx: u32) -> (r: u8)
        requires
            self.wf(),
            idx < self.cap(),
        ensures
            r == self.u8_at(idx as nat, O_BURNOUT as nat),
    {
        self.read_u8(idx, O_BURNOUT)
    }

    pub fn set_burnout(&mut self, idx: u32, val: u8)
        requires
            old(self).wf(),
            idx < old(self).cap(),
        ensures
            final(self).wf(),
            old(self).written(*final(self), idx as nat, O_BURNOUT as nat, seq![val]),
    {
        self.write_u8(idx, O_BURNOUT, val)
    }

    pub fn invites_remaining(&self, idx: u32) -> (r: u8)
        requires
            self.wf(),
            idx < self.cap(),
        ensures
            r == self.u8_at(idx as nat, O_INVITES as nat),
    {
        self.read_u8(idx, O_INVITES)
    }

    pub fn set_invites_remaining(&mut self, idx: u32, val: u8)
        requires
            old(self).wf(),
            idx < old(self).cap(),
        ensures
            final(self).wf(),
            old(self).written(*final(self), idx as nat, O_INVITES as nat, seq![val]),
    {
        self.write_u8(idx, O_INVITES, val)
    }

    pub fn is_elite(&self, idx: u32) -> (r: bool)
        requires
            self.wf(),
            idx < self.cap(),
        ensures
            r == (self.u8_at(idx as nat, O_IS_ELITE as nat) != 0),
    {
        self.read_u8(idx, O_IS_ELITE) != 0
    }

    pub fn set_is_elite(&mut self, idx: u32, val: bool)
        requires
            old(self).wf(),
            idx < old(self).cap(),
        ensures
            final(self).wf(),
            old(self).written(*final(self), idx as nat, O_IS_ELITE as nat, seq![if val { 1u8 } else { 0u8 }]),
    {
        self.write_u8(idx, O_IS_ELITE, if val { 1 } else { 0 })
    }

    /// Raw bits of the stored 32-bit growth multiplier.
    pub fn growth_bits(&self, idx: u32) -> (r: u32)
        requires
            self.wf(),
            idx < self.cap(),
        ensures
            r == self.u32_at(idx as nat, O_GROWTH as nat),
    {
        self.read_u32(idx, O_GROWTH)
    }

    /// Stores the raw bits of the 32-bit growth multiplier.
    pub fn set_growth_bits(&mut self, idx: u32, bits: u32)
        requires
            old(self).wf(),
            idx < old(self).cap(),
        ensures
            final(self).wf(),
            old(self).written(*final(self), idx as nat, O_GROWTH as nat, spec_u32_to_le_bytes(bits)),
    {
        self.write_u32(idx, O_GROWTH, bits)
    }

    /// The inviter stored in slot `idx`: the flag byte after the 4-byte id
    /// says whether there is one.
    pub open spec fn invited_by_at(&self, idx: nat) -> Option<u32> {
        if self.u8_at(idx, (O_INVITED + 4) as nat) == 0 {
            None
        } else {
            Some(self.u32_at(idx, O_INVITED as nat))
        }
    }

    pub fn invited_by(&self, idx: u32) -> (r: Option<u32>)
        requires
            self.wf(),
            idx < self.cap(),
        ensures
            r == self.invited_by_at(idx as nat),
    {
        if self.read_u8(idx, O_INVITED + 4) == 0 {
            None
        } else {
            Some(self.read_u32(idx, O_INVITED))
        }
    }

    /// Stores an inviter (id and flag 1), or clears the flag for `None`
    /// leaving the stale id bytes in place.
    pub fn set_invited_by(&mut self, idx: u32, val: Option<u32>)
        requires
            old(self).wf(),
            idx < old(self).cap(),
        ensures
            final(self).wf(),
            final(self).cap() == old(self).cap(),
            final(self).bytes() == (match val {
                Some(v) => overwrite(
                    overwrite(old(self).bytes(), idx * SLOT_SIZE + O_INVITED, spec_u32_to_le_bytes(v)),
                    idx * SLOT_SIZE + O_INVITED + 4,
                    seq![1u8],
                ),
                None => overwrite(old(self).bytes(), idx * SLOT_SIZE + O_INVITED + 4, seq![0u8]),
            }),
    {
        match val {
            Some(v) => {
                self.write_u32(idx, O_INVITED, v);
                self.write_u8(idx, O_INVITED + 4, 1);
            },
            None => {
                self.write_u8(idx, O_INVITED + 4, 0);
            },
        }
    }

    /// The capacity that a new store of at least `initial_cap` slots gets.
    pub fn planned_capacity(initial_cap: usize) -> (c: usize)
        ensures
            c == (if initial_cap > INITIAL_CAPACITY {
                initial_cap
            } else {
                INITIAL_CAPACITY
            }),
    {
        if initial_cap > INITIAL_CAPACITY {
            initial_cap
        } else {
            INITIAL_CAPACITY
        }
    }

    /// Wraps a map of `capacity` slots; `None` when the map's length is not
    /// `capacity * SLOT_SIZE`.
    pub fn new(mmap: MmapMut, capacity: usize) -> (r: Option<ColdStore>)
        ensures
            r is Some <==> mapped_bytes(mmap).len() == capacity * SLOT_SIZE,
            r matches Some(c) ==> c.wf() && c.cap() == capacity && c.bytes() == mapped_bytes(mmap),
    {
        let len: usize = mapped_len(&mmap);
        match capacity.checked_mul(SLOT_SIZE) {
            Some(size) => {
                if size == len {
                    Some(ColdStore { mmap, capacity })
                } else {
                    None
                }
            },
            None => None,
        }
    }

    pub fn capacity(&self) -> (c: usize)
        ensures
            c == self.cap(),
    {
        self.capacity
    }

    /// The capacity to grow to so that slot `idx` exists: twice `idx + 1`,
    /// at least `INITIAL_CAPACITY`; `None` when the slot already exists.
    pub fn growth_needed(&self, idx: u32) -> (r: Option<usize>)
        requires
            (idx + 1) * 2 <= usize::MAX,
        ensures
            r is None <==> idx < self.cap(),
            r matches Some(c) ==> c == (if (idx + 1) * 2 > INITIAL_CAPACITY {
                (idx + 1) * 2
            } else {
                INITIAL_CAPACITY as int
            }),
    {
        let needed: usize = idx as usize + 1;
        if needed > self.capacity {
            let doubled: usize = needed * 2;
            Some(
                if doubled > INITIAL_CAPACITY {
                    doubled
                } else {
                    INITIAL_CAPACITY
                },
            )
        } else {
            None
        }
    }

    /// Moves the store onto a larger map of at least `new_cap` slots,
    /// copying every existing slot; everything past them reads zero.
    /// Refused (returns false, nothing changed) when the map cannot hold
    /// `new_cap` slots or `new_cap` is below the capacity.
    pub fn grow(&mut self, new_map: MmapMut, new_cap: usize) -> (ok: bool)
        requires
            old(self).wf(),
        ensures
            final(self).wf(),
            ok <==> (new_cap >= old(self).cap() && mapped_bytes(new_map).len() >= new_cap * SLOT_SIZE),
            ok ==> final(self).cap() == new_cap && final(self).bytes() == old(self).bytes().subrange(
                0,
                old(self).cap() * SLOT_SIZE,
            ) + zeros((mapped_bytes(new_map).len() - old(self).cap() * SLOT_SIZE) as nat),
            !ok ==> final(self).cap() == old(self).cap() && final(self).bytes() == old(self).bytes(),
    {
        let len: usize = mapped_len(&new_map);
        if new_cap < self.capacity {
            return false;
        }
        match new_cap.checked_mul(SLOT_SIZE) {
            Some(size) => {
                if size > len {
                    return false;
                }
            },
            None => {
                return false;
            },
        }
        let old_size: usize = self.capacity * SLOT_SIZE;
        let mut new_map = new_map;
        proof {
            assert(old_size <= new_cap * 128) by (nonlinear_arith)
                requires
                    old_size == self.capacity * 128,
                    new_cap >= self.capacity,
            ;
        }
        mapped_copy_prefix(&mut new_map, &self.mmap, old_size);
        mapped_fill_zero(&mut new_map, old_size, len);
        proof {
            assert(mapped_bytes(new_map) =~= mapped_bytes(self.mmap).subrange(0, old_size as int) + zeros(
                (len - old_size) as nat,
            ));
        }
        self.mmap = new_map;
        self.capacity = new_cap;
        true
    }
}

// ─────────────────────────────────────────────────────────────
// Laws of the slot store
// ─────────────────────────────────────────────────────────────

/// Writing a field leaves every other field, in the same slot or another,
/// unchanged.
pub proof fn lemma_write_frame(
    before: ColdStore,
    after: ColdStore,
    idx: nat,
    off: nat,
    data: Seq<u8>,
    idx2: nat,
    off2: nat,
    len2: nat,
)
    requires
        before.wf(),
        idx < before.cap(),
        off + data.len() <= SLOT_SIZE,
        idx2 < before.cap(),
        off2 + len2 <= SLOT_SIZE,
        before.written(after, idx, off, data),
        idx != idx2 || off + data.len() <= off2 || off2 + len2 <= off,
    ensures
        after.field(idx2, off2, len2) == before.field(idx2, off2, len2),
{
    before.lemma_slot_in_bounds(idx, off, data.len());
    before.lemma_slot_in_bounds(idx2, off2, len2);
    if idx < idx2 {
        assert(idx * SLOT_SIZE + SLOT_SIZE <= idx2 * SLOT_SIZE) by (nonlinear_arith)
            requires
                idx < idx2,
        ;
    } else if idx2 < idx {
        assert(idx2 * SLOT_SIZE + SLOT_SIZE <= idx * SLOT_SIZE) by (nonlinear_arith)
            requires
                idx2 < idx,
        ;
    }
    lemma_overwrite_frame(
        before.bytes(),
        idx * SLOT_SIZE + off,
        data,
        idx2 * SLOT_SIZE + off2,
        idx2 * SLOT_SIZE + off2 + len2,
    );
}

/// Reading back a written range of a slot gives the written bytes.
pub proof fn lemma_write_read(before: ColdStore, after: ColdStore, idx: nat, off: nat, data: Seq<u8>)
    requires
        before.wf(),
        idx < before.cap(),
        off + data.len() <= SLOT_SIZE,
        before.written(after, idx, off, data),
    ensures
        after.wf(),
        after.field(idx, off, data.len()) == data,
{
    before.lemma_slot_in_bounds(idx, off, data.len());
    lemma_overwrite_read(before.bytes(), idx * SLOT_SIZE + off, data);
}

/// A `u128` field reads back the value last written to it.
pub proof fn lemma_u128_roundtrip(before: ColdStore, after: ColdStore, idx: nat, off: nat, val: u128)
    requires
        before.wf(),
        idx < before.cap(),
        off + 16 <= SLOT_SIZE,
        before.written(after, idx, off, spec_u128_to_le_bytes(val)),
    ensures
        after.u128_at(idx, off) == val,
{
    lemma_auto_spec_u128_to_from_le_bytes();
    lemma_write_read(before, after, idx, off, spec_u128_to_le_bytes(val));
}

/// A `u32` field reads back the value last written to it.
pub proof fn lemma_u32_roundtrip(before: ColdStore, after: ColdStore, idx: nat, off: nat, val: u32)
    requires
        before.wf(),
        idx < before.cap(),
        off + 4 <= SLOT_SIZE,
        before.written(after, idx, off, spec_u32_to_le_bytes(val)),
    ensures
        after.u32_at(idx, off) == val,
{
    lemma_auto_spec_u32_to_from_le_bytes();
    lemma_write_read(before, after, idx, off, spec_u32_to_le_bytes(val));
}

/// A `u16` field reads back the value last written to it.
pub proof fn lemma_u16_roundtrip(before: ColdStore, after: ColdStore, idx: nat, off: nat, val: u16)
    requires
        before.wf(),
        idx < before.cap(),
        off + 2 <= SLOT_SIZE,
        before.written(after, idx, off, spec_u16_to_le_bytes(val)),
    ensures
        after.u16_at(idx, off) == val,
{
    lemma_auto_spec_u16_to_from_le_bytes();
    lemma_write_read(before, after, idx, off, spec_u16_to_le_bytes(val));
}

/// A byte field reads back the value last written to it.
pub proof fn lemma_u8_roundtrip(before: ColdStore, after: ColdStore, idx: nat, off: nat, val: u8)
    requires
        before.wf(),
        idx < before.cap(),
        off + 1 <= SLOT_SIZE,
        before.written(after, idx, off, seq![val]),
    ensures
        after.u8_at(idx, off) == val,
{
    lemma_write_read(before, after, idx, off, seq![val]);
    assert(after.field(idx, off, 1)[0] == after.u8_at(idx, off));
}

/// The inviter reads back as the value last stored.
pub proof fn lemma_invited_by_roundtrip(before: ColdStore, after: ColdStore, idx: nat, val: Option<u32>)
    requires
        before.wf(),
        idx < before.cap(),
        after.cap() == before.cap(),
        after.bytes() == (match val {
            Some(v) => overwrite(
                overwrite(before.bytes(), idx * SLOT_SIZE + O_INVITED, spec_u32_to_le_bytes(v)),
                idx * SLOT_SIZE + O_INVITED + 4,
                seq![1u8],
            ),
            None => overwrite(before.bytes(), idx * SLOT_SIZE + O_INVITED + 4, seq![0u8]),
        }),
    ensures
        after.invited_by_at(idx) == val,
{
    before.lemma_slot_in_bounds(idx, O_INVITED as nat, 5);
    let p = idx * SLOT_SIZE + O_INVITED;
    match val {
        Some(v) => {
            lemma_auto_spec_u32_to_from_le_bytes();
            let mid = overwrite(before.bytes(), p, spec_u32_to_le_bytes(v));
            lemma_overwrite_read(before.bytes(), p, spec_u32_to_le_bytes(v));
            lemma_overwrite_read(mid, p + 4, seq![1u8]);
            lemma_overwrite_frame(mid, p + 4, seq![1u8], p, p + 4);
            assert(after.bytes().subrange(p + 4, p + 5)[0] == after.bytes()[p + 4]);
        },
        None => {
            lemma_overwrite_read(before.bytes(), p + 4, seq![0u8]);
            assert(after.bytes().subrange(p + 4, p + 5)[0] == after.bytes()[p + 4]);
        },
    }
}

/// The bytes of a store after slot-reset at byte position `p`.
pub open spec fn reset_bytes(before: Seq<u8>, p: int) -> Seq<u8> {
    overwrite(
        overwrite(overwrite(before, p, reset_block()), p + 108, seq![0u8]),
        p + 109,
        spec_u16_to_le_bytes(0),
    )
}

/// After growing, every old slot holds the bytes it held, and every new
/// slot holds zero bytes.
pub proof fn lemma_grown_slots(before: ColdStore, after: ColdStore, idx: nat)
    requires
        before.wf(),
        after.wf(),
        after.cap() >= before.cap(),
        after.bytes() == before.bytes().subrange(0, before.cap() * SLOT_SIZE) + zeros(
            (after.bytes().len() - before.cap() * SLOT_SIZE) as nat,
        ),
        idx < after.cap(),
    ensures
        idx < before.cap() ==> after.field(idx, 0, SLOT_SIZE as nat) == before.field(idx, 0, SLOT_SIZE as nat),
        idx >= before.cap() ==> after.field(idx, 0, SLOT_SIZE as nat) == zeros(SLOT_SIZE as nat),
{
    let p = idx * SLOT_SIZE;
    assert(p + 128 <= after.cap() * 128) by (nonlinear_arith)
        requires
            idx < after.cap(),
            p == idx * 128,
    ;
    if idx < before.cap() {
        assert(p + 128 <= before.cap() * 128) by (nonlinear_arith)
            requires
                idx < before.cap(),
                p == idx * 128,
        ;
        assert(after.field(idx, 0, 128) =~= before.field(idx, 0, 128));
    } else {
        assert(p >= before.cap() * 128) by (nonlinear_arith)
            requires
                idx >= before.cap(),
                p == idx * 128,
        ;
        assert(after.field(idx, 0, 128) =~= zeros(128));
    }
}

/// A range inside a write reads the corresponding part of the data.
pub proof fn lemma_overwrite_inner(bytes: Seq<u8>, pos: int, data: Seq<u8>, lo: int, hi: int)
    requires
        0 <= pos <= lo <= hi <= pos + data.len(),
        pos + data.len() <= bytes.len(),
    ensures
        overwrite(bytes, pos, data).subrange(lo, hi) == data.subrange(lo - pos, hi - pos),
{
    assert(overwrite(bytes, pos, data).subrange(lo, hi) =~= data.subrange(lo - pos, hi - pos));
}

proof fn lemma_reset_block_layout()
    ensures
        reset_block().len() == 104,
        reset_block().subrange(0, 16) == spec_u128_to_le_bytes(0),
        reset_block().subrange(16, 32) == spec_u128_to_le_bytes(0),
        reset_block().subrange(32, 48) == spec_u128_to_le_bytes(0),
        reset_block().subrange(48, 64) == spec_u128_to_le_bytes(0),
        reset_block().subrange(64, 68) == spec_u32_to_le_bytes(0),
        reset_block().subrange(68, 70) == spec_u16_to_le_bytes(0),
        reset_block().subrange(70, 74) == spec_u32_to_le_bytes(GROWTH_ONE_BITS),
        reset_block().subrange(74, 76) == spec_u16_to_le_bytes(0),
        reset_block().subrange(76, 87) == seq![50u8, 50u8, 50u8, 50u8, 50u8, 0u8, 0u8, 0u8, 50u8, 0u8, 0u8],
        reset_block().subrange(87, 89) == spec_u16_to_le_bytes(0),
        reset_block().subrange(89, 91) == spec_u16_to_le_bytes(0),
        reset_block().subrange(91, 95) == spec_u32_to_le_bytes(0),
        reset_block().subrange(95, 99) == spec_u32_to_le_bytes(0),
        reset_block().subrange(99, 103) == spec_u32_to_le_bytes(0),
        reset_block().subrange(103, 104) == seq![0u8],
{
    lemma_auto_spec_u128_to_from_le_bytes();
    lemma_auto_spec_u32_to_from_le_bytes();
    lemma_auto_spec_u16_to_from_le_bytes();
    let blk = reset_block();
    assert(blk.subrange(0, 16) =~= spec_u128_to_le_bytes(0));
    assert(blk.subrange(16, 32) =~= spec_u128_to_le_bytes(0));
    assert(blk.subrange(32, 48) =~= spec_u128_to_le_bytes(0));
    assert(blk.subrange(48, 64) =~= spec_u128_to_le_bytes(0));
    assert(blk.subrange(64, 68) =~= spec_u32_to_le_bytes(0));
    assert(blk.subrange(68, 70) =~= spec_u16_to_le_bytes(0));
    assert(blk.subrange(70, 74) =~= spec_u32_to_le_bytes(GROWTH_ONE_BITS));
    assert(blk.subrange(74, 76) =~= spec_u16_to_le_bytes(0));
    assert(blk.subrange(76, 87) =~= seq![50u8, 50u8, 50u8, 50u8, 50u8, 0u8, 0u8, 0u8, 50u8, 0u8, 0u8]);
    assert(blk.subrange(87, 89) =~= spec_u16_to_le_bytes(0));
    assert(blk.subrange(89, 91) =~= spec_u16_to_le_bytes(0));
    assert(blk.subrange(91, 95) =~= spec_u32_to_le_bytes(0));
    assert(blk.subrange(95, 99) =~= spec_u32_to_le_bytes(0));
    assert(blk.subrange(99, 103) =~= spec_u32_to_le_bytes(0));
    assert(blk.subrange(103, 104) =~= seq![0u8]);
}

proof fn lemma_reset_region(before: Seq<u8>, p: int, off: int, len: int)
    requires
        0 <= p,
        p + SLOT_SIZE <= before.len(),
        0 <= off,
        off + len <= 104,
        0 <= len,
    ensures
        reset_bytes(before, p).subrange(p + off, p + off + len) == reset_block().subrange(off, off + len),
{
    lemma_auto_spec_u16_to_from_le_bytes();
    lemma_reset_block_layout();
    let b1 = overwrite(before, p, reset_block());
    let b2 = overwrite(b1, p + 108, seq![0u8]);
    lemma_overwrite_read(before, p, reset_block());
    lemma_overwrite_read(b1, p + 108, seq![0u8]);
    lemma_overwrite_frame(b2, p + 109, spec_u16_to_le_bytes(0), p + off, p + off + len);
    lemma_overwrite_frame(b1, p + 108, seq![0u8], p + off, p + off + len);
    lemma_overwrite_inner(before, p, reset_block(), p + off, p + off + len);
}

proof fn lemma_reset_tail(before: Seq<u8>, p: int)
    requires
        0 <= p,
        p + SLOT_SIZE <= before.len(),
    ensures
        reset_bytes(before, p)[p + 108] == 0,
        reset_bytes(before, p).subrange(p + 109, p + 111) == spec_u16_to_le_bytes(0),
        reset_bytes(before, p)[p + 111] == before[p + 111],
        reset_bytes(before, p).len() == before.len(),
{
    lemma_auto_spec_u16_to_from_le_bytes();
    lemma_reset_block_layout();
    let b1 = overwrite(before, p, reset_block());
    let b2 = overwrite(b1, p + 108, seq![0u8]);
    lemma_overwrite_read(before, p, reset_block());
    lemma_overwrite_read(b1, p + 108, seq![0u8]);
    lemma_overwrite_read(b2, p + 109, spec_u16_to_le_bytes(0));
    lemma_overwrite_frame(b2, p + 109, spec_u16_to_le_bytes(0), p + 108, p + 109);
    lemma_overwrite_frame(b2, p + 109, spec_u16_to_le_bytes(0), p + 111, p + 112);
    lemma_overwrite_frame(b1, p + 108, seq![0u8], p + 111, p + 112);
    lemma_overwrite_frame(before, p, reset_block(), p + 111, p + 112);
    assert(reset_bytes(before, p).subrange(p + 108, p + 109)[0] == reset_bytes(before, p)[p + 108]);
    assert(reset_bytes(before, p).subrange(p + 111, p + 112)[0] == reset_bytes(before, p)[p + 111]);
    assert(before.subrange(p + 111, p + 112)[0] == before[p + 111]);
}

proof fn lemma_reset_other_slot(before: Seq<u8>, idx: nat, j: nat, cap: nat)
    requires
        before.len() >= cap * SLOT_SIZE,
        idx < cap,
        j < cap,
        j != idx,
    ensures
        reset_bytes(before, idx * SLOT_SIZE).subrange(j * SLOT_SIZE, j * SLOT_SIZE + SLOT_SIZE)
            == before.subrange(j * SLOT_SIZE, j * SLOT_SIZE + SLOT_SIZE),
{
    let p = idx * SLOT_SIZE;
    lemma_auto_spec_u16_to_from_le_bytes();
    lemma_reset_block_layout();
    assert(p + SLOT_SIZE <= before.len() && j * SLOT_SIZE + SLOT_SIZE <= before.len()) by (nonlinear_arith)
        requires
            idx < cap,
            j < cap,
            before.len() >= cap * 128,
            p == idx * 128,
    ;
    if j < idx {
        assert(j * SLOT_SIZE + SLOT_SIZE <= p) by (nonlinear_arith)
            requires
                j < idx,
                p == idx * 128,
        ;
    } else {
        assert(p + SLOT_SIZE <= j * SLOT_SIZE) by (nonlinear_arith)
            requires
                j > idx,
                p == idx * 128,
        ;
    }
    let lo = j * SLOT_SIZE;
    let hi = j * SLOT_SIZE + SLOT_SIZE;
    let b1 = overwrite(before, p, reset_block());
    let b2 = overwrite(b1, p + 108, seq![0u8]);
    lemma_overwrite_read(before, p, reset_block());
    lemma_overwrite_read(b1, p + 108, seq![0u8]);
    lemma_overwrite_frame(b2, p + 109, spec_u16_to_le_bytes(0), lo, hi);
    lemma_overwrite_frame(b1, p + 108, seq![0u8], lo, hi);
    lemma_overwrite_frame(before, p, reset_block(), lo, hi);
}

} // verus!
