//! A memory region: a base address, a type label and the bytes it holds.

use vstd::prelude::*;

use crate::le::{le_bytes, le_value, lemma_pow256_facts, lemma_pow256_mono, pow256};

verus! {

/// Base address and size of a region, in bytes.
#[derive(Clone, Copy, Debug, PartialEq, Eq, Structural)]
pub struct RegionInfo {
    pub base: u64,
    pub size: u64,
}

/// What a region is, as a mathematical value.
pub ghost struct RegionModel {
    pub base: u64,
    pub kind: Seq<char>,
    pub bytes: Seq<u8>,
}

impl RegionModel {
    pub open spec fn size(self) -> nat {
        self.bytes.len()
    }

    /// One past the last address of the region.
    pub open spec fn end(self) -> int {
        self.base + self.bytes.len()
    }

    /// A region that may enter a space: it holds at least one byte, and
    /// `base + size` does not pass the largest 64-bit address.
    pub open spec fn valid(self) -> bool {
        &&& self.bytes.len() > 0
        &&& self.end() <= u64::MAX
    }

    pub open spec fn covers(self, addr: int) -> bool {
        self.base <= addr < self.end()
    }

    /// The `n` bytes starting at `addr` all lie in the region.
    pub open spec fn holds(self, addr: int, n: nat) -> bool {
        self.base <= addr && addr + n <= self.end()
    }

    /// The byte at `addr`; an address outside the region, or past the
    /// largest 64-bit address, reads as zero.
    pub open spec fn byte_at(self, addr: int) -> u8 {
        if self.covers(addr) && addr <= u64::MAX {
            self.bytes[addr - self.base]
        } else {
            0
        }
    }

    /// The `n` bytes read from `addr` on.
    pub open spec fn load(self, addr: int, n: nat) -> Seq<u8> {
        Seq::new(n, |j: int| self.byte_at(addr + j))
    }

    /// The region with `data` written from `addr` on; the bytes of `data`
    /// that fall outside the region, or past the largest 64-bit address,
    /// are dropped.
    pub open spec fn store(self, addr: int, data: Seq<u8>) -> RegionModel {
        let off = addr - self.base;
        RegionModel {
            bytes: Seq::new(
                self.bytes.len(),
                |k: int|
                    if off <= k < off + data.len() && self.base + k <= u64::MAX {
                        data[k - off]
                    } else {
                        self.bytes[k]
                    },
            ),
            ..self
        }
    }

    /// The little-endian value of the `n` bytes read from `addr` on.
    pub open spec fn read_le(self, addr: int, n: nat) -> nat {
        le_value(self.load(addr, n))
    }

    /// The region after writing `v` as `n` little-endian bytes at `addr`.
    pub open spec fn write_le(self, addr: int, n: nat, v: nat) -> RegionModel {
        self.store(addr, le_bytes(v, n))
    }
}

/// A contiguous block of memory at a fixed base address.
///
/// Its size is the number of bytes it holds. Accesses take absolute
/// addresses, and multi-byte values are little-endian. An access may reach
/// past the region: bytes outside it read as zero, and writes to them are
/// dropped.
pub struct Region {
    base: u64,
    kind: String,
    mem: Vec<u8>,
}

impl View for Region {
    type V = RegionModel;

    closed spec fn view(&self) -> RegionModel {
        RegionModel { base: self.base, kind: self.kind@, bytes: self.mem@ }
    }
}

impl Region {
    /// A region of type `kind` at `base`, holding `bytes`.
    pub fn new(kind: &str, base: u64, bytes: Vec<u8>) -> (r: Region)
        ensures
            r@ == (RegionModel { base, kind: kind@, bytes: bytes@ }),
    {
        Region { base, kind: kind.to_owned(), mem: bytes }
    }

    pub fn info(&self) -> (r: RegionInfo)
        ensures
            r.base == self@.base,
            r.size == self@.size(),
    {
        RegionInfo { base: self.base, size: self.mem.len() as u64 }
    }

    /// The region's type label.
    pub fn kind(&self) -> (r: &str)
        ensures
            r@ == self@.kind,
    {
        self.kind.as_str()
    }

    /// Index in the region's bytes of address `addr + j`, if the region
    /// covers it.
    fn index_of(&self, addr: u64, j: usize) -> (r: Option<usize>)
        ensures
            r is Some <==> self@.covers(addr + j) && addr + j <= u64::MAX,
            r matches Some(k) ==> k == addr + j - self@.base,
    {
        if j as u64 > u64::MAX - addr {
            return None;
        }
        let a = addr + j as u64;
        if a < self.base {
            return None;
        }
        let off = a - self.base;
        if off < self.mem.len() as u64 {
            Some(off as usize)
        } else {
            None
        }
    }

    /// The `u8` stored little-endian at `addr`.
    pub fn read_u8(&self, addr: u64) -> (r: u8)
        ensures
            r == self@.read_le(addr as int, 1),
    {
        proof {
            lemma_pow256_facts();
        }
        self.load_le(addr, 1) as u8
    }

    /// Stores `data` little-endian at `addr`.
    pub fn write_u8(&mut self, addr: u64, data: u8)
        ensures
            final(self)@ == old(self)@.write_le(addr as int, 1, data as nat),
    {
        self.store_le(addr, 1, data as u64)
    }

    /// The `u16` stored little-endian at `addr`.
    pub fn read_u16(&self, addr: u64) -> (r: u16)
        ensures
            r == self@.read_le(addr as int, 2),
    {
        proof {
            lemma_pow256_facts();
        }
        self.load_le(addr, 2) as u16
    }

    /// Stores `data` little-endian at `addr`.
    pub fn write_u16(&mut self, addr: u64, data: u16)
        ensures
            final(self)@ == old(self)@.write_le(addr as int, 2, data as nat),
    {
        self.store_le(addr, 2, data as u64)
    }

    /// The `u32` stored little-endian at `addr`.
    pub fn read_u32(&self, addr: u64) -> (r: u32)
        ensures
            r == self@.read_le(addr as int, 4),
    {
        proof {
            lemma_pow256_facts();
        }
        self.load_le(addr, 4) as u32
    }

    /// Stores `data` little-endian at `addr`.
    pub fn write_u32(&mut self, addr: u64, data: u32)
        ensures
            final(self)@ == old(self)@.write_le(addr as int, 4, data as nat),
    {
        self.store_le(addr, 4, data as u64)
    }

    /// The `u64` stored little-endian at `addr`.
    pub fn read_u64(&self, addr: u64) -> (r: u64)
        ensures
            r == self@.read_le(addr as int, 8),
    {
        proof {
            lemma_pow256_facts();
        }
        self.load_le(addr, 8) as u64
    }

    /// Stores `data` little-endian at `addr`.
    pub fn write_u64(&mut self, addr: u64, data: u64)
        ensures
            final(self)@ == old(self)@.write_le(addr as int, 8, data as nat),
    {
        self.store_le(addr, 8, data as u64)
    }

    /// Fills `data` with the bytes read from `addr` on.
    pub fn read_bytes(&self, addr: u64, data: &mut [u8])
        ensures
            final(data)@ == self@.load(addr as int, old(data)@.len()),
    {
        let n = data.len();
        let mut i: usize = 0;
        while i < n
            invariant
                0 <= i <= n,
                n == data@.len(),
                n == old(data)@.len(),
                forall|j: int| 0 <= j < i ==> data@[j] == self@.byte_at(addr + j),
            decreases n - i,
        {
            data[i] = match self.index_of(addr, i) {
                Some(k) => self.mem[k],
                None => 0,
            };
            i += 1;
        }
        assert(data@ =~= self@.load(addr as int, n as nat));
    }

    /// Copies `data` into the region from `addr` on.
    pub fn write_bytes(&mut self, addr: u64, data: &[u8])
        ensures
            final(self)@ == old(self)@.store(addr as int, data@),
    {
        let n = data.len();
        let ghost off = addr - self.base;
        let mut i: usize = 0;
        while i < n
            invariant
                0 <= i <= n,
                n == data@.len(),
                off == addr - old(self)@.base,
                self.mem@.len() == old(self).mem@.len(),
                self.base == old(self).base,
                self.kind == old(self).kind,
                forall|k: int|
                    0 <= k < self.mem@.len() ==> self.mem@[k] == (if off <= k < off + i
                        && self.base + k <= u64::MAX {
                        data@[k - off]
                    } else {
                        old(self).mem@[k]
                    }),
            decreases n - i,
        {
            if let Some(k) = self.index_of(addr, i) {
                self.mem.set(k, data[i]);
            }
            i += 1;
        }
        assert(self@ == old(self)@.store(addr as int, data@)) by {
            assert(self.mem@ =~= old(self)@.store(addr as int, data@).bytes);
        }
    }

    fn load_le(&self, addr: u64, n: usize) -> (r: u64)
        requires
            1 <= n <= 8,
        ensures
            r == self@.read_le(addr as int, n as nat),
            r < pow256(n as nat),
    {
        let ghost window = self@.load(addr as int, n as nat);
        let mut v: u64 = 0;
        let mut i: usize = n;
        proof {
            lemma_pow256_facts();
        }
        while i > 0
            invariant
                0 <= i <= n <= 8,
                window == self@.load(addr as int, n as nat),
                v as nat == le_value(window.subrange(i as int, n as int)),
                v < pow256((n - i) as nat),
                pow256(8) == 0x1_0000_0000_0000_0000,
            decreases i,
        {
            i -= 1;
            assert(window.subrange(i as int, n as int).drop_first() =~= window.subrange(
                i + 1,
                n as int,
            ));
            let b = match self.index_of(addr, i) {
                Some(k) => self.mem[k],
                None => 0,
            };
            assert(b == window[i as int]);
            proof {
                lemma_pow256_mono((n - i) as nat, 8);
                let p = pow256((n - i - 1) as nat);
                assert(b as nat + 256 * (v as nat) < 256 * p) by (nonlinear_arith)
                    requires
                        b < 256,
                        v < p,
                ;
            }
            v = b as u64 + 256 * v;
        }
        assert(window.subrange(0, n as int) =~= window);
        v
    }

    fn store_le(&mut self, addr: u64, n: usize, v: u64)
        requires
            1 <= n <= 8,
        ensures
            final(self)@ == old(self)@.write_le(addr as int, n as nat, v as nat),
    {
        let ghost target = le_bytes(v as nat, n as nat);
        let ghost off = addr - self.base;
        let mut cur: u64 = v;
        let mut i: usize = 0;
        proof {
            crate::le::lemma_le_bytes_len(v as nat, n as nat);
            assert(target.subrange(0, n as int) =~= target);
        }
        while i < n
            invariant
                0 <= i <= n <= 8,
                target == le_bytes(v as nat, n as nat),
                target.len() == n,
                off == addr - old(self)@.base,
                self.mem@.len() == old(self).mem@.len(),
                self.base == old(self).base,
                self.kind == old(self).kind,
                le_bytes(cur as nat, (n - i) as nat) == target.subrange(i as int, n as int),
                forall|k: int|
                    0 <= k < self.mem@.len() ==> self.mem@[k] == (if off <= k < off + i
                        && self.base + k <= u64::MAX {
                        target[k - off]
                    } else {
                        old(self).mem@[k]
                    }),
            decreases n - i,
        {
            let ghost tail = le_bytes(cur as nat, (n - i) as nat);
            assert(tail == seq![(cur as nat % 256) as u8].add(
                le_bytes(cur as nat / 256, (n - i - 1) as nat),
            ));
            assert(tail[0] == target[i as int]);
            assert(tail.drop_first() =~= le_bytes(cur as nat / 256, (n - i - 1) as nat));
            assert(target.subrange(i + 1, n as int) =~= tail.drop_first());
            if let Some(k) = self.index_of(addr, i) {
                self.mem.set(k, (cur % 256) as u8);
            }
            cur = cur / 256;
            i += 1;
        }
        assert(self@ == old(self)@.write_le(addr as int, n as nat, v as nat)) by {
            assert(self.mem@ =~= old(self)@.store(addr as int, target).bytes);
        }
    }
}

} // verus!
