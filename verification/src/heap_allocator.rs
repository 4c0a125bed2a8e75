//! The kernel's bootstrap heap: a fixed byte region reserved in the
//! kernel image, handed out word by word before any other allocator
//! exists. The bookkeeping is modeled and verified here; the running
//! kernel registers the same region with its global allocation arena.

use vstd::prelude::*;
use crate::config::KERNEL_HEAP_SIZE;

verus! {

/// The bootstrap heap arena: a fixed region `[base, base + size)` of
/// kernel-owned bytes, a bump pointer, and the words stored so far.
pub struct KernelHeap {
    /// First byte address of the region.
    pub base: u64,
    /// Region size in bytes, a multiple of the word size.
    pub size: u64,
    /// Offset of the first free byte.
    pub next: u64,
    /// The region's contents, one entry per eight-byte word.
    pub words: Vec<u64>,
}

impl KernelHeap {
    /// Padding the next allocation needs to reach alignment `align`.
    pub open spec fn pad_for(self, align: u64) -> int {
        ((align as int) - ((self.base + self.next) % (align as int))) % (align as int)
    }

    /// Structural invariant of the arena.
    pub open spec fn wf(self) -> bool {
        &&& self.next <= self.size
        &&& self.size % 8 == 0
        &&& self.base % 8 == 0
        &&& self.size <= KERNEL_HEAP_SIZE
        &&& self.base + self.size <= u64::MAX
        &&& self.words@.len() == self.size / 8
    }

    /// Register the fixed region with the arena. Must run exactly once,
    /// before any allocation.
    pub fn init(base: u64, size: u64) -> (h: KernelHeap)
        requires
            base % 8 == 0,
            size % 8 == 0,
            size <= KERNEL_HEAP_SIZE,
            base + size <= u64::MAX,
        ensures
            h.wf(),
            h.base == base,
            h.size == size,
            h.next == 0,
    {
        let mut words: Vec<u64> = Vec::new();
        let count: u64 = size / 8;
        let mut i: u64 = 0;
        while i < count
            invariant
                i <= count,
                words@.len() == i,
            decreases count - i,
        {
            words.push(0);
            i = i + 1;
        }
        proof {
            vstd::arithmetic::div_mod::lemma_fundamental_div_mod(size as int, 8);
        }
        KernelHeap { base, size, next: 0, words }
    }

    /// Allocate `size` bytes aligned to `align`. Returns the byte
    /// address of the allocation, inside the reserved region, or the
    /// empty result when the region cannot satisfy the request - which
    /// the kernel treats as unrecoverable.
    pub fn alloc_bytes(&mut self, size: u64, align: u64) -> (r: Option<u64>)
        requires
            old(self).wf(),
            align >= 1,
        ensures
            final(self).wf(),
            final(self).base == old(self).base,
            final(self).size == old(self).size,
            final(self).words@ == old(self).words@,
            r matches Some(a) ==> {
                &&& old(self).base <= a
                &&& a + size <= old(self).base + old(self).size
                &&& a % align == 0
                &&& a >= old(self).base + old(self).next
                &&& a == old(self).base + old(self).next + old(self).pad_for(align)
                &&& final(self).next == a - old(self).base + size
            },
            r is None ==> *final(self) == *old(self),
            r is Some <==> old(self).next + old(self).pad_for(align) + size <= old(self).size,
    {
        let cur: u64 = self.base + self.next;
        let pad: u64 = (align - cur % align) % align;
        if pad <= self.size - self.next && size <= self.size - self.next - pad {
            let start: u64 = self.next + pad;
            let a: u64 = self.base + start;
            proof {
                assert((cur + pad) % (align as int) == 0) by {
                    let al = align as int;
                    let q = cur as int / al;
                    vstd::arithmetic::div_mod::lemma_fundamental_div_mod(cur as int, al);
                    if cur % align == 0 {
                        vstd::arithmetic::div_mod::lemma_mod_self_0(al);
                        assert(pad == 0);
                        assert(q * al == al * q) by (nonlinear_arith);
                        vstd::arithmetic::div_mod::lemma_fundamental_div_mod_converse(
                            cur as int,
                            al,
                            q,
                            0,
                        );
                    } else {
                        vstd::arithmetic::div_mod::lemma_small_mod(
                            (align - cur % align) as nat,
                            align as nat,
                        );
                        assert(pad == align - cur % align);
                        assert((q + 1) * al == al * q + al) by (nonlinear_arith);
                        vstd::arithmetic::div_mod::lemma_fundamental_div_mod_converse(
                            cur as int + pad,
                            al,
                            q + 1,
                            0,
                        );
                    }
                }
            }
            self.next = start + size;
            Some(a)
        } else {
            None
        }
    }

    /// Store one word at the word-aligned byte address `addr` inside the
    /// region.
    pub fn store(&mut self, addr: u64, val: u64)
        requires
            old(self).wf(),
            addr % 8 == 0,
            old(self).base <= addr,
            addr + 8 <= old(self).base + old(self).size,
        ensures
            final(self).wf(),
            final(self).base == old(self).base,
            final(self).size == old(self).size,
            final(self).next == old(self).next,
            final(self).words@ == old(self).words@.update(
                ((addr - old(self).base) / 8) as int,
                val,
            ),
    {
        proof {
            lemma_word_index(self.base, self.size, addr);
        }
        let idx: u64 = (addr - self.base) / 8;
        self.words[idx as usize] = val;
    }

    /// Load the word at the word-aligned byte address `addr`.
    pub fn load(&self, addr: u64) -> (r: u64)
        requires
            self.wf(),
            addr % 8 == 0,
            self.base <= addr,
            addr + 8 <= self.base + self.size,
        ensures
            r == self.words@[((addr - self.base) / 8) as int],
    {
        proof {
            lemma_word_index(self.base, self.size, addr);
        }
        let idx: u64 = (addr - self.base) / 8;
        self.words[idx as usize]
    }
}

/// A word-aligned address inside the region names a word slot below the
/// region's word count.
pub proof fn lemma_word_index(base: u64, size: u64, addr: u64)
    requires
        base % 8 == 0,
        size % 8 == 0,
        base <= addr,
        addr % 8 == 0,
        addr + 8 <= base + size,
    ensures
        (addr - base) / 8 < size / 8,
        (addr - base) % 8 == 0,
{
    vstd::arithmetic::div_mod::lemma_fundamental_div_mod(base as int, 8);
    vstd::arithmetic::div_mod::lemma_fundamental_div_mod(size as int, 8);
    vstd::arithmetic::div_mod::lemma_fundamental_div_mod(addr as int, 8);
    let d = (addr - base) as int;
    vstd::arithmetic::div_mod::lemma_fundamental_div_mod_converse(
        d,
        8,
        addr as int / 8 - base as int / 8,
        0,
    );
}

/// The heap bootstrap scenario, proved rather than sampled: one
/// word-sized object written and read back unchanged, then five hundred
/// sequential words written and read back in order, all inside the
/// reserved region. The final arena still holds exactly what was
/// written: the single word at the region's base and the 0..500
/// sequence right after it.
pub fn heap_test(heap: &mut KernelHeap)
    requires
        old(heap).wf(),
        old(heap).next == 0,
        old(heap).size >= 8192,
    ensures
        final(heap).wf(),
        final(heap).base == old(heap).base,
        final(heap).size == old(heap).size,
        final(heap).words@[0] == 5,
        forall|j: int| 0 <= j < 500 ==> #[trigger] final(heap).words@[1 + j] == j,
{
    let base = heap.base;
    let size = heap.size;
    let a = match heap.alloc_bytes(8, 8) {
        Some(a) => a,
        None => {
            proof {
                assert(false);
            }
            vstd::pervasive::unreached()
        },
    };
    assert(base <= a && a + 8 <= base + size);
    heap.store(a, 5);
    let readback = heap.load(a);
    assert(readback == 5);
    let buf = match heap.alloc_bytes(4000, 8) {
        Some(b) => b,
        None => {
            proof {
                assert(false);
            }
            vstd::pervasive::unreached()
        },
    };
    assert(base <= buf && buf + 4000 <= base + size);
    let mut i: u64 = 0;
    while i < 500
        invariant
            i <= 500,
            heap.wf(),
            heap.base == base,
            heap.size == size,
            buf % 8 == 0,
            base <= buf,
            buf + 4000 <= base + size,
            buf == base + 8,
            heap.words@.len() == size / 8,
            heap.words@[0] == 5,
            forall|j: int|
                0 <= j < i ==> #[trigger] heap.words@[((buf - base) / 8 + j) as int] == j,
        decreases 500 - i,
    {
        heap.store(buf + 8 * i, i);
        proof {
            vstd::arithmetic::div_mod::lemma_mod_adds(buf as int, (8 * i) as int, 8);
            assert((buf + 8 * i - base) / 8 == (buf - base) / 8 + i) by {
                vstd::arithmetic::div_mod::lemma_fundamental_div_mod((buf - base) as int, 8);
                vstd::arithmetic::div_mod::lemma_fundamental_div_mod_converse(
                    (buf + 8 * i - base) as int,
                    8,
                    (buf - base) as int / 8 + i,
                    ((buf - base) as int % 8),
                );
            }
        }
        i = i + 1;
    }
    let mut k: u64 = 0;
    while k < 500
        invariant
            k <= 500,
            heap.wf(),
            heap.base == base,
            heap.size == size,
            buf % 8 == 0,
            base <= buf,
            buf + 4000 <= base + size,
            buf == base + 8,
            heap.words@.len() == size / 8,
            heap.words@[0] == 5,
            forall|j: int|
                0 <= j < 500 ==> #[trigger] heap.words@[((buf - base) / 8 + j) as int] == j,
        decreases 500 - k,
    {
        let v = heap.load(buf + 8 * k);
        proof {
            vstd::arithmetic::div_mod::lemma_mod_adds(buf as int, (8 * k) as int, 8);
            assert((buf + 8 * k - base) / 8 == (buf - base) / 8 + k) by {
                vstd::arithmetic::div_mod::lemma_fundamental_div_mod((buf - base) as int, 8);
                vstd::arithmetic::div_mod::lemma_fundamental_div_mod_converse(
                    (buf + 8 * k - base) as int,
                    8,
                    (buf - base) as int / 8 + k,
                    ((buf - base) as int % 8),
                );
            }
        }
        assert(v == k);
        k = k + 1;
    }
    proof {
        assert forall|j: int| 0 <= j < 500 implies #[trigger] heap.words@[1 + j] == j by {
            assert(heap.words@[((buf - base) / 8 + j) as int] == j);
        }
    }
}

} // verus!
