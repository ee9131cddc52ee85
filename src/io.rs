//! Page-level access to the byte source behind the cache.
use vstd::prelude::*;

verus! {

/// Byte `i` of `s`, or zero past its end.
pub open spec fn byte_or_zero(s: Seq<u8>, i: int) -> u8 {
    if 0 <= i < s.len() {
        s[i]
    } else {
        0
    }
}

/// The `b` bytes of page `p` of `s`, zero past the end of `s`.
pub open spec fn page_of(s: Seq<u8>, p: int, b: int) -> Seq<u8> {
    Seq::new(b as nat, |j: int| byte_or_zero(s, p * b + j))
}

/// `s` with `d` written at `off`, extended (with zeros before `off`) when the
/// write reaches past its end.
pub open spec fn overwrite(s: Seq<u8>, off: int, d: Seq<u8>) -> Seq<u8> {
    let n = if s.len() >= off + d.len() {
        s.len() as int
    } else {
        off + d.len()
    };
    Seq::new(
        n as nat,
        |i: int|
            if off <= i < off + d.len() {
                d[i - off]
            } else {
                byte_or_zero(s, i)
            },
    )
}

/// Positioned page reads from a source of bytes.
pub trait Reader: Sized {
    /// The bytes of the source.
    spec fn view(&self) -> Seq<u8>;

    /// The page size.
    spec fn block_size(&self) -> nat;

    /// Internal well-formedness.
    spec fn wf(&self) -> bool;

    /// The source length in bytes.
    fn len(&self) -> (r: u64)
        requires
            self.wf(),
        ensures
            r == self@.len(),
    ;

    /// Reads page `page` into `block`: the bytes that exist are copied to its
    /// front, and their number returned; the rest of `block` is left alone.
    fn read(&self, page: u64, block: &mut Vec<u8>) -> (n: usize)
        requires
            self.wf(),
            self.block_size() > 0,
            old(block)@.len() == self.block_size(),
        ensures
            n <= self.block_size(),
            n == (if self@.len() <= page * self.block_size() {
                0
            } else if self@.len() >= (page + 1) * self.block_size() {
                self.block_size() as int
            } else {
                self@.len() - page * self.block_size()
            }),
            final(block)@.len() == old(block)@.len(),
            forall|j: int| 0 <= j < n ==> #[trigger] final(block)@[j] == self@[page * self.block_size() + j],
            forall|j: int| n <= j < old(block)@.len() ==> #[trigger] final(block)@[j] == old(block)@[j],
    ;
}

/// Positioned page writes to a source of bytes.
pub trait Writer: Reader {
    /// The largest length the source can reach.
    spec fn max_len(&self) -> nat;

    /// Writes `block` as page `page`, extending the source when needed.
    fn write(&mut self, page: u64, block: &Vec<u8>)
        requires
            old(self).wf(),
            old(self).block_size() > 0,
            block@.len() == old(self).block_size(),
            (page + 1) * old(self).block_size() <= old(self).max_len(),
        ensures
            final(self).wf(),
            final(self)@ == overwrite(old(self)@, page * old(self).block_size(), block@),
            final(self).block_size() == old(self).block_size(),
            final(self).max_len() == old(self).max_len(),
    ;
}

/// A synchronous backend over bytes held in memory.
pub struct SyncIO {
    source: Vec<u8>,
    block_size: usize,
}

impl SyncIO {
    /// A backend over `source`, with pages of `block_size` bytes.
    pub fn new(source: Vec<u8>, block_size: usize) -> (r: Self)
        requires
            block_size > 0,
        ensures
            r.wf(),
            r@ == source@,
            r.block_size() == block_size,
    {
        SyncIO { source, block_size }
    }

    /// The bytes, handed back.
    pub fn into_inner(self) -> (r: Vec<u8>)
        ensures
            r@ == self@,
    {
        self.source
    }
}

impl Reader for SyncIO {
    closed spec fn view(&self) -> Seq<u8> {
        self.source@
    }

    closed spec fn block_size(&self) -> nat {
        self.block_size as nat
    }

    open spec fn wf(&self) -> bool {
        true
    }

    fn len(&self) -> (r: u64) {
        self.source.len() as u64
    }

    fn read(&self, page: u64, block: &mut Vec<u8>) -> (n: usize) {
        let b = self.block_size;
        let len = self.source.len();
        proof {
            assert((page as int) * (b as int) <= 0xFFFF_FFFF_FFFF_FFFFu128 * 0xFFFF_FFFF_FFFF_FFFFu128)
                by (nonlinear_arith)
                requires
                    page <= 0xFFFF_FFFF_FFFF_FFFFu64,
                    b <= 0xFFFF_FFFF_FFFF_FFFFu64,
            ;
        }
        let start = page as u128 * b as u128;
        if len as u128 <= start {
            return 0;
        }
        let start = start as usize;
        let n = if len - start >= b {
            b
        } else {
            len - start
        };
        let mut j: usize = 0;
        while j < n
            invariant
                j <= n <= b,
                n == block@.len() || n < block@.len(),
                block@.len() == old(block)@.len(),
                block@.len() == b,
                start + n <= len == self.source@.len(),
                start == page * b,
                forall|i: int| 0 <= i < j ==> #[trigger] block@[i] == self.source@[start + i],
                forall|i: int| j <= i < block@.len() ==> #[trigger] block@[i] == old(block)@[i],
            decreases n - j,
        {
            block[j] = self.source[start + j];
            j = j + 1;
        }
        proof {
            assert((page + 1) * b == page * b + b) by (nonlinear_arith);
        }
        n
    }
}

impl Writer for SyncIO {
    open spec fn max_len(&self) -> nat {
        usize::MAX as nat
    }

    fn write(&mut self, page: u64, block: &Vec<u8>) {
        let b = self.block_size;
        proof {
            assert((page + 1) * b == page * b + b) by (nonlinear_arith);
            assert(page <= page * b) by (nonlinear_arith)
                requires
                    b >= 1,
            ;
        }
        let start = (page as usize) * b;
        let ghost st0 = self.source@;
        while self.source.len() < start + b
            invariant
                self.block_size == b,
                self.source@.len() <= start + b || self.source@.len() == st0.len(),
                self.source@.len() >= st0.len(),
                forall|i: int| 0 <= i < self.source@.len() ==> #[trigger] self.source@[i] == byte_or_zero(st0, i),
                start + b <= usize::MAX,
            decreases start + b - self.source@.len(),
        {
            self.source.push(0);
        }
        let mut j: usize = 0;
        while j < b
            invariant
                self.block_size == b,
                b == block@.len(),
                start + b <= usize::MAX,
                j <= b,
                start + b <= self.source@.len(),
                self.source@.len() == overwrite(st0, start as int, block@).len(),
                forall|i: int|
                    0 <= i < self.source@.len() ==> #[trigger] self.source@[i] == if start <= i < start + j {
                        block@[i - start]
                    } else {
                        byte_or_zero(st0, i)
                    },
            decreases b - j,
        {
            self.source.set(start + j, block[j]);
            j = j + 1;
        }
        proof {
            assert(self.source@ =~= overwrite(st0, start as int, block@));
        }
    }
}

} // verus!
