//! Splitting a shared byte buffer into non-overlapping chunks of one size;
//! the last chunk may be shorter.

use crate::shared::{bytes_empty, bytes_len, bytes_slice, bytes_split_off, bytes_split_to, bytes_view};
use bytes::Bytes;
use vstd::arithmetic::div_mod::lemma_fundamental_div_mod;
use vstd::arithmetic::mul::{lemma_mul_inequality, lemma_mul_is_distributive_add_other_way};
use vstd::prelude::*;

verus! {

/// The number of chunks of size `k` that `len` bytes make: `len / k`
/// rounded up.
pub open spec fn chunk_count(len: nat, k: nat) -> nat {
    if len == 0 {
        0
    } else {
        ((len - 1) as nat / k + 1) as nat
    }
}

/// Chunk `i` of `s` in chunks of size `k`: the bytes in
/// `i k .. min(len, (i + 1) k)`.
pub open spec fn chunk_at(s: Seq<u8>, k: nat, i: nat) -> Seq<u8> {
    s.subrange((i * k) as int, vstd::math::min(s.len() as int, ((i + 1) * k) as int))
}

/// What is left of `s` after `i` forward steps with chunks of size `k`.
pub open spec fn forward_rest(s: Seq<u8>, k: nat, i: nat) -> Seq<u8>
    decreases i,
{
    if i == 0 {
        s
    } else {
        let t = forward_rest(s, k, (i - 1) as nat);
        t.skip(vstd::math::min(t.len() as int, k as int))
    }
}

/// What is left of `s` after `j` backward steps with chunks of size `k`.
pub open spec fn backward_rest(s: Seq<u8>, k: nat, j: nat) -> Seq<u8>
    decreases j,
{
    if j == 0 {
        s
    } else {
        let t = backward_rest(s, k, (j - 1) as nat);
        if t.len() == 0 {
            t
        } else {
            t.take(((chunk_count(t.len(), k) - 1) * k) as int)
        }
    }
}

/// Stepping forward `i` times from `s` leaves the bytes from `i k` on, and
/// the step after that hands out chunk `i`. So the steps hand out the
/// chunks `i k .. min(len, (i + 1) k)` in order, `chunk_count` steps use up
/// `s`, and skipping `n` chunks with `nth(n)` hands out and leaves what
/// `n + 1` steps do.
pub proof fn lemma_forward_steps(s: Seq<u8>, k: nat, i: nat)
    requires
        k > 0,
    ensures
        forward_rest(s, k, i) == s.skip(vstd::math::min(s.len() as int, (i * k) as int)),
        forward_rest(s, k, i + 1) == s.skip(vstd::math::min(s.len() as int, ((i + 1) * k) as int)),
        i < chunk_count(s.len(), k) ==> chunk_at(forward_rest(s, k, i), k, 0) == chunk_at(s, k, i),
        i >= chunk_count(s.len(), k) ==> forward_rest(s, k, i).len() == 0,
    decreases i,
{
    lemma_count(s.len(), k, i);
    assert((i + 1) * k == i * k + k) by (nonlinear_arith);
    assert(0 * k == 0 && 1 * k == k) by (nonlinear_arith);
    if i == 0 {
        assert(s.skip(0) =~= s);
    } else {
        lemma_forward_steps(s, k, (i - 1) as nat);
        assert(i * k == (i - 1) * k + k) by (nonlinear_arith)
            requires
                i >= 1,
        ;
    }
    let t = forward_rest(s, k, i);
    assert(t =~= s.skip(vstd::math::min(s.len() as int, (i * k) as int)));
    assert(forward_rest(s, k, i + 1) =~= s.skip(
        vstd::math::min(s.len() as int, ((i + 1) * k) as int),
    ));
    if i < chunk_count(s.len(), k) {
        assert(chunk_at(t, k, 0) =~= chunk_at(s, k, i));
    }
}

/// The first `m` chunks of `s` are those of its first `m k` bytes.
proof fn lemma_prefix_chunks(s: Seq<u8>, k: nat, m: nat)
    requires
        k > 0,
        m * k <= s.len(),
    ensures
        chunk_count(m * k, k) == m,
        forall|i: nat| i < m ==> #[trigger] chunk_at(s.take((m * k) as int), k, i) == chunk_at(s, k, i),
{
    lemma_count(m * k, k, m);
    if m > 0 {
        lemma_count(m * k, k, (m - 1) as nat);
        assert((m - 1) * k < m * k) by (nonlinear_arith)
            requires
                m >= 1,
                k > 0,
        ;
    }
    assert forall|i: nat| i < m implies #[trigger] chunk_at(s.take((m * k) as int), k, i) == chunk_at(
        s,
        k,
        i,
    ) by {
        assert((i + 1) * k <= m * k) by (nonlinear_arith)
            requires
                i < m,
                k > 0,
        ;
        assert(i * k <= (i + 1) * k) by (nonlinear_arith);
        assert(chunk_at(s.take((m * k) as int), k, i) =~= chunk_at(s, k, i));
    }
}

/// Stepping backward `j` times hands out the chunks of `s` last first:
/// step `j` hands out chunk `chunk_count - 1 - j` and leaves the chunks
/// before it, so the backward steps give the forward chunks in reverse.
pub proof fn lemma_backward_steps(s: Seq<u8>, k: nat, j: nat)
    requires
        k > 0,
        1 <= j <= chunk_count(s.len(), k),
    ensures
        backward_rest(s, k, j) == s.take(((chunk_count(s.len(), k) - j) * k) as int),
        chunk_count(backward_rest(s, k, j).len(), k) == chunk_count(s.len(), k) - j,
        chunk_at(
            backward_rest(s, k, (j - 1) as nat),
            k,
            (chunk_count(backward_rest(s, k, (j - 1) as nat).len(), k) - 1) as nat,
        ) == chunk_at(s, k, (chunk_count(s.len(), k) - j) as nat),
    decreases j,
{
    let c = chunk_count(s.len(), k);
    lemma_last_chunk(s.len(), k);
    let m = (c - j) as nat;
    assert(m * k <= (c - 1) * k) by (nonlinear_arith)
        requires
            m <= c - 1,
            k > 0,
    ;
    lemma_prefix_chunks(s, k, m);
    if j == 1 {
        assert(backward_rest(s, k, 0) == s);
    } else {
        lemma_backward_steps(s, k, (j - 1) as nat);
        let m1 = (c - (j - 1)) as nat;
        assert(m1 * k <= (c - 1) * k) by (nonlinear_arith)
            requires
                m1 <= c - 1,
                k > 0,
        ;
        lemma_prefix_chunks(s, k, m1);
        let t = backward_rest(s, k, (j - 1) as nat);
        assert(t.len() == m1 * k);
        assert(m1 * k > 0) by (nonlinear_arith)
            requires
                m1 >= 1,
                k > 0,
        ;
        assert(m * k <= m1 * k) by (nonlinear_arith)
            requires
                m <= m1,
                k > 0,
        ;
        assert(t.take((m * k) as int) =~= s.take((m * k) as int));
    }
}

proof fn lemma_count(l: nat, k: nat, n: nat)
    requires
        k > 0,
    ensures
        n < chunk_count(l, k) <==> n * k < l,
{
    if l > 0 {
        let q = ((l - 1) as nat / k) as nat;
        lemma_fundamental_div_mod((l - 1) as int, k as int);
        if n <= q {
            lemma_mul_inequality(n as int, q as int, k as int);
            assert(q * k <= l - 1) by (nonlinear_arith)
                requires
                    l - 1 == k * q + (l - 1) % (k as int),
                    (l - 1) % (k as int) >= 0,
            ;
        } else {
            lemma_mul_inequality((q + 1) as int, n as int, k as int);
            assert((q + 1) * k > l - 1) by (nonlinear_arith)
                requires
                    l - 1 == k * q + (l - 1) % (k as int),
                    (l - 1) % (k as int) < k,
            ;
        }
    }
}

/// Facts on the last chunk of `l > 0` bytes.
proof fn lemma_last_chunk(l: nat, k: nat)
    requires
        l > 0,
        k > 0,
    ensures
        ((chunk_count(l, k) - 1) * k) < l <= chunk_count(l, k) * k,
        (chunk_count(l, k) - 1) * k == l - (if l % k != 0 {
            l % k
        } else {
            k
        }),
        chunk_count(l, k) == l / k + (if l % k > 0 {
            1nat
        } else {
            0nat
        }),
{
    let q = ((l - 1) as nat / k) as nat;
    lemma_fundamental_div_mod((l - 1) as int, k as int);
    lemma_fundamental_div_mod(l as int, k as int);
    let r1 = (l - 1) % (k as int);
    let r = (l as int) % (k as int);
    let q0 = (l as int) / (k as int);
    assert(q * k + r1 == l - 1) by (nonlinear_arith)
        requires
            l - 1 == k * q + r1,
    ;
    assert(q0 * k + r == l) by (nonlinear_arith)
        requires
            l == k * q0 + r,
    ;
    if r != 0 {
        assert(q == q0) by (nonlinear_arith)
            requires
                q * k + r1 == l - 1,
                q0 * k + r == l,
                0 <= r1 < k,
                0 < r < k,
        ;
    } else {
        assert(q + 1 == q0) by (nonlinear_arith)
            requires
                q * k + r1 == l - 1,
                q0 * k == l,
                0 <= r1 < k,
        ;
    }
    assert((q + 1) * k == q * k + k) by (nonlinear_arith);
}

/// An iterator over a [`Bytes`] in non-overlapping chunks of one size, from
/// either end; the last chunk may be shorter.
///
/// Each chunk is a [`Bytes`] of its own that shares the storage: no byte is
/// copied.
#[derive(Debug)]
pub struct ByteChunks {
    buf: Bytes,
    chunk_len: usize,
}

impl ByteChunks {
    /// The bytes not yet handed out.
    pub closed spec fn rest(&self) -> Seq<u8> {
        bytes_view(self.buf)
    }

    /// The size of a chunk.
    pub closed spec fn chunk_size(&self) -> nat {
        self.chunk_len as nat
    }

    /// Whether the chunk size is positive, as every iterator made by
    /// [`ByteChunks::new`] keeps it.
    pub open spec fn wf(&self) -> bool {
        self.chunk_size() > 0
    }

    /// The number of chunks left.
    pub open spec fn count_spec(&self) -> nat {
        chunk_count(self.rest().len(), self.chunk_size())
    }

    /// Chunks of `buf` of `chunk_len` bytes each.
    pub fn new(buf: Bytes, chunk_len: usize) -> (r: Self)
        requires
            chunk_len > 0,
        ensures
            r.wf(),
            r.rest() == bytes_view(buf),
            r.chunk_size() == chunk_len,
    {
        ByteChunks { buf, chunk_len }
    }

    /// Hands out the next chunk from the front: the first `chunk_len` bytes
    /// left, or all of them where fewer are left.
    pub fn next(&mut self) -> (r: Option<Bytes>)
        requires
            old(self).wf(),
        ensures
            final(self).wf(),
            final(self).chunk_size() == old(self).chunk_size(),
            old(self).rest().len() == 0 ==> r is None && final(self).rest() == old(self).rest(),
            old(self).rest().len() > 0 ==> (r matches Some(b) && bytes_view(b) == chunk_at(
                old(self).rest(),
                old(self).chunk_size(),
                0,
            ) && final(self).rest() == forward_rest(old(self).rest(), old(self).chunk_size(), 1)),
    {
        let len = bytes_len(&self.buf);
        if len == 0 {
            None
        } else {
            let chunksz = if len < self.chunk_len {
                len
            } else {
                self.chunk_len
            };
            let next = bytes_split_to(&mut self.buf, chunksz);
            proof {
                let k = old(self).chunk_size();
                assert(forward_rest(old(self).rest(), k, 0) == old(self).rest());
                assert(0 * k == 0 && 1 * k == k) by (nonlinear_arith);
                assert(bytes_view(next) =~= chunk_at(old(self).rest(), k, 0));
                assert(self.rest() =~= forward_rest(old(self).rest(), k, 1));
            }
            Some(next)
        }
    }

    /// The number of chunks left, both as lower and as upper bound.
    pub fn size_hint(&self) -> (r: (usize, Option<usize>))
        requires
            self.wf(),
        ensures
            r.0 == self.count_spec(),
            r.1 == Some(r.0),
    {
        let len = bytes_len(&self.buf);
        if len == 0 {
            (0, Some(0))
        } else {
            proof {
                lemma_last_chunk(len as nat, self.chunk_len as nat);
            }
            let n = len / self.chunk_len;
            let rem = len % self.chunk_len;
            let n = if rem > 0 {
                n + 1
            } else {
                n
            };
            (n, Some(n))
        }
    }

    /// The number of chunks left.
    pub fn len(&self) -> (r: usize)
        requires
            self.wf(),
        ensures
            r == self.count_spec(),
    {
        self.size_hint().0
    }

    /// The number of chunks left, consuming the iterator.
    pub fn count(self) -> (r: usize)
        requires
            self.wf(),
        ensures
            r == self.count_spec(),
    {
        self.len()
    }

    /// Skips `n` chunks from the front and hands out the next one, at once;
    /// where fewer than `n + 1` are left, none is handed out and nothing is
    /// left.
    pub fn nth(&mut self, n: usize) -> (r: Option<Bytes>)
        requires
            old(self).wf(),
        ensures
            final(self).wf(),
            final(self).chunk_size() == old(self).chunk_size(),
            n < old(self).count_spec() ==> (r matches Some(b) && bytes_view(b) == chunk_at(
                old(self).rest(),
                old(self).chunk_size(),
                n as nat,
            ) && final(self).rest() == old(self).rest().skip(
                vstd::math::min(
                    old(self).rest().len() as int,
                    ((n + 1) * old(self).chunk_size()) as int,
                ),
            )),
            n >= old(self).count_spec() ==> r is None && final(self).rest().len() == 0,
    {
        let len = bytes_len(&self.buf);
        proof {
            lemma_count(len as nat, self.chunk_len as nat, n as nat);
        }
        match n.checked_mul(self.chunk_len) {
            Some(start) if start < len => {
                let end = match start.checked_add(self.chunk_len) {
                    Some(sum) => if len < sum {
                        len
                    } else {
                        sum
                    },
                    None => len,
                };
                let nth = bytes_slice(&self.buf, start, end);
                self.buf = bytes_slice(&self.buf, end, len);
                proof {
                    assert((n + 1) * self.chunk_len == n * self.chunk_len + self.chunk_len) by (nonlinear_arith);
                    assert(self.rest() =~= old(self).rest().skip(end as int));
                }
                Some(nth)
            },
            _ => {
                self.buf = bytes_empty();
                None
            },
        }
    }

    /// The last chunk, consuming the iterator.
    pub fn last(self) -> (r: Option<Bytes>)
        requires
            self.wf(),
        ensures
            self.rest().len() == 0 ==> r is None,
            self.rest().len() > 0 ==> (r matches Some(b) && bytes_view(b) == chunk_at(
                self.rest(),
                self.chunk_size(),
                (self.count_spec() - 1) as nat,
            )),
    {
        let len = bytes_len(&self.buf);
        if len == 0 {
            None
        } else {
            proof {
                lemma_last_chunk(len as nat, self.chunk_len as nat);
            }
            let start = (len - 1) / self.chunk_len * self.chunk_len;
            Some(bytes_slice(&self.buf, start, len))
        }
    }

    /// Hands out the next chunk from the back: the bytes past the last
    /// multiple of `chunk_len`, or the last `chunk_len` bytes where the
    /// length is such a multiple, so that both ends agree on where chunks
    /// start.
    pub fn next_back(&mut self) -> (r: Option<Bytes>)
        requires
            old(self).wf(),
        ensures
            final(self).wf(),
            final(self).chunk_size() == old(self).chunk_size(),
            old(self).rest().len() == 0 ==> r is None && final(self).rest() == old(self).rest(),
            old(self).rest().len() > 0 ==> (r matches Some(b) && bytes_view(b) == chunk_at(
                old(self).rest(),
                old(self).chunk_size(),
                (old(self).count_spec() - 1) as nat,
            ) && final(self).rest() == old(self).rest().take(
                ((old(self).count_spec() - 1) * old(self).chunk_size()) as int,
            )),
    {
        let len = bytes_len(&self.buf);
        if len == 0 {
            None
        } else {
            proof {
                lemma_last_chunk(len as nat, self.chunk_len as nat);
            }
            let remainder = len % self.chunk_len;
            let chunksz = if remainder != 0 {
                remainder
            } else {
                self.chunk_len
            };
            let last = bytes_split_off(&mut self.buf, len - chunksz);
            Some(last)
        }
    }

    /// Skips `n` chunks from the back and hands out the one before them, at
    /// once; where fewer than `n + 1` are left, none is handed out and
    /// nothing is left.
    pub fn nth_back(&mut self, n: usize) -> (r: Option<Bytes>)
        requires
            old(self).wf(),
        ensures
            final(self).wf(),
            final(self).chunk_size() == old(self).chunk_size(),
            n < old(self).count_spec() ==> (r matches Some(b) && bytes_view(b) == chunk_at(
                old(self).rest(),
                old(self).chunk_size(),
                (old(self).count_spec() - 1 - n) as nat,
            ) && final(self).rest() == old(self).rest().take(
                ((old(self).count_spec() - 1 - n) * old(self).chunk_size()) as int,
            )),
            n >= old(self).count_spec() ==> r is None && final(self).rest().len() == 0,
    {
        let len = self.len();
        if n >= len {
            self.buf = bytes_empty();
            None
        } else {
            let total = bytes_len(&self.buf);
            proof {
                lemma_count(total as nat, self.chunk_len as nat, (len - 1 - n) as nat);
            }
            let start = (len - 1 - n) * self.chunk_len;
            let end = match start.checked_add(self.chunk_len) {
                Some(res) => if total < res {
                    total
                } else {
                    res
                },
                None => total,
            };
            let nth_back = bytes_slice(&self.buf, start, end);
            self.buf = bytes_slice(&self.buf, 0, start);
            proof {
                let i = (len - 1 - n) as nat;
                assert((i + 1) * self.chunk_len == i * self.chunk_len + self.chunk_len) by (nonlinear_arith);
                assert(self.rest() =~= old(self).rest().take(start as int));
            }
            Some(nth_back)
        }
    }
}

/// Splitting a buffer into chunks of one size.
pub trait ByteChunksExt: Sized {
    /// An iterator over non-overlapping chunks of `chunk_len` bytes of this
    /// buffer; the last may be shorter.
    fn byte_chunks(self, chunk_len: usize) -> (r: ByteChunks)
        requires
            chunk_len > 0,
        ensures
            r.wf(),
            r.chunk_size() == chunk_len,
    ;
}

impl ByteChunksExt for Bytes {
    fn byte_chunks(self, chunk_len: usize) -> (r: ByteChunks)
        ensures
            r.rest() == bytes_view(self),
    {
        ByteChunks::new(self, chunk_len)
    }
}

} // verus!
