//! The chunk splitter: consecutive pieces of at most 256 bytes.

use vstd::prelude::*;

verus! {

/// The largest number of bytes in one chunk.
pub const CHUNK_LEN: usize = 256;

/// The number of chunks of an input of `len` bytes: `len / 256`, rounded up.
pub open spec fn chunk_count(len: nat) -> nat {
    if len % 256 == 0 {
        len / 256
    } else {
        len / 256 + 1
    }
}

/// Where chunk `k` of an input starts.
pub open spec fn chunk_start(k: int) -> int {
    256 * k
}

/// Where chunk `k` of an input of `len` bytes ends: 256 bytes after its
/// start, or at the end of the input where that comes first.
pub open spec fn chunk_end(len: nat, k: int) -> int {
    if 256 * k + 256 <= len {
        256 * k + 256
    } else {
        len as int
    }
}

/// Chunk `k` of `bytes`.
pub open spec fn chunk_at(bytes: Seq<u8>, k: int) -> Seq<u8> {
    bytes.subrange(chunk_start(k), chunk_end(bytes.len(), k))
}

/// The chunks of `bytes`, in order.
pub open spec fn split(bytes: Seq<u8>) -> Seq<Seq<u8>> {
    Seq::new(chunk_count(bytes.len()), |k: int| chunk_at(bytes, k))
}

/// The bounds of every chunk lie in the input, one chunk starts where the
/// one before it ends, and the last chunk ends where the input ends.
pub proof fn lemma_chunk_bounds(len: nat, k: int)
    requires
        0 <= k < chunk_count(len),
    ensures
        0 <= chunk_start(k) < chunk_end(len, k) <= len,
        chunk_end(len, k) - chunk_start(k) <= 256,
        k + 1 < chunk_count(len) ==> chunk_end(len, k) - chunk_start(k) == 256,
        k + 1 < chunk_count(len) ==> chunk_end(len, k) == chunk_start(k + 1),
        k + 1 == chunk_count(len) ==> chunk_end(len, k) == len,
{
}

/// The first `n` chunks of an input, joined, are the input up to the end of
/// chunk `n - 1`.
proof fn lemma_joined_prefix(bytes: Seq<u8>, n: int)
    requires
        0 <= n <= chunk_count(bytes.len()),
    ensures
        split(bytes).take(n).flatten_alt() == bytes.take(
            if n == 0 {
                0
            } else {
                chunk_end(bytes.len(), n - 1)
            },
        ),
    decreases n,
{
    let front = split(bytes).take(n);
    if n == 0 {
        assert(front.flatten_alt() =~= bytes.take(0));
    } else {
        lemma_joined_prefix(bytes, n - 1);
        lemma_chunk_bounds(bytes.len(), n - 1);
        if n > 1 {
            lemma_chunk_bounds(bytes.len(), n - 2);
        }
        assert(front.drop_last() =~= split(bytes).take(n - 1));
        assert(front.last() == chunk_at(bytes, n - 1));
        assert(front.flatten_alt() =~= bytes.take(chunk_end(bytes.len(), n - 1)));
    }
}

/// An input of `len` bytes has `len / 256` chunks, rounded up; every chunk
/// holds at least 1 and at most 256 bytes; and the chunks, joined in order,
/// are the input.
pub proof fn lemma_split_partitions(bytes: Seq<u8>)
    ensures
        split(bytes).len() == chunk_count(bytes.len()),
        bytes.len() == 0 ==> split(bytes).len() == 0,
        forall|k: int|
            0 <= k < split(bytes).len() ==> 1 <= (#[trigger] split(bytes)[k]).len() <= 256,
        split(bytes).flatten() == bytes,
{
    let chunks = split(bytes);
    let n = chunks.len() as int;
    assert forall|k: int| 0 <= k < chunks.len() implies 1 <= (#[trigger] chunks[k]).len()
        <= 256 by {
        lemma_chunk_bounds(bytes.len(), k);
    }
    lemma_joined_prefix(bytes, n);
    assert(chunks.take(n) =~= chunks);
    chunks.lemma_flatten_and_flatten_alt_are_equivalent();
    if n > 0 {
        lemma_chunk_bounds(bytes.len(), n - 1);
    }
    assert(bytes.take(bytes.len() as int) =~= bytes);
}

/// An input of at most 256 bytes that is not empty is its own only chunk.
pub proof fn lemma_split_short(bytes: Seq<u8>)
    requires
        0 < bytes.len() <= 256,
    ensures
        split(bytes) == seq![bytes],
{
    assert(chunk_at(bytes, 0) =~= bytes);
    assert(split(bytes) =~= seq![bytes]);
}

/// A cursor over the chunks of an input. It borrows the input and cuts one
/// chunk at a time.
pub struct Chunks<'a> {
    bytes: &'a [u8],
    next: usize,
}

impl<'a> Chunks<'a> {
    #[verifier::type_invariant]
    spec fn well_formed(self) -> bool {
        self.next <= chunk_count(self.bytes@.len())
    }

    /// The input that is split.
    pub closed spec fn input(&self) -> Seq<u8> {
        self.bytes@
    }

    /// The number of chunks handed out since the start.
    pub closed spec fn position(&self) -> nat {
        self.next as nat
    }

    /// A cursor before the first chunk of `bytes`.
    pub fn new(bytes: &'a [u8]) -> (chunks: Chunks<'a>)
        ensures
            chunks.input() == bytes@,
            chunks.position() == 0,
    {
        Chunks { bytes, next: 0 }
    }

    /// The number of chunks of the input: its length divided by 256,
    /// rounded up.
    pub fn count(&self) -> (n: usize)
        ensures
            n == split(self.input()).len(),
            n == chunk_count(self.input().len()),
    {
        let len = self.bytes.len();
        if len % CHUNK_LEN == 0 {
            len / CHUNK_LEN
        } else {
            len / CHUNK_LEN + 1
        }
    }

    /// Chunk `k` of the input, where it has one.
    pub fn get(&self, k: usize) -> (chunk: Option<&'a [u8]>)
        ensures
            match chunk {
                Some(c) => k < split(self.input()).len() && c@ == split(self.input())[k as int],
                None => k >= split(self.input()).len(),
            },
    {
        let len = self.bytes.len();
        if k >= self.count() {
            return None;
        }
        proof {
            lemma_chunk_bounds(len as nat, k as int);
        }
        let start = CHUNK_LEN * k;
        let end = if len - start >= CHUNK_LEN {
            start + CHUNK_LEN
        } else {
            len
        };
        Some(vstd::slice::slice_subrange(self.bytes, start, end))
    }

    /// The next chunk, where one is left; the cursor moves past it.
    pub fn next_chunk(&mut self) -> (chunk: Option<&'a [u8]>)
        ensures
            final(self).input() == old(self).input(),
            match chunk {
                Some(c) => {
                    &&& old(self).position() < split(old(self).input()).len()
                    &&& c@ == split(old(self).input())[old(self).position() as int]
                    &&& final(self).position() == old(self).position() + 1
                },
                None => {
                    &&& old(self).position() == split(old(self).input()).len()
                    &&& final(self).position() == old(self).position()
                },
            },
    {
        proof {
            use_type_invariant(&*self);
        }
        let chunk = self.get(self.next);
        if chunk.is_some() {
            assert(self.next < chunk_count(self.bytes@.len()) <= self.bytes.len());
            self.next += 1;
        }
        chunk
    }

    /// Moves the cursor back before the first chunk.
    pub fn restart(&mut self)
        ensures
            final(self).input() == old(self).input(),
            final(self).position() == 0,
    {
        self.next = 0;
    }
}

} // verus!
