//! A bucket: a zone of bytes in which storage is handed out by advancing a cursor.
//!
//! A bucket keeps the books on its zone and nothing else: how large it is, where the
//! next allocation starts and how much is left. Offsets count from the start of the
//! zone, which lies on an 8-byte boundary.
use vstd::prelude::*;

verus! {

/// Every offset that a bucket hands out is a multiple of this.
pub const STORAGE_ALIGNMENT: usize = 8;

/// The size in bytes of a machine word, as a mathematical integer.
pub open spec fn word_size() -> int {
    usize::BITS as int / 8
}

/// Whether `bytes` is a whole number of machine words.
pub open spec fn whole_words(bytes: usize) -> bool {
    bytes as int % word_size() == 0
}

/// A multiple of 8 bytes is a whole number of machine words, whether they have 4 bytes
/// or 8.
pub proof fn lemma_multiple_of_eight_is_whole_words(bytes: usize)
    requires
        bytes % 8 == 0,
    ensures
        whole_words(bytes),
{
    let bits: u32 = usize::BITS;
    assert(bits == 32 || bits == 64);
    if bits == 32 {
        assert(bytes as int % 4 == 0);
    }
}

/// The size in bytes of a machine word.
pub fn machine_word() -> (word: usize)
    ensures
        word == word_size(),
        word == 4 || word == 8,
{
    let bits: u32 = usize::BITS;
    if bits == 32 {
        4
    } else {
        8
    }
}

/// The least multiple of 8 that is not below `offset`.
pub open spec fn align_up(offset: int) -> int {
    (offset + 7) / 8 * 8
}

/// Where a piece of storage lies: the number of its bucket and the offset in it.
#[derive(Copy, Clone, Debug, PartialEq, Eq, Structural, Hash)]
pub struct StoragePtr {
    pub bucket: usize,
    pub offset: usize,
}

/// The books of one bucket.
#[derive(Copy, Clone, Debug, PartialEq, Eq, Structural, Hash)]
pub struct Bucket {
    /// Bytes that can still be handed out.
    pub bytes_free: usize,
    /// Offset at which the next allocation starts.
    pub next_free: usize,
    /// Size of the zone.
    pub nr_bytes: usize,
}

impl Default for Bucket {
    fn default() -> (bucket: Bucket)
        ensures
            bucket == (Bucket { bytes_free: 0, next_free: 0, nr_bytes: 0 }),
            bucket.wf(),
    {
        Bucket { bytes_free: 0, next_free: 0, nr_bytes: 0 }
    }
}

impl Bucket {
    /// The books balance, and both the cursor and the size are multiples of 8.
    pub open spec fn wf(self) -> bool {
        &&& self.next_free + self.bytes_free == self.nr_bytes
        &&& self.next_free % 8 == 0
        &&& self.nr_bytes % 8 == 0
    }

    /// The bucket after `bytes_needed` bytes were taken from it: the cursor has moved
    /// past them and on to the next 8-byte boundary, and both the bytes taken and the
    /// padding are no longer free.
    pub open spec fn after_allocate(self, bytes_needed: usize) -> Bucket {
        let cursor = align_up(self.next_free + bytes_needed);
        Bucket {
            bytes_free: (self.nr_bytes - cursor) as usize,
            next_free: cursor as usize,
            nr_bytes: self.nr_bytes,
        }
    }

    /// The bucket with nothing handed out.
    pub open spec fn after_reset(self) -> Bucket {
        Bucket { bytes_free: self.nr_bytes, next_free: 0, nr_bytes: self.nr_bytes }
    }

    /// An empty bucket over a zone of `nr_bytes` bytes.
    pub fn with_size(nr_bytes: usize) -> (bucket: Bucket)
        requires
            nr_bytes % 8 == 0,
        ensures
            bucket == (Bucket { bytes_free: nr_bytes, next_free: 0, nr_bytes }),
            bucket.wf(),
    {
        Bucket { bytes_free: nr_bytes, next_free: 0, nr_bytes }
    }

    /// Takes `bytes_needed` bytes if that many are free, and returns the offset at which
    /// they start. A bucket with less room is left as it is.
    pub fn allocate(&mut self, bytes_needed: usize) -> (start: Option<usize>)
        requires
            old(self).wf(),
            whole_words(bytes_needed),
        ensures
            final(self).wf(),
            old(self).bytes_free >= bytes_needed ==> start == Some(old(self).next_free)
                && *final(self) == old(self).after_allocate(bytes_needed),
            old(self).bytes_free < bytes_needed ==> start.is_none() && *final(self) == *old(self),
            start matches Some(offset) ==> offset % 8 == 0
                && offset + bytes_needed <= final(self).next_free,
    {
        if self.bytes_free < bytes_needed {
            return None;
        }
        let word = machine_word();
        let start = self.next_free;
        let end = start + bytes_needed;
        let padding = (STORAGE_ALIGNMENT - end % STORAGE_ALIGNMENT) % STORAGE_ALIGNMENT;
        assert(bytes_needed % 4 == 0) by {
            assert(bytes_needed as int % (word as int) == 0);
            if word == 8 {
                assert(bytes_needed % 8 == 0 ==> bytes_needed % 4 == 0);
            }
        }
        assert(end + padding == align_up(end as int));
        assert(end + padding <= self.nr_bytes);
        self.bytes_free = self.bytes_free - bytes_needed - padding;
        self.next_free = end + padding;
        Some(start)
    }

    /// Empties the bucket: everything is free again and the cursor is back at the start.
    pub fn reset(&mut self)
        ensures
            *final(self) == old(self).after_reset(),
            old(self).nr_bytes % 8 == 0 ==> final(self).wf(),
    {
        self.bytes_free = self.nr_bytes;
        self.next_free = 0;
    }
}

} // verus!
