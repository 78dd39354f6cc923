//! The storage allocator: it places the buffers that nodes own in buckets.
//!
//! A request is served from the first bucket in use that has room, by advancing that
//! bucket's cursor. When none has room, an unused bucket with room is taken into use, and
//! failing that a new bucket is made. The allocator counts the bytes it has handed out
//! and asks for a collection once they pass a target.
//!
//! A collection copies what is alive. Before the mark phase the buckets in use are
//! condemned and the unused ones take their place, so that every buffer copied during
//! the mark phase lands in a bucket that was empty. After it the condemned buckets are
//! emptied and become the unused ones.
//!
//! A list of buckets is a vector of bucket numbers whose last element is the head of the
//! list.
use crate::dag_node::allocator::bucket::{align_up, whole_words, Bucket, StoragePtr};
use crate::dag_node::{BUCKET_MULTIPLIER, INITIAL_TARGET, MIN_BUCKET_SIZE, TARGET_MULTIPLIER};
use vstd::prelude::*;

verus! {

/// Bytes at the start of a new bucket that are set aside for its header.
pub const BUCKET_HEADER_SIZE: usize = 32;

/// The largest request that the allocator takes: a bucket of eight times this size
/// must still fit in the address space.
pub const MAX_STORAGE_REQUEST: usize = usize::MAX / 16;

/// `x + y`, or the largest `usize` where the sum is beyond it.
pub open spec fn saturating_sum(x: usize, y: usize) -> usize {
    if x + y > usize::MAX {
        usize::MAX
    } else {
        (x + y) as usize
    }
}

/// `x * y`, or the largest `usize` where the product is beyond it.
pub open spec fn saturating_product(x: usize, y: usize) -> usize {
    if x * y > usize::MAX {
        usize::MAX
    } else {
        (x * y) as usize
    }
}

/// The zone of a bucket made for a request of `bytes_needed` bytes: the larger of the
/// ordinary bucket size and eight times the request, less the header.
pub open spec fn fresh_bucket_bytes(bytes_needed: usize) -> int {
    if BUCKET_MULTIPLIER * bytes_needed > MIN_BUCKET_SIZE {
        BUCKET_MULTIPLIER * bytes_needed - BUCKET_HEADER_SIZE
    } else {
        MIN_BUCKET_SIZE - BUCKET_HEADER_SIZE
    }
}

/// The position in `list`, nearest its head, of a bucket with room for `bytes_needed`
/// bytes.
pub open spec fn find_fit(buckets: Seq<Bucket>, list: Seq<usize>, bytes_needed: usize) -> Option<
    int,
>
    decreases list.len(),
{
    if list.len() == 0 {
        None
    } else if buckets[list.last() as int].bytes_free >= bytes_needed {
        Some(list.len() - 1)
    } else {
        find_fit(buckets, list.drop_last(), bytes_needed)
    }
}

/// What a storage allocator holds, as mathematical values.
pub ghost struct StorageState {
    /// The books of every bucket ever made, by bucket number.
    pub buckets: Seq<Bucket>,
    /// The buckets in use, head last.
    pub in_use: Seq<usize>,
    /// The empty buckets that wait to be used, head last.
    pub unused: Seq<usize>,
    /// The buckets that were in use when the last mark phase began and have not been
    /// emptied yet, head last.
    pub condemned: Seq<usize>,
    /// Bytes handed out since the last mark phase began.
    pub storage_in_use: usize,
    /// Bytes in the zones of all buckets.
    pub total_bytes_allocated: usize,
    /// The bytes that were handed out when the last mark phase began.
    pub old_storage_in_use: usize,
    /// Bytes that may be handed out before a collection is asked for.
    pub target: usize,
    /// Whether a collection is asked for.
    pub need_to_collect_garbage: bool,
}

impl StorageState {
    /// All three lists, one after the other.
    pub open spec fn listed(self) -> Seq<usize> {
        self.in_use + self.unused + self.condemned
    }

    /// Every bucket's books balance, and the three lists name existing buckets, none
    /// of them twice.
    pub open spec fn wf(self) -> bool {
        &&& forall|id: int| 0 <= id < self.buckets.len() ==> (#[trigger] self.buckets[id]).wf()
        &&& forall|k: int| 0 <= k < self.listed().len() ==> (#[trigger] self.listed()[k])
            < self.buckets.len()
        &&& self.listed().no_duplicates()
    }

    /// The state with `bytes_needed` more bytes counted as handed out, and a collection
    /// asked for if that takes the count beyond the target.
    pub open spec fn charged(self, bytes_needed: usize) -> StorageState {
        let in_use = saturating_sum(self.storage_in_use, bytes_needed);
        StorageState {
            storage_in_use: in_use,
            need_to_collect_garbage: self.need_to_collect_garbage || in_use > self.target,
            ..self
        }
    }

    /// Where a request of `bytes_needed` bytes is placed.
    pub open spec fn placement(self, bytes_needed: usize) -> StoragePtr {
        match find_fit(self.buckets, self.in_use, bytes_needed) {
            Some(k) => StoragePtr {
                bucket: self.in_use[k],
                offset: self.buckets[self.in_use[k] as int].next_free,
            },
            None => match find_fit(self.buckets, self.unused, bytes_needed) {
                Some(k) => StoragePtr {
                    bucket: self.unused[k],
                    offset: self.buckets[self.unused[k] as int].next_free,
                },
                None => StoragePtr { bucket: self.buckets.len() as usize, offset: 0 },
            },
        }
    }

    /// The state after a request of `bytes_needed` bytes was served: by the first bucket
    /// in use that has room; else by the first unused bucket that has room, which
    /// becomes the head of the buckets in use; else by a new bucket, which does too.
    pub open spec fn after_allocate(self, bytes_needed: usize) -> StorageState {
        let charged = self.charged(bytes_needed);
        let place = self.placement(bytes_needed);
        let id = place.bucket as int;
        match find_fit(self.buckets, self.in_use, bytes_needed) {
            Some(k) => StorageState {
                buckets: self.buckets.update(id, self.buckets[id].after_allocate(bytes_needed)),
                ..charged
            },
            None => match find_fit(self.buckets, self.unused, bytes_needed) {
                Some(k) => StorageState {
                    buckets: self.buckets.update(
                        id,
                        self.buckets[id].after_allocate(bytes_needed),
                    ),
                    in_use: self.in_use.push(place.bucket),
                    unused: self.unused.remove(k),
                    ..charged
                },
                None => {
                    let zone = fresh_bucket_bytes(bytes_needed) as usize;
                    StorageState {
                        buckets: self.buckets.push(
                            Bucket { bytes_free: zone, next_free: 0, nr_bytes: zone }.after_allocate(
                                bytes_needed,
                            ),
                        ),
                        in_use: self.in_use.push(place.bucket),
                        total_bytes_allocated: saturating_sum(self.total_bytes_allocated, zone),
                        ..charged
                    }
                },
            },
        }
    }

    /// The state at the start of a mark phase: the buckets in use are condemned, the
    /// unused ones are in use, nothing counts as handed out, and no collection is
    /// asked for.
    pub open spec fn after_prepare_to_mark(self) -> StorageState {
        StorageState {
            in_use: self.unused,
            unused: Seq::empty(),
            condemned: self.condemned + self.in_use,
            storage_in_use: 0,
            old_storage_in_use: self.storage_in_use,
            need_to_collect_garbage: false,
            ..self
        }
    }

    /// The books after every bucket named in `list` was emptied.
    pub open spec fn emptied(self, list: Seq<usize>) -> Seq<Bucket> {
        Seq::new(
            self.buckets.len(),
            |id: int|
                if list.contains(id as usize) {
                    self.buckets[id].after_reset()
                } else {
                    self.buckets[id]
                },
        )
    }

    /// The state at the end of a collection: the condemned buckets are empty and
    /// unused, the target is at least eight times what is in use, and no collection is
    /// asked for.
    pub open spec fn after_sweep_garbage(self) -> StorageState {
        let wanted = saturating_product(TARGET_MULTIPLIER, self.storage_in_use);
        StorageState {
            buckets: self.emptied(self.condemned),
            unused: self.unused + self.condemned,
            condemned: Seq::empty(),
            need_to_collect_garbage: false,
            target: if wanted > self.target {
                wanted
            } else {
                self.target
            },
            ..self
        }
    }

    /// Whether `later` can follow this state when storage is handed out and nothing
    /// else happens: every bucket in use is still in use and its cursor has not moved
    /// back, the condemned buckets are the same, and no bucket has become unused.
    pub open spec fn extended_by(self, later: StorageState) -> bool {
        &&& self.buckets.len() <= later.buckets.len()
        &&& forall|id: usize| #[trigger]
            self.in_use.contains(id) ==> later.in_use.contains(id) && later.buckets[id as int].next_free
                >= self.buckets[id as int].next_free
        &&& later.condemned == self.condemned
        &&& (self.unused.len() == 0 ==> later.unused.len() == 0)
        &&& later.target == self.target
        &&& later.old_storage_in_use == self.old_storage_in_use
    }

    /// Every state extends itself.
    pub proof fn lemma_extended_by_itself(self)
        ensures
            self.extended_by(self),
    {
    }

    /// Handing out storage extends the state.
    pub proof fn lemma_allocate_extends(self, bytes_needed: usize)
        requires
            self.wf(),
        ensures
            self.extended_by(self.after_allocate(bytes_needed)),
    {
        let later = self.after_allocate(bytes_needed);
        assert(self.listed() =~= self.in_use + self.unused + self.condemned);
        lemma_find_fit_in_range(self.buckets, self.in_use, bytes_needed);
        lemma_find_fit_in_range(self.buckets, self.unused, bytes_needed);
        if find_fit(self.buckets, self.in_use, bytes_needed) is Some {
            let w = find_fit(self.buckets, self.in_use, bytes_needed).unwrap();
            assert(self.listed()[w] == self.in_use[w]);
        } else if find_fit(self.buckets, self.unused, bytes_needed) is Some {
            let w = find_fit(self.buckets, self.unused, bytes_needed).unwrap();
            assert(self.listed()[self.in_use.len() + w] == self.unused[w]);
        }
        assert(self.buckets.len() <= later.buckets.len());
        assert(later.condemned == self.condemned);
        assert(self.unused.len() == 0 ==> later.unused.len() == 0);
        assert forall|id: usize| #[trigger] self.in_use.contains(id) implies later.in_use.contains(
            id,
        ) && later.buckets[id as int].next_free >= self.buckets[id as int].next_free by {
            let k = choose|k: int| 0 <= k < self.in_use.len() && self.in_use[k] == id;
            assert(self.listed()[k] == id);
            assert(later.in_use[k] == id);
            assert(id < self.buckets.len());
            let bucket = self.buckets[id as int];
            assert(bucket.wf());
            let fit_in_use = find_fit(self.buckets, self.in_use, bytes_needed);
            let fit_unused = find_fit(self.buckets, self.unused, bytes_needed);
            if fit_in_use is Some {
                let w = fit_in_use.unwrap();
                assert(self.listed()[w] == self.in_use[w]);
                if self.in_use[w] == id {
                    let cursor = align_up(bucket.next_free + bytes_needed);
                    assert(bucket.next_free <= cursor <= bucket.nr_bytes);
                    assert(later.buckets[id as int] == bucket.after_allocate(bytes_needed));
                    assert(later.buckets[id as int].next_free >= bucket.next_free);
                } else {
                    assert(later.buckets[id as int] == self.buckets[id as int]);
                }
            } else if fit_unused is Some {
                let w = fit_unused.unwrap();
                assert(self.listed()[self.in_use.len() + w] == self.unused[w]);
                assert(self.unused[w] != id);
                assert(later.buckets[id as int] == self.buckets[id as int]);
            } else {
                assert(later.buckets[id as int] == self.buckets[id as int]);
            }
            assert(later.buckets[id as int].next_free >= self.buckets[id as int].next_free);
            assert(later.in_use.contains(id));
        }
    }

    /// What extends an extension extends the state.
    pub proof fn lemma_extended_twice(self, middle: StorageState, later: StorageState)
        requires
            self.extended_by(middle),
            middle.extended_by(later),
        ensures
            self.extended_by(later),
    {
        assert forall|id: usize| #[trigger] self.in_use.contains(id) implies later.in_use.contains(
            id,
        ) && later.buckets[id as int].next_free >= self.buckets[id as int].next_free by {
            assert(middle.in_use.contains(id));
        }
    }

    /// What lies in storage handed out still does when the state has been extended.
    pub proof fn lemma_extension_holds(self, later: StorageState, place: StoragePtr, bytes: int)
        requires
            self.extended_by(later),
            self.holds(place, bytes),
        ensures
            later.holds(place, bytes),
    {
    }

    /// What lies in storage handed out still does when the condemned buckets have been
    /// emptied.
    pub proof fn lemma_sweep_keeps_holds(self, place: StoragePtr, bytes: int)
        requires
            self.wf(),
            self.holds(place, bytes),
        ensures
            self.after_sweep_garbage().holds(place, bytes),
    {
        let k = choose|k: int| 0 <= k < self.in_use.len() && self.in_use[k] == place.bucket;
        assert(self.listed()[k] == place.bucket);
        if self.condemned.contains(place.bucket) {
            let c = choose|c: int| 0 <= c < self.condemned.len() && self.condemned[c] == place.bucket;
            assert(self.listed()[self.in_use.len() + self.unused.len() + c] == place.bucket);
        }
    }

    /// Whether `place` with `bytes` bytes behind it lies in the part of a bucket in use
    /// that has been handed out.
    pub open spec fn holds(self, place: StoragePtr, bytes: int) -> bool {
        &&& self.in_use.contains(place.bucket)
        &&& place.bucket < self.buckets.len()
        &&& place.offset + bytes <= self.buckets[place.bucket as int].next_free
    }
}

/// The storage allocator.
pub struct StorageAllocator {
    show_gc: bool,
    early_quit: u64,
    need_to_collect_garbage: bool,
    buckets: Vec<Bucket>,
    bucket_list: Vec<usize>,
    unused_list: Vec<usize>,
    condemned_list: Vec<usize>,
    storage_in_use: usize,
    total_bytes_allocated: usize,
    old_storage_in_use: usize,
    target: usize,
}

impl View for StorageAllocator {
    type V = StorageState;

    closed spec fn view(&self) -> StorageState {
        StorageState {
            buckets: self.buckets@,
            in_use: self.bucket_list@,
            unused: self.unused_list@,
            condemned: self.condemned_list@,
            storage_in_use: self.storage_in_use,
            total_bytes_allocated: self.total_bytes_allocated,
            old_storage_in_use: self.old_storage_in_use,
            target: self.target,
            need_to_collect_garbage: self.need_to_collect_garbage,
        }
    }
}

/// A fit that is found is a position of the list.
pub proof fn lemma_find_fit_in_range(buckets: Seq<Bucket>, list: Seq<usize>, bytes_needed: usize)
    ensures
        find_fit(buckets, list, bytes_needed) matches Some(k) ==> 0 <= k < list.len()
            && buckets[list[k] as int].bytes_free >= bytes_needed,
    decreases list.len(),
{
    if list.len() > 0 && buckets[list.last() as int].bytes_free < bytes_needed {
        lemma_find_fit_in_range(buckets, list.drop_last(), bytes_needed);
    }
}

/// What a list holds once `last` is put at its end.
proof fn lemma_contains_push(list: Seq<usize>, last: usize, id: usize)
    ensures
        list.push(last).contains(id) <==> list.contains(id) || id == last,
{
    let longer = list.push(last);
    if list.contains(id) {
        let w = choose|w: int| 0 <= w < list.len() && list[w] == id;
        assert(longer[w] == id);
    }
    if id == last {
        assert(longer[list.len() as int] == id);
    }
    if longer.contains(id) {
        let w = choose|w: int| 0 <= w < longer.len() && longer[w] == id;
        if w < list.len() {
            assert(list[w] == id);
        }
    }
}

/// Unfolding `find_fit` once at the end of a prefix of `list`.
proof fn lemma_find_fit_step(buckets: Seq<Bucket>, list: Seq<usize>, bytes_needed: usize, k: int)
    requires
        0 < k <= list.len(),
    ensures
        buckets[list[k - 1] as int].bytes_free >= bytes_needed ==> find_fit(
            buckets,
            list.take(k),
            bytes_needed,
        ) == Some(k - 1),
        buckets[list[k - 1] as int].bytes_free < bytes_needed ==> find_fit(
            buckets,
            list.take(k),
            bytes_needed,
        ) == find_fit(buckets, list.take(k - 1), bytes_needed),
{
    assert(list.take(k).drop_last() =~= list.take(k - 1));
    assert(list.take(k).last() == list[k - 1]);
}

impl StorageAllocator {
    /// Whether the allocator reports its collections.
    pub closed spec fn spec_show_gc(&self) -> bool {
        self.show_gc
    }

    /// The number of collections after which the caller is to stop; 0 for never.
    pub closed spec fn spec_early_quit(&self) -> u64 {
        self.early_quit
    }

    /// The allocator's state is well formed.
    pub open spec fn wf(&self) -> bool {
        self@.wf()
    }

    /// The state of an allocator without buckets.
    pub open spec fn new_state() -> StorageState {
        StorageState {
            buckets: Seq::empty(),
            in_use: Seq::empty(),
            unused: Seq::empty(),
            condemned: Seq::empty(),
            storage_in_use: 0,
            total_bytes_allocated: 0,
            old_storage_in_use: 0,
            target: INITIAL_TARGET,
            need_to_collect_garbage: false,
        }
    }

    /// An allocator without buckets.
    pub fn new() -> (allocator: StorageAllocator)
        ensures
            allocator.wf(),
            allocator@ == StorageAllocator::new_state(),
            allocator.spec_show_gc(),
            allocator.spec_early_quit() == 0,
    {
        StorageAllocator {
            show_gc: true,
            early_quit: 0,
            need_to_collect_garbage: false,
            buckets: Vec::new(),
            bucket_list: Vec::new(),
            unused_list: Vec::new(),
            condemned_list: Vec::new(),
            storage_in_use: 0,
            total_bytes_allocated: 0,
            old_storage_in_use: 0,
            target: INITIAL_TARGET,
        }
    }

    /// Whether the allocator asks for a collection.
    pub fn want_to_collect_garbage(&self) -> (wanted: bool)
        ensures
            wanted == self@.need_to_collect_garbage,
    {
        self.need_to_collect_garbage
    }

    /// Whether the allocator reports its collections.
    pub fn show_gc(&self) -> (show: bool)
        ensures
            show == self.spec_show_gc(),
    {
        self.show_gc
    }

    /// The number of collections after which the caller is to stop; 0 for never.
    pub fn early_quit(&self) -> (count: u64)
        ensures
            count == self.spec_early_quit(),
    {
        self.early_quit
    }

    /// The number of buckets.
    pub fn bucket_count(&self) -> (count: usize)
        ensures
            count == self@.buckets.len(),
    {
        self.buckets.len()
    }

    /// Bytes handed out since the last mark phase began.
    pub fn storage_in_use(&self) -> (bytes: usize)
        ensures
            bytes == self@.storage_in_use,
    {
        self.storage_in_use
    }

    /// The bytes that were handed out when the last mark phase began.
    pub fn old_storage_in_use(&self) -> (bytes: usize)
        ensures
            bytes == self@.old_storage_in_use,
    {
        self.old_storage_in_use
    }

    /// Bytes in the zones of all buckets.
    pub fn total_bytes_allocated(&self) -> (bytes: usize)
        ensures
            bytes == self@.total_bytes_allocated,
    {
        self.total_bytes_allocated
    }

    /// Bytes that may be handed out before a collection is asked for.
    pub fn target(&self) -> (bytes: usize)
        ensures
            bytes == self@.target,
    {
        self.target
    }

    /// The books of bucket `id`, if there is such a bucket.
    pub fn bucket(&self, id: usize) -> (bucket: Option<Bucket>)
        ensures
            id < self@.buckets.len() ==> bucket == Some(self@.buckets[id as int]),
            id >= self@.buckets.len() ==> bucket.is_none(),
    {
        if id < self.buckets.len() {
            Some(self.buckets[id])
        } else {
            None
        }
    }

    /// Whether bucket `id` is in use.
    pub fn is_in_use(&self, id: usize) -> (found: bool)
        ensures
            found == self@.in_use.contains(id),
    {
        Self::list_contains(&self.bucket_list, id)
    }

    /// Whether bucket `id` is unused.
    pub fn is_unused(&self, id: usize) -> (found: bool)
        ensures
            found == self@.unused.contains(id),
    {
        Self::list_contains(&self.unused_list, id)
    }

    fn list_contains(list: &Vec<usize>, id: usize) -> (found: bool)
        ensures
            found == list@.contains(id),
    {
        let mut k: usize = 0;
        while k < list.len()
            invariant
                k <= list.len(),
                forall|j: int| 0 <= j < k ==> list@[j] != id,
            decreases list.len() - k,
        {
            if list[k] == id {
                return true;
            }
            k += 1;
        }
        false
    }

    /// Looks in `list`, from its head, for a bucket with room for `bytes_needed` bytes.
    fn search(&self, list: &Vec<usize>, bytes_needed: usize) -> (found: Option<usize>)
        requires
            forall|k: int| 0 <= k < list.len() ==> (#[trigger] list@[k]) < self@.buckets.len(),
        ensures
            found matches Some(k) ==> find_fit(self@.buckets, list@, bytes_needed) == Some(
                k as int,
            ) && k < list.len() && self@.buckets[list@[k as int] as int].bytes_free
                >= bytes_needed,
            found.is_none() ==> find_fit(self@.buckets, list@, bytes_needed).is_none(),
    {
        let mut k: usize = list.len();
        assert(list@.take(k as int) =~= list@);
        while k > 0
            invariant
                k <= list.len(),
                forall|j: int| 0 <= j < list.len() ==> (#[trigger] list@[j]) < self@.buckets.len(),
                find_fit(self@.buckets, list@, bytes_needed) == find_fit(
                    self@.buckets,
                    list@.take(k as int),
                    bytes_needed,
                ),
            decreases k,
        {
            proof {
                lemma_find_fit_step(self@.buckets, list@, bytes_needed, k as int);
            }
            k -= 1;
            let id = list[k];
            if self.buckets[id].bytes_free >= bytes_needed {
                return Some(k);
            }
        }
        None
    }

    /// Hands out `bytes_needed` bytes of bucket storage and says where they lie.
    ///
    /// The place is 8-byte aligned, and so is the cursor of the bucket that served the
    /// request.
    pub fn allocate_storage(&mut self, bytes_needed: usize) -> (place: StoragePtr)
        requires
            old(self).wf(),
            whole_words(bytes_needed),
            bytes_needed <= MAX_STORAGE_REQUEST,
        ensures
            final(self).wf(),
            final(self)@ == old(self)@.after_allocate(bytes_needed),
            place == old(self)@.placement(bytes_needed),
            final(self)@.holds(place, bytes_needed as int),
            place.offset % 8 == 0,
            final(self)@.buckets[place.bucket as int].next_free % 8 == 0,
            final(self).spec_show_gc() == old(self).spec_show_gc(),
            final(self).spec_early_quit() == old(self).spec_early_quit(),
    {
        let ghost before = self@;
        self.storage_in_use = self.storage_in_use.saturating_add(bytes_needed);
        if self.storage_in_use > self.target {
            self.need_to_collect_garbage = true;
        }
        proof {
            assert(before.listed() =~= before.in_use + before.unused + before.condemned);
            assert forall|k: int| 0 <= k < before.in_use.len() implies (
            #[trigger] before.in_use[k]) < before.buckets.len() by {
                assert(before.listed()[k] == before.in_use[k]);
            }
        }
        match self.search(&self.bucket_list, bytes_needed) {
            Some(k) => {
                let id = self.bucket_list[k];
                let mut bucket = self.buckets[id];
                let start = bucket.allocate(bytes_needed);
                self.buckets.set(id, bucket);
                proof {
                    assert(self@.listed() =~= before.listed());
                    assert(self@.in_use[k as int] == id);
                }
                StoragePtr { bucket: id, offset: start.unwrap() }
            },
            None => self.slow_allocate_storage(bytes_needed, Ghost(before)),
        }
    }

    /// Serves a request that no bucket in use has room for.
    fn slow_allocate_storage(&mut self, bytes_needed: usize, Ghost(before): Ghost<
        StorageState,
    >) -> (place: StoragePtr)
        requires
            before.wf(),
            old(self)@ == before.charged(bytes_needed),
            find_fit(before.buckets, before.in_use, bytes_needed).is_none(),
            whole_words(bytes_needed),
            bytes_needed <= MAX_STORAGE_REQUEST,
        ensures
            final(self).wf(),
            final(self)@ == before.after_allocate(bytes_needed),
            place == before.placement(bytes_needed),
            final(self)@.holds(place, bytes_needed as int),
            place.offset % 8 == 0,
            final(self)@.buckets[place.bucket as int].next_free % 8 == 0,
            final(self).spec_show_gc() == old(self).spec_show_gc(),
            final(self).spec_early_quit() == old(self).spec_early_quit(),
    {
        proof {
            assert(before.listed() =~= before.in_use + before.unused + before.condemned);
            assert forall|k: int| 0 <= k < before.unused.len() implies (
            #[trigger] before.unused[k]) < before.buckets.len() by {
                assert(before.listed()[before.in_use.len() + k] == before.unused[k]);
            }
        }
        match self.search(&self.unused_list, bytes_needed) {
            Some(k) => {
                // Move the bucket from the unused list to the head of the list in use.
                let id = self.unused_list.remove(k);
                self.bucket_list.push(id);
                let mut bucket = self.buckets[id];
                let start = bucket.allocate(bytes_needed);
                self.buckets.set(id, bucket);
                proof {
                    let after = self@;
                    let n = before.in_use.len() as int;
                    let m = before.unused.len() as int;
                    assert(after.in_use[n] == id);
                    assert forall|i: int| 0 <= i < after.listed().len() implies (
                    #[trigger] after.listed()[i]) < after.buckets.len() && exists|j: int|
                        0 <= j < before.listed().len() && before.listed()[j] == after.listed()[i]
                        && (j == origin_of_moved(n, k as int, i)) by {
                        let j = origin_of_moved(n, k as int, i);
                        assert(before.listed()[j] == after.listed()[i]);
                    }
                    assert forall|i: int, j: int|
                        0 <= i < after.listed().len() && 0 <= j < after.listed().len() && i
                            != j implies after.listed()[i] != after.listed()[j] by {
                        let oi = origin_of_moved(n, k as int, i);
                        let oj = origin_of_moved(n, k as int, j);
                        assert(before.listed()[oi] == after.listed()[i]);
                        assert(before.listed()[oj] == after.listed()[j]);
                        assert(oi != oj);
                    }
                }
                StoragePtr { bucket: id, offset: start.unwrap() }
            },
            None => {
                // Make a new bucket and put it at the head of the list in use.
                let size = if BUCKET_MULTIPLIER * bytes_needed > MIN_BUCKET_SIZE {
                    BUCKET_MULTIPLIER * bytes_needed
                } else {
                    MIN_BUCKET_SIZE
                };
                let byte_count = size - BUCKET_HEADER_SIZE;
                let id = self.buckets.len();
                let mut bucket = Bucket::with_size(byte_count);
                let start = bucket.allocate(bytes_needed);
                self.total_bytes_allocated = self.total_bytes_allocated.saturating_add(byte_count);
                self.buckets.push(bucket);
                self.bucket_list.push(id);
                proof {
                    let after = self@;
                    let n = before.in_use.len() as int;
                    assert(after.in_use[n] == id);
                    assert forall|i: int| 0 <= i < after.listed().len() implies (
                    #[trigger] after.listed()[i]) < after.buckets.len() by {
                        if i < n {
                            assert(before.listed()[i] == after.listed()[i]);
                        } else if i > n {
                            assert(before.listed()[i - 1] == after.listed()[i]);
                        }
                    }
                    assert forall|i: int, j: int|
                        0 <= i < after.listed().len() && 0 <= j < after.listed().len() && i
                            != j implies after.listed()[i] != after.listed()[j] by {
                        if i != n {
                            let oi = if i < n {
                                i
                            } else {
                                i - 1
                            };
                            assert(before.listed()[oi] == after.listed()[i]);
                        }
                        if j != n {
                            let oj = if j < n {
                                j
                            } else {
                                j - 1
                            };
                            assert(before.listed()[oj] == after.listed()[j]);
                        }
                    }
                }
                StoragePtr { bucket: id, offset: start.unwrap() }
            },
        }
    }

    /// Readies the buckets for a mark phase: the buckets in use are condemned and the
    /// unused ones take their place.
    pub fn _prepare_to_mark(&mut self)
        requires
            old(self).wf(),
        ensures
            final(self).wf(),
            final(self)@ == old(self)@.after_prepare_to_mark(),
            final(self).spec_show_gc() == old(self).spec_show_gc(),
            final(self).spec_early_quit() == old(self).spec_early_quit(),
    {
        let ghost before = self@;
        self.old_storage_in_use = self.storage_in_use;
        self.condemned_list.append(&mut self.bucket_list);
        self.bucket_list.append(&mut self.unused_list);
        self.storage_in_use = 0;
        self.need_to_collect_garbage = false;
        proof {
            let after = self@;
            assert(after.in_use =~= before.unused);
            assert(after.unused =~= Seq::<usize>::empty());
            assert(after.condemned =~= before.condemned + before.in_use);
            assert(after.buckets == before.buckets);
            assert(after.listed() =~= before.unused + before.condemned + before.in_use);
            assert(before.listed() =~= before.in_use + before.unused + before.condemned);
            let n = before.in_use.len() as int;
            let m = before.unused.len() as int;
            let c = before.condemned.len() as int;
            assert forall|i: int| 0 <= i < after.listed().len() implies (
            #[trigger] after.listed()[i]) < after.buckets.len() by {
                let j = origin_of_prepared(n, m, c, i);
                assert(before.listed()[j] == after.listed()[i]);
            }
            assert forall|i: int, j: int|
                0 <= i < after.listed().len() && 0 <= j < after.listed().len() && i
                    != j implies after.listed()[i] != after.listed()[j] by {
                let oi = origin_of_prepared(n, m, c, i);
                let oj = origin_of_prepared(n, m, c, j);
                assert(before.listed()[oi] == after.listed()[i]);
                assert(before.listed()[oj] == after.listed()[j]);
            }
        }
    }

    /// Ends a collection: the condemned buckets are emptied and become unused, the
    /// target is raised to eight times the storage in use if it is below that, and no
    /// collection is asked for any more.
    pub fn _sweep_garbage(&mut self)
        requires
            old(self).wf(),
        ensures
            final(self).wf(),
            final(self)@ == old(self)@.after_sweep_garbage(),
            final(self).spec_show_gc() == old(self).spec_show_gc(),
            final(self).spec_early_quit() == old(self).spec_early_quit(),
    {
        let ghost before = self@;
        let mut k: usize = 0;
        proof {
            assert(before.listed() =~= before.in_use + before.unused + before.condemned);
            assert(before.emptied(before.condemned.take(0)) =~= before.buckets);
        }
        while k < self.condemned_list.len()
            invariant
                k <= self.condemned_list.len(),
                before.wf(),
                before.buckets.len() == self.buckets.len(),
                self.spec_show_gc() == old(self).spec_show_gc(),
                self.spec_early_quit() == old(self).spec_early_quit(),
                self@ == (StorageState {
                    buckets: before.emptied(before.condemned.take(k as int)),
                    ..before
                }),
            decreases self.condemned_list.len() - k,
        {
            let id = self.condemned_list[k];
            proof {
                assert(before.listed()[before.in_use.len() + before.unused.len() + k]
                    == before.condemned[k as int]);
            }
            let ghost swept = self@.buckets;
            let mut bucket = self.buckets[id];
            bucket.reset();
            self.buckets.set(id, bucket);
            proof {
                let shorter = before.condemned.take(k as int);
                let longer = before.condemned.take(k + 1);
                assert(longer =~= shorter.push(id));
                assert(!shorter.contains(id)) by {
                    if shorter.contains(id) {
                        let w = choose|w: int| 0 <= w < shorter.len() && shorter[w] == id;
                        let base = before.in_use.len() + before.unused.len();
                        assert(before.listed()[base + w] == id);
                        assert(before.listed()[base + k] == id);
                    }
                }
                assert forall|b: int| 0 <= b < before.buckets.len() implies self@.buckets[b]
                    == before.emptied(longer)[b] by {
                    assert(swept[b] == before.emptied(shorter)[b]);
                    lemma_contains_push(shorter, id, b as usize);
                }
                assert(self@.buckets =~= before.emptied(longer));
            }
            k += 1;
        }
        proof {
            assert(before.condemned.take(k as int) =~= before.condemned);
        }
        self.unused_list.append(&mut self.condemned_list);
        let wanted = match TARGET_MULTIPLIER.checked_mul(self.storage_in_use) {
            Some(product) => product,
            None => usize::MAX,
        };
        if wanted > self.target {
            self.target = wanted;
        }
        self.need_to_collect_garbage = false;
        proof {
            let after = self@;
            assert(after.condemned =~= Seq::<usize>::empty());
            assert(after.listed() =~= before.listed());
            assert forall|id: int| 0 <= id < after.buckets.len() implies (
            #[trigger] after.buckets[id]).wf() by {
                assert(before.buckets[id].wf());
            }
        }
    }
}

/// Where in the three lists, taken one after the other, the entry at `i` stood before
/// the entry at `k` of the second list became the last of the first list, which had
/// `n` entries.
pub open spec fn origin_of_moved(n: int, k: int, i: int) -> int {
    if i < n {
        i
    } else if i == n {
        n + k
    } else if i <= n + k {
        i - 1
    } else {
        i
    }
}

/// Where in the three lists, taken one after the other, the entry at `i` stood before
/// the first list of `n` entries was put behind the third of `c` entries and the second
/// of `m` entries took its place.
pub open spec fn origin_of_prepared(n: int, m: int, c: int, i: int) -> int {
    if i < m {
        n + i
    } else if i < m + c {
        n + i
    } else {
        i - m - c
    }
}

} // verus!
