use dag_gc::dag_node::allocator::bucket::{machine_word, Bucket, StoragePtr};
use dag_gc::dag_node::allocator::storage_allocator::{
    StorageAllocator, BUCKET_HEADER_SIZE, MAX_STORAGE_REQUEST,
};
use dag_gc::dag_node::{BUCKET_MULTIPLIER, INITIAL_TARGET, MIN_BUCKET_SIZE, TARGET_MULTIPLIER};

#[test]
fn the_parameters_have_their_values() {
    assert_eq!(MIN_BUCKET_SIZE, 256 * 1024 - 8);
    assert_eq!(BUCKET_MULTIPLIER, 8);
    assert_eq!(INITIAL_TARGET, 220 * 1024);
    assert_eq!(TARGET_MULTIPLIER, 8);
    assert_eq!(BUCKET_HEADER_SIZE, 32);
    assert_eq!(machine_word(), std::mem::size_of::<usize>());
    assert!(MAX_STORAGE_REQUEST >= 1 << 27);
}

#[test]
fn the_default_bucket_is_empty() {
    let bucket = Bucket::default();
    assert_eq!(bucket, Bucket { bytes_free: 0, next_free: 0, nr_bytes: 0 });
}

#[test]
fn a_bucket_hands_out_from_its_cursor() {
    let mut bucket = Bucket::with_size(128);
    assert_eq!(bucket.allocate(24), Some(0));
    assert_eq!(bucket, Bucket { bytes_free: 104, next_free: 24, nr_bytes: 128 });
    assert_eq!(bucket.allocate(8), Some(24));
    assert_eq!(bucket, Bucket { bytes_free: 96, next_free: 32, nr_bytes: 128 });
    assert_eq!(bucket.allocate(96), Some(32));
    assert_eq!(bucket, Bucket { bytes_free: 0, next_free: 128, nr_bytes: 128 });
}

#[test]
fn a_bucket_without_room_is_left_alone() {
    let mut bucket = Bucket::with_size(64);
    assert_eq!(bucket.allocate(72), None);
    assert_eq!(bucket, Bucket { bytes_free: 64, next_free: 0, nr_bytes: 64 });
    assert_eq!(bucket.allocate(64), Some(0));
    assert_eq!(bucket.allocate(8), None);
    assert_eq!(bucket.allocate(0), Some(64));
}

#[test]
fn a_bucket_keeps_its_cursor_aligned() {
    let mut bucket = Bucket::with_size(4096);
    let word = machine_word();
    let mut request: usize = 0;
    while request <= 10 * word {
        let start = bucket.allocate(request).unwrap();
        assert_eq!(start % 8, 0);
        assert_eq!(bucket.next_free % 8, 0);
        assert_eq!(bucket.next_free + bucket.bytes_free, bucket.nr_bytes);
        assert!(start + request <= bucket.next_free);
        request += word;
    }
}

#[test]
fn a_reset_bucket_is_empty() {
    let mut bucket = Bucket::with_size(256);
    bucket.allocate(40);
    bucket.reset();
    assert_eq!(bucket, Bucket { bytes_free: 256, next_free: 0, nr_bytes: 256 });
}

#[test]
fn a_new_storage_allocator_has_no_buckets() {
    let storage = StorageAllocator::new();
    assert!(!storage.want_to_collect_garbage());
    assert_eq!(storage.bucket_count(), 0);
    assert_eq!(storage.storage_in_use(), 0);
    assert_eq!(storage.total_bytes_allocated(), 0);
    assert_eq!(storage.target(), 225280);
    assert_eq!(storage.bucket(0), None);
    assert!(storage.show_gc());
    assert_eq!(storage.early_quit(), 0);
}

#[test]
fn the_first_request_makes_a_bucket() {
    let mut storage = StorageAllocator::new();
    let place = storage.allocate_storage(64);
    assert_eq!(place, StoragePtr { bucket: 0, offset: 0 });
    assert_eq!(storage.bucket_count(), 1);
    assert_eq!(storage.total_bytes_allocated(), 262104);
    assert_eq!(storage.storage_in_use(), 64);
    assert_eq!(
        storage.bucket(0),
        Some(Bucket { bytes_free: 262040, next_free: 64, nr_bytes: 262104 })
    );
    assert!(storage.is_in_use(0));
    assert!(!storage.is_unused(0));
    assert!(!storage.want_to_collect_garbage());
}

#[test]
fn requests_are_served_one_behind_the_other() {
    let mut storage = StorageAllocator::new();
    assert_eq!(storage.allocate_storage(64), StoragePtr { bucket: 0, offset: 0 });
    assert_eq!(storage.allocate_storage(24), StoragePtr { bucket: 0, offset: 64 });
    assert_eq!(storage.allocate_storage(8), StoragePtr { bucket: 0, offset: 88 });
    assert_eq!(storage.storage_in_use(), 96);
    assert_eq!(storage.bucket_count(), 1);
}

#[test]
fn crossing_the_target_asks_for_a_collection() {
    let mut storage = StorageAllocator::new();
    storage.allocate_storage(225280);
    assert_eq!(storage.storage_in_use(), 225280);
    assert!(!storage.want_to_collect_garbage());
    storage.allocate_storage(8);
    assert_eq!(storage.storage_in_use(), 225288);
    assert!(storage.want_to_collect_garbage());
}

#[test]
fn a_full_bucket_is_passed_over() {
    let mut storage = StorageAllocator::new();
    assert_eq!(storage.allocate_storage(64), StoragePtr { bucket: 0, offset: 0 });
    assert_eq!(storage.allocate_storage(262040), StoragePtr { bucket: 0, offset: 64 });
    assert_eq!(storage.bucket(0).unwrap().bytes_free, 0);
    assert_eq!(storage.allocate_storage(16), StoragePtr { bucket: 1, offset: 0 });
    assert_eq!(storage.bucket_count(), 2);
    // The new bucket is the head of the list and serves what follows.
    assert_eq!(storage.allocate_storage(16), StoragePtr { bucket: 1, offset: 16 });
    assert_eq!(storage.total_bytes_allocated(), 2 * 262104);
}

#[test]
fn an_outsized_request_gets_a_bucket_of_eight_times_its_size() {
    let mut storage = StorageAllocator::new();
    storage.allocate_storage(64);
    let request = 320032;
    assert!(request > MIN_BUCKET_SIZE);
    let place = storage.allocate_storage(request);
    assert_eq!(place, StoragePtr { bucket: 1, offset: 0 });
    let bucket = storage.bucket(1).unwrap();
    assert_eq!(bucket.nr_bytes, 8 * request - 32);
    assert_eq!(bucket.next_free, request);
    assert_eq!(bucket.bytes_free, 7 * request - 32);
    // Small requests fit in what is left of it.
    assert_eq!(storage.allocate_storage(64), StoragePtr { bucket: 1, offset: request });
    assert_eq!(storage.allocate_storage(8), StoragePtr { bucket: 1, offset: request + 64 });
}

#[test]
fn a_small_request_gets_an_ordinary_bucket() {
    let mut storage = StorageAllocator::new();
    // Eight times the request is just below the ordinary bucket size.
    storage.allocate_storage(32760);
    assert_eq!(storage.bucket(0).unwrap().nr_bytes, 262136 - 32);
}

#[test]
fn a_mark_phase_moves_the_buckets_between_the_lists() {
    let mut storage = StorageAllocator::new();
    storage.allocate_storage(64);
    storage.allocate_storage(262104);
    assert!(storage.is_in_use(0));
    assert!(storage.is_in_use(1));
    storage._prepare_to_mark();
    assert_eq!(storage.storage_in_use(), 0);
    assert_eq!(storage.old_storage_in_use(), 262168);
    assert!(!storage.want_to_collect_garbage());
    assert!(!storage.is_in_use(0));
    assert!(!storage.is_in_use(1));
    assert!(!storage.is_unused(0));
    // What is handed out now lands in a new bucket.
    assert_eq!(storage.allocate_storage(16), StoragePtr { bucket: 2, offset: 0 });
    storage._sweep_garbage();
    assert!(storage.is_unused(0));
    assert!(storage.is_unused(1));
    assert!(storage.is_in_use(2));
    assert!(!storage.is_unused(2));
    assert_eq!(storage.bucket(0), Some(Bucket { bytes_free: 262104, next_free: 0, nr_bytes: 262104 }));
    assert_eq!(storage.bucket(1), Some(Bucket { bytes_free: 2096800, next_free: 0, nr_bytes: 2096800 }));
    assert_eq!(storage.bucket(2).unwrap().next_free, 16);
    assert_eq!(storage.storage_in_use(), 16);
    assert_eq!(storage.target(), 225280);
}

#[test]
fn the_target_grows_with_what_is_in_use() {
    let mut storage = StorageAllocator::new();
    storage._prepare_to_mark();
    storage.allocate_storage(40000);
    storage._sweep_garbage();
    assert_eq!(storage.target(), 320000);
    storage._prepare_to_mark();
    storage._sweep_garbage();
    assert_eq!(storage.target(), 320000);
}

#[test]
fn an_unused_bucket_is_taken_into_use_again() {
    let mut storage = StorageAllocator::new();
    storage.allocate_storage(64);
    storage._prepare_to_mark();
    storage._sweep_garbage();
    assert!(storage.is_unused(0));
    assert_eq!(storage.allocate_storage(24), StoragePtr { bucket: 0, offset: 0 });
    assert!(storage.is_in_use(0));
    assert!(!storage.is_unused(0));
    assert_eq!(storage.bucket_count(), 1);
}

#[test]
fn an_unused_bucket_that_is_too_small_is_passed_over() {
    let mut storage = StorageAllocator::new();
    storage.allocate_storage(64);
    storage._prepare_to_mark();
    storage._sweep_garbage();
    let place = storage.allocate_storage(400000);
    assert_eq!(place, StoragePtr { bucket: 1, offset: 0 });
    assert!(storage.is_unused(0));
    assert!(storage.is_in_use(1));
}
