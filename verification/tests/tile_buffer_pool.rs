use screen_streamer::tile_buffer_pool::{keeps_buffer, TileBufferPool};

#[test]
fn test_pool_basic() {
    let mut pool = TileBufferPool::new(1024, 5);
    assert_eq!(pool.available_buffers(), 5);

    // Get a buffer
    let buf1 = pool.get();
    assert_eq!(buf1.len(), 1024);
    assert_eq!(pool.available_buffers(), 4);

    // Return it
    pool.return_buffer(buf1);
    assert_eq!(pool.available_buffers(), 5);
}

#[test]
fn test_pool_empty() {
    let mut pool = TileBufferPool::new(512, 0);
    assert_eq!(pool.available_buffers(), 0);

    // Should allocate new buffer when pool is empty
    let buf = pool.get();
    assert_eq!(buf.len(), 512);
    assert_eq!(pool.available_buffers(), 0);
}

#[test]
fn test_pool_reuse() {
    let mut pool = TileBufferPool::new(2048, 2);

    let buf1 = pool.get();
    let buf2 = pool.get();
    assert_eq!(pool.available_buffers(), 0);

    pool.return_buffer(buf1);
    pool.return_buffer(buf2);
    assert_eq!(pool.available_buffers(), 2);

    // Should reuse returned buffers
    let buf3 = pool.get();
    assert_eq!(buf3.len(), 2048);
    assert_eq!(pool.available_buffers(), 1);
}

#[test]
fn small_buffers_are_not_taken_back() {
    let mut pool = TileBufferPool::new(1024, 1);
    let _held = pool.get();
    pool.return_buffer(Vec::with_capacity(16));
    assert_eq!(pool.available_buffers(), 0);
    assert!(keeps_buffer(1024, 1024));
    assert!(!keeps_buffer(16, 1024));
}

#[test]
fn the_capacity_decides_whether_a_buffer_is_taken_back() {
    let mut pool = TileBufferPool::new(1024, 0);
    for (capacity, kept) in [(0, 0), (1023, 0), (1024, 1), (2047, 2), (2048, 2)] {
        pool.take_back(vec![7; 4], capacity);
        assert_eq!(pool.available_buffers(), kept, "capacity {capacity}");
    }
    assert_eq!(pool.get(), vec![0; 1024]);
    assert_eq!(pool.available_buffers(), 1);
    pool.return_buffer(vec![0; 2048]);
    assert_eq!(pool.available_buffers(), 1);
}
