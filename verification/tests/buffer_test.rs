use gossamer::buffer::{Buffer, BufferPool};

fn identity(buf: &Buffer) -> String {
    format!("{:p}", buf.as_str())
}

#[test]
pub fn test_buffer_basic() {
    let mut pool = BufferPool::new(512, 10);
    // No buffers should be allocated to start.
    assert_eq!(pool.size_buffers(), 0);

    let a = pool
        .take()
        .expect("should be able to allocate first buffer");
    let id_a = identity(&a);

    assert_eq!(pool.size_buffers(), 1);
    drop(a);

    let b = pool
        .take()
        .expect("should be able to allocate a buffer again");
    let id_b = identity(&b);

    // Since the first Buffer was dropped, it should have been returned to the pool and the second
    // request should not cause the pool's size to increase.
    assert_eq!(pool.size_buffers(), 1);

    // The two buffers should be the same.
    assert_eq!(id_a, id_b);
}

#[test]
pub fn test_buffer_several() {
    let mut pool = BufferPool::new(512, 10);
    // No buffers should be allocated to start.
    assert_eq!(pool.size_buffers(), 0);

    let a = pool
        .take()
        .expect("should be able to allocate first buffer");
    let id_a = identity(&a);

    let b = pool
        .take()
        .expect("should be able to allocate second buffer");
    let id_b = identity(&b);

    // The pool should now be two buffers large.
    assert_eq!(pool.size_buffers(), 2);

    // And those buffers should be different.
    assert_ne!(id_a, id_b);

    // Return the first buffer to the pool.
    drop(a);

    let c = pool
        .take()
        .expect("should be able to allocate a buffer again");
    let id_c = identity(&c);

    // Since the first Buffer was dropped, it should have been returned to the pool and the second
    // request should not cause the pool's size to increase.
    assert_eq!(pool.size_buffers(), 2);

    // The new buffer should be the same as the buffer that was dropped.
    assert_eq!(id_a, id_c);
}

#[test]
fn pool_refuses_past_its_count() {
    let mut pool = BufferPool::new(16, 2);
    let a = pool.take().expect("first");
    let b = pool.take().expect("second");
    assert!(pool.take().is_err());
    assert_eq!(pool.size_buffers(), 2);
    drop(a);
    let c = pool.take().expect("recycled");
    assert_eq!(pool.size_buffers(), 2);
    drop(b);
    drop(c);
}

#[test]
fn buffer_append_respects_its_size() {
    let mut pool = BufferPool::new(5, 1);
    let mut buf = pool.take().expect("buffer");
    assert!(buf.append("abc").is_ok());
    assert!(buf.append("def").is_err());
    assert_eq!(buf.as_str(), "abc");
    assert!(buf.append("de").is_ok());
    assert_eq!(buf.as_str(), "abcde");
}

#[test]
fn recycled_buffer_comes_back_empty() {
    let mut pool = BufferPool::new(8, 1);
    let mut buf = pool.take().expect("buffer");
    buf.append("hello").unwrap();
    drop(buf);
    let again = pool.take().expect("buffer again");
    assert_eq!(again.as_str(), "");
}

#[test]
fn buffer_changes_in_place_through_mut_str() {
    let mut pool = BufferPool::new(8, 1);
    let mut buf = pool.take().expect("buffer");
    buf.append("abc").unwrap();
    buf.as_mut_str().make_ascii_uppercase();
    assert_eq!(buf.as_str(), "ABC");
}
