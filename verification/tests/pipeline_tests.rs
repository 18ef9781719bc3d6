use copy_double_buffered::mem::{FaultSink, FaultSource, MemSink, MemSource};
use copy_double_buffered::pipeline::copy_double_buffered;

fn sample(len: usize) -> Vec<u8> {
    let mut v: Vec<u8> = Vec::new();
    for i in 0..len {
        v.push((i % 255) as u8);
    }
    v
}

#[test]
fn copy_reproduces_source_exactly() {
    let data = sample(4096);
    let mut src = MemSource::new(data.clone());
    let mut dst = MemSink::new();
    let mut buf_a = vec![0u8; 64];
    let mut buf_b = vec![0u8; 64];
    let r = copy_double_buffered(&mut src, &mut dst, &mut buf_a, &mut buf_b);
    assert!(r.is_ok());
    assert_eq!(dst.out, data);
    // 4096 bytes over 64-byte chunks: one write per chunk, one read per chunk
    // plus the final read that reports exhaustion.
    assert_eq!(dst.writes, 64);
    assert_eq!(src.reads, 65);
    assert_eq!(buf_a.len(), 64);
    assert_eq!(buf_b.len(), 64);
}

#[test]
fn zero_length_source_writes_nothing() {
    let mut src = MemSource::new(Vec::new());
    let mut dst = MemSink::new();
    let mut buf_a = vec![0u8; 16];
    let mut buf_b = vec![0u8; 16];
    let r = copy_double_buffered(&mut src, &mut dst, &mut buf_a, &mut buf_b);
    assert!(r.is_ok());
    assert_eq!(dst.writes, 0);
    assert!(dst.out.is_empty());
    assert_eq!(src.reads, 1);
}

#[test]
fn short_last_chunk_is_copied() {
    let data = sample(100);
    let mut src = MemSource::new(data.clone());
    let mut dst = MemSink::new();
    let mut buf_a = vec![0u8; 64];
    let mut buf_b = vec![0u8; 64];
    let r = copy_double_buffered(&mut src, &mut dst, &mut buf_a, &mut buf_b);
    assert!(r.is_ok());
    assert_eq!(dst.out, data);
    assert_eq!(dst.writes, 2);
    assert_eq!(src.reads, 3);
}

#[test]
fn uneven_buffers_copy_exactly() {
    let data = sample(41);
    let mut src = MemSource::new(data.clone());
    let mut dst = MemSink::new();
    let mut buf_a = vec![0u8; 5];
    let mut buf_b = vec![0u8; 3];
    let r = copy_double_buffered(&mut src, &mut dst, &mut buf_a, &mut buf_b);
    assert!(r.is_ok());
    assert_eq!(dst.out, data);
}

#[test]
fn single_byte_buffers_terminate() {
    let data = sample(10);
    let mut src = MemSource::new(data.clone());
    let mut dst = MemSink::new();
    let mut buf_a = vec![0u8; 1];
    let mut buf_b = vec![0u8; 1];
    let r = copy_double_buffered(&mut src, &mut dst, &mut buf_a, &mut buf_b);
    assert!(r.is_ok());
    assert_eq!(dst.out, data);
    assert_eq!(dst.writes, 10);
    assert_eq!(src.reads, 11);
}

#[test]
fn read_failure_is_propagated() {
    let data = sample(300);
    let mut src = FaultSource::new(data.clone(), 3, 7);
    let mut dst = MemSink::new();
    let mut buf_a = vec![0u8; 64];
    let mut buf_b = vec![0u8; 64];
    let r = copy_double_buffered(&mut src, &mut dst, &mut buf_a, &mut buf_b);
    assert_eq!(r, Err(7));
    // The read failed on its third call, so at most two writes were issued,
    // and what reached the consumer is the prefix read by the first two calls.
    assert_eq!(dst.writes, 2);
    assert_eq!(dst.out, &data[..128]);
    assert_eq!(src.reads, 3);
}

#[test]
fn failure_on_first_read_writes_nothing() {
    let data = sample(300);
    let mut src = FaultSource::new(data, 1, 5);
    let mut dst = MemSink::new();
    let mut buf_a = vec![0u8; 64];
    let mut buf_b = vec![0u8; 64];
    let r = copy_double_buffered(&mut src, &mut dst, &mut buf_a, &mut buf_b);
    assert_eq!(r, Err(5));
    assert_eq!(dst.writes, 0);
    assert!(dst.out.is_empty());
}

#[test]
fn write_failure_is_propagated() {
    let data = sample(300);
    let mut src = MemSource::new(data.clone());
    let mut dst = FaultSink::new(2, 9);
    let mut buf_a = vec![0u8; 64];
    let mut buf_b = vec![0u8; 64];
    let r = copy_double_buffered(&mut src, &mut dst, &mut buf_a, &mut buf_b);
    assert_eq!(r, Err(9));
    // Only the first write went through.
    assert_eq!(dst.out, &data[..64]);
}

#[test]
fn fault_endpoints_with_zero_index_never_fail() {
    let data = sample(200);
    let mut src = FaultSource::new(data.clone(), 0, 1);
    let mut dst = FaultSink::new(0, 2);
    let mut buf_a = vec![0u8; 32];
    let mut buf_b = vec![0u8; 32];
    let r = copy_double_buffered(&mut src, &mut dst, &mut buf_a, &mut buf_b);
    assert!(r.is_ok());
    assert_eq!(dst.out, data);
}

#[test]
fn read_error_supersedes_write_error_in_one_step() {
    let data = sample(300);
    let mut src = FaultSource::new(data, 3, 7);
    let mut dst = FaultSink::new(2, 9);
    let mut buf_a = vec![0u8; 64];
    let mut buf_b = vec![0u8; 64];
    // The third read and the second write fail in the same pipelined step:
    // the read's error wins.
    let r = copy_double_buffered(&mut src, &mut dst, &mut buf_a, &mut buf_b);
    assert_eq!(r, Err(7));
}
