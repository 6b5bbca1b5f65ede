use gateway::pipe::{PipePoll, StrictBuffer};

fn ready_bytes(p: PipePoll<Vec<u8>>) -> Vec<u8> {
    match p {
        PipePoll::Ready(v) => v,
        PipePoll::Pending => panic!("read parked"),
    }
}

fn ready_count(p: PipePoll<usize>) -> usize {
    match p {
        PipePoll::Ready(n) => n,
        PipePoll::Pending => panic!("write parked"),
    }
}

#[test]
fn drained_pipe_takes_a_full_write_again() {
    let mut p: StrictBuffer<u32> = StrictBuffer::new(1024);
    let data = vec![7u8; 1024];
    assert_eq!(ready_count(p.write(&data, 1).0), 1024);
    assert!(matches!(p.write(&data, 2).0, PipePoll::Pending));
    let got = ready_bytes(p.read(1024, 3).0);
    assert_eq!(got.len(), 1024);
    assert_eq!(ready_count(p.write(&data, 4).0), 1024);
}

#[test]
fn bytes_come_out_in_order() {
    let mut p: StrictBuffer<u32> = StrictBuffer::new(8);
    assert_eq!(ready_count(p.write(b"12345", 0).0), 5);
    assert_eq!(ready_bytes(p.read(2, 0).0), b"12".to_vec());
    assert_eq!(ready_count(p.write(b"6789", 0).0), 3);
    assert_eq!(ready_bytes(p.read(100, 0).0), b"345678".to_vec());
    assert_eq!(ready_count(p.write(b"9", 0).0), 1);
    assert_eq!(ready_bytes(p.read(100, 0).0), b"9".to_vec());
}

#[test]
fn write_never_exceeds_capacity() {
    let mut p: StrictBuffer<u32> = StrictBuffer::new(4);
    assert_eq!(ready_count(p.write(b"abcdef", 0).0), 4);
    assert!(matches!(p.write(b"g", 0).0, PipePoll::Pending));
}

#[test]
fn reader_parks_and_is_woken_by_a_write() {
    let mut p: StrictBuffer<u32> = StrictBuffer::new(4);
    let (r, woken) = p.read(4, 11);
    assert!(matches!(r, PipePoll::Pending));
    assert_eq!(woken, None);
    let (_, woken) = p.write(b"x", 12);
    assert_eq!(woken, Some(11));
}

#[test]
fn dropped_writer_ends_the_stream_after_the_data() {
    let mut p: StrictBuffer<u32> = StrictBuffer::new(16);
    assert_eq!(ready_count(p.write(b"partial", 0).0), 7);
    p.drop_writer();
    assert_eq!(ready_bytes(p.read(16, 0).0), b"partial".to_vec());
    assert_eq!(ready_bytes(p.read(16, 0).0), Vec::<u8>::new());
}

#[test]
fn shut_pipe_reports_zero_written() {
    let mut p: StrictBuffer<u32> = StrictBuffer::new(16);
    p.shutdown();
    assert_eq!(ready_count(p.write(b"late", 0).0), 0);
    assert_eq!(ready_bytes(p.read(16, 0).0), Vec::<u8>::new());
}
