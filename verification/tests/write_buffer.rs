use iobuf::{ErrorKind, IOError, ScriptedSink, WriteBuffer};

#[test]
fn never_blocking_transport_leaves_no_backlog() {
    // the transport accepts everything offered: every byte arrives in
    // order and the backlog stays empty
    let mut sink = ScriptedSink::new(vec![]);
    let mut wb = WriteBuffer::new(4);
    assert!(wb.must_write(&mut sink, &[1, 2, 3]).is_ok());
    assert_eq!(wb.buffered(), 0);
    assert!(wb.must_write(&mut sink, &[4]).is_ok());
    assert!(wb.must_write(&mut sink, &[5, 6]).is_ok());
    assert_eq!(wb.buffered(), 0);
    assert_eq!(sink.taken_bytes().as_slice(), &[1, 2, 3, 4, 5, 6]);
}

#[test]
fn partial_write_retains_exactly_the_suffix() {
    // the transport accepts 2 bytes and then blocks: must_write succeeds,
    // the 4 unaccepted bytes stay buffered, a later flush drains them
    let mut sink = ScriptedSink::new(vec![Ok(2), Err(ErrorKind::WouldBlock)]);
    let mut wb = WriteBuffer::new(4);
    assert!(wb.must_write(&mut sink, &[1, 2, 3, 4, 5, 6]).is_ok());
    assert_eq!(sink.taken_bytes().as_slice(), &[1, 2]);
    assert_eq!(wb.buffered(), 4);
    assert!(wb.flush_buffer(&mut sink).is_ok());
    assert_eq!(wb.buffered(), 0);
    assert_eq!(sink.taken_bytes().as_slice(), &[1, 2, 3, 4, 5, 6]);
}

#[test]
fn scenario_two_bytes_then_block() {
    let mut sink = ScriptedSink::new(vec![Ok(2), Err(ErrorKind::WouldBlock)]);
    let mut wb = WriteBuffer::new(4);
    let r = wb.must_write(&mut sink, &[1, 2, 3, 4, 5, 6]);
    assert!(r.is_ok());
    assert_eq!(sink.taken_bytes().as_slice(), &[1, 2]);
    assert_eq!(wb.buffered(), 4);
    // the 2-byte write just happened, so the idle time is fresh
    assert!(wb.idle_duration().as_secs() < 5);
}

#[test]
fn blocked_write_buffers_everything() {
    let mut sink = ScriptedSink::new(vec![Err(ErrorKind::WouldBlock)]);
    let mut wb = WriteBuffer::new(4);
    assert!(wb.must_write(&mut sink, &[1, 2, 3]).is_ok());
    assert_eq!(wb.buffered(), 3);
    assert_eq!(sink.taken_bytes().as_slice(), &[] as &[u8]);
    assert!(wb.flush_buffer(&mut sink).is_ok());
    assert_eq!(sink.taken_bytes().as_slice(), &[1, 2, 3]);
}

#[test]
fn not_connected_is_treated_as_transient() {
    let mut sink = ScriptedSink::new(vec![Err(ErrorKind::NotConnected)]);
    let mut wb = WriteBuffer::new(4);
    assert!(wb.must_write(&mut sink, &[7, 8]).is_ok());
    assert_eq!(wb.buffered(), 2);
}

#[test]
fn zero_byte_acceptance_is_treated_as_a_block() {
    let mut sink = ScriptedSink::new(vec![Ok(0)]);
    let mut wb = WriteBuffer::new(4);
    assert!(wb.must_write(&mut sink, &[1, 2]).is_ok());
    assert_eq!(wb.buffered(), 2);
}

#[test]
fn broken_pipe_is_fatal_eof() {
    let mut sink = ScriptedSink::new(vec![Err(ErrorKind::BrokenPipe)]);
    let mut wb = WriteBuffer::new(4);
    let r = wb.must_write(&mut sink, &[1, 2]);
    assert_eq!(r, Err(IOError::EOF { temporary: false }));
    // fatal errors propagate without buffering the new data
    assert_eq!(wb.buffered(), 0);
}

#[test]
fn unknown_errors_propagate_opaquely() {
    let mut sink = ScriptedSink::new(vec![Err(ErrorKind::Other)]);
    let mut wb = WriteBuffer::new(4);
    let r = wb.must_write(&mut sink, &[1]);
    assert_eq!(r, Err(IOError::Other(ErrorKind::Other)));
}

#[test]
fn write_reports_the_block_but_retains_the_data() {
    let mut sink = ScriptedSink::new(vec![Err(ErrorKind::WouldBlock)]);
    let mut wb = WriteBuffer::new(4);
    let r = wb.write(&mut sink, &[5, 6, 7]);
    assert_eq!(r, Err(IOError::WouldBlock));
    assert_eq!(wb.buffered(), 3);
    assert!(wb.flush_buffer(&mut sink).is_ok());
    assert_eq!(sink.taken_bytes().as_slice(), &[5, 6, 7]);
    assert_eq!(wb.buffered(), 0);
}

#[test]
fn write_succeeds_when_the_transport_accepts() {
    let mut sink = ScriptedSink::new(vec![]);
    let mut wb = WriteBuffer::new(4);
    assert!(wb.write(&mut sink, &[1, 2]).is_ok());
    assert_eq!(sink.taken_bytes().as_slice(), &[1, 2]);
    assert_eq!(wb.buffered(), 0);
}

#[test]
fn backlog_spans_segments_and_drains_in_order() {
    // per-segment capacity 2; three blocked writes pile up in order
    let mut sink = ScriptedSink::new(vec![
        Err(ErrorKind::WouldBlock),
        Err(ErrorKind::WouldBlock),
        Err(ErrorKind::WouldBlock),
    ]);
    let mut wb = WriteBuffer::new(2);
    assert!(wb.must_write(&mut sink, &[1, 2, 3]).is_ok());
    assert!(wb.must_write(&mut sink, &[4]).is_ok());
    assert!(wb.must_write(&mut sink, &[5, 6]).is_ok());
    assert_eq!(wb.buffered(), 6);
    assert!(wb.flush_buffer(&mut sink).is_ok());
    assert_eq!(sink.taken_bytes().as_slice(), &[1, 2, 3, 4, 5, 6]);
    assert_eq!(wb.buffered(), 0);
}

#[test]
fn flush_reports_would_block_and_keeps_the_rest() {
    let mut sink = ScriptedSink::new(vec![
        Err(ErrorKind::WouldBlock),
        Ok(1),
        Err(ErrorKind::WouldBlock),
    ]);
    let mut wb = WriteBuffer::new(4);
    assert!(wb.must_write(&mut sink, &[1, 2, 3]).is_ok());
    assert_eq!(wb.buffered(), 3);
    let r = wb.flush_buffer(&mut sink);
    assert_eq!(r, Err(IOError::WouldBlock));
    assert_eq!(sink.taken_bytes().as_slice(), &[1]);
    assert_eq!(wb.buffered(), 2);
    assert!(wb.flush_buffer(&mut sink).is_ok());
    assert_eq!(sink.taken_bytes().as_slice(), &[1, 2, 3]);
}

#[test]
fn flush_of_an_empty_writer_succeeds() {
    let mut sink = ScriptedSink::new(vec![]);
    let mut wb = WriteBuffer::new(4);
    assert!(wb.flush_buffer(&mut sink).is_ok());
    assert_eq!(wb.buffered(), 0);
    assert_eq!(sink.taken_bytes().as_slice(), &[] as &[u8]);
}

#[test]
fn error_kinds_classify_three_ways() {
    assert_eq!(IOError::from_kind(ErrorKind::WouldBlock), IOError::WouldBlock);
    assert_eq!(
        IOError::from_kind(ErrorKind::UnexpectedEof),
        IOError::EOF { temporary: false }
    );
    assert_eq!(
        IOError::from_kind(ErrorKind::BrokenPipe),
        IOError::EOF { temporary: false }
    );
    assert_eq!(
        IOError::from_kind(ErrorKind::ConnectionAborted),
        IOError::EOF { temporary: false }
    );
    assert_eq!(
        IOError::from_kind(ErrorKind::NotConnected),
        IOError::Other(ErrorKind::NotConnected)
    );
    assert_eq!(
        IOError::from_kind(ErrorKind::Other),
        IOError::Other(ErrorKind::Other)
    );
}

#[test]
fn oversized_write_fits_one_segment() {
    // a single write larger than the configured capacity is kept whole
    let mut sink = ScriptedSink::new(vec![Err(ErrorKind::WouldBlock)]);
    let mut wb = WriteBuffer::new(2);
    assert!(wb.must_write(&mut sink, &[1, 2, 3, 4, 5]).is_ok());
    assert_eq!(wb.buffered(), 5);
    assert!(wb.flush_buffer(&mut sink).is_ok());
    assert_eq!(sink.taken_bytes().as_slice(), &[1, 2, 3, 4, 5]);
}
