use relay::handler::chunk_from_read;
use relay::handler::chunk_log;
use relay::handler::handle_read;
use relay::handler::run_session;
use relay::handler::HandlerMode;

#[test]
fn chunk_from_read_takes_the_bytes_that_arrived() {
    let buffer: [u8; 8] = [104, 105, 0, 0, 0, 0, 0, 0];
    assert_eq!(chunk_from_read(&buffer, 2), Some(vec![104, 105]));
    assert_eq!(chunk_from_read(&buffer, 8), Some(buffer.to_vec()));
}

#[test]
fn zero_length_read_is_disconnect_not_empty_chunk() {
    let buffer: [u8; 8] = [1, 2, 3, 4, 5, 6, 7, 8];
    assert_eq!(chunk_from_read(&buffer, 0), None);
    let outcome = handle_read(&None, HandlerMode::Broadcast);
    assert!(outcome.disconnected);
    assert!(outcome.forward.is_none());
    assert!(outcome.log.is_none());
}

#[test]
fn hello_chunk_is_logged_with_raw_bytes_and_decode() {
    let log = chunk_log(&b"hello".to_vec());
    assert_eq!(log.raw, vec![104, 101, 108, 108, 111]);
    assert_eq!(log.decoded, Some("hello".to_string()));
}

#[test]
fn non_utf8_chunk_still_logs_raw_bytes() {
    let log = chunk_log(&vec![0xff, 0xfe, 104]);
    assert_eq!(log.raw, vec![0xff, 0xfe, 104]);
    assert_eq!(log.decoded, None);
}

#[test]
fn broadcast_mode_forwards_the_chunk_verbatim() {
    let outcome = handle_read(&Some(b"ping".to_vec()), HandlerMode::Broadcast);
    assert!(!outcome.disconnected);
    assert_eq!(outcome.forward, Some(b"ping".to_vec()));
    let log = outcome.log.expect("a received chunk is always logged");
    assert_eq!(log.raw, b"ping".to_vec());
    assert_eq!(log.decoded, Some("ping".to_string()));
}

#[test]
fn log_only_mode_never_writes_back() {
    let outcome = handle_read(&Some(b"ping".to_vec()), HandlerMode::LogOnly);
    assert!(!outcome.disconnected);
    assert!(outcome.forward.is_none());
    assert!(outcome.log.is_some());
}

#[test]
fn session_forwards_every_chunk_until_the_stream_closes() {
    let reads = vec![
        Some(b"he".to_vec()),
        Some(b"llo".to_vec()),
        None,
        Some(b"late".to_vec()),
    ];
    let outcome = run_session(&reads, HandlerMode::Broadcast);
    assert!(outcome.disconnected);
    assert_eq!(outcome.forwards, vec![b"he".to_vec(), b"llo".to_vec()]);
    let received: Vec<u8> = outcome.forwards.concat();
    assert_eq!(received, b"hello".to_vec());
}

#[test]
fn log_only_session_forwards_nothing() {
    let reads = vec![Some(b"he".to_vec()), Some(b"llo".to_vec()), None];
    let outcome = run_session(&reads, HandlerMode::LogOnly);
    assert!(outcome.disconnected);
    assert_eq!(outcome.forwards.len(), 0);
}

#[test]
fn session_without_close_stays_connected() {
    let reads = vec![Some(b"a".to_vec())];
    let outcome = run_session(&reads, HandlerMode::Broadcast);
    assert!(!outcome.disconnected);
    assert_eq!(outcome.forwards, vec![b"a".to_vec()]);
}
