use kv::frame::{decode_frame, encode_frame, COMPRESSION_LIMIT, MAX_FRAME};
use kv::stream::ProstStream;
use kv::KvError;

fn payload(n: usize) -> Vec<u8> {
    (0..n).map(|i| (i % 7) as u8).collect()
}

#[test]
fn small_frame_is_plain_with_big_endian_length() {
    let mut out = Vec::new();
    encode_frame(b"hello", &mut out).unwrap();
    assert_eq!(out, vec![0, 0, 0, 5, b'h', b'e', b'l', b'l', b'o']);
    let (p, n) = decode_frame(&out).unwrap().unwrap();
    assert_eq!(p, b"hello".to_vec());
    assert_eq!(n, 9);
}

#[test]
fn frame_just_below_threshold_is_plain() {
    let p = payload(COMPRESSION_LIMIT - 1);
    let mut out = Vec::new();
    encode_frame(&p, &mut out).unwrap();
    assert_eq!(out.len(), 4 + p.len());
    assert_eq!(out[0] & 0x80, 0);
    assert_eq!(decode_frame(&out).unwrap().unwrap().0, p);
}

#[test]
fn frame_at_threshold_is_compressed_and_round_trips() {
    let p = payload(COMPRESSION_LIMIT);
    let mut out = Vec::new();
    encode_frame(&p, &mut out).unwrap();
    assert_eq!(out[0] & 0x80, 0x80);
    assert!(out.len() < 4 + p.len());
    let (q, n) = decode_frame(&out).unwrap().unwrap();
    assert_eq!(q, p);
    assert_eq!(n, out.len());
}

#[test]
fn large_frame_round_trips() {
    let p = payload(100_000);
    let mut out = Vec::new();
    encode_frame(&p, &mut out).unwrap();
    assert_eq!(decode_frame(&out).unwrap().unwrap().0, p);
}

#[test]
fn oversized_payload_is_refused_on_encode() {
    let p = vec![0u8; MAX_FRAME + 1];
    let mut out = vec![9u8];
    assert_eq!(encode_frame(&p, &mut out), Err(KvError::FrameTooLarge));
    assert_eq!(out, vec![9u8]);
}

#[test]
fn oversized_header_is_refused_on_decode() {
    let header = [0x01u8, 0x00, 0x00, 0x01];
    assert_eq!(decode_frame(&header), Err(KvError::FrameTooLarge));
}

#[test]
fn short_buffer_is_incomplete_not_corrupt() {
    assert_eq!(decode_frame(&[0, 0]), Ok(None));
    assert_eq!(decode_frame(&[0, 0, 0, 5, 1, 2]), Ok(None));
}

#[test]
fn bad_compressed_body_is_corrupt() {
    let buf = [0x80u8, 0, 0, 3, 1, 2, 3];
    assert!(matches!(decode_frame(&buf), Err(KvError::FrameCorrupt(_))));
}

#[test]
fn one_byte_at_a_time_gives_same_message() {
    let p = payload(3000);
    let mut frame = Vec::new();
    encode_frame(&p, &mut frame).unwrap();
    let mut s = ProstStream::new(());
    let mut pos = 0;
    loop {
        match s.next_frame().unwrap() {
            Some(got) => {
                assert_eq!(got, p);
                break;
            }
            None => {
                assert!(s.bytes_wanted() > 0);
                s.feed(&frame[pos..pos + 1]);
                pos += 1;
            }
        }
    }
    assert_eq!(pos, frame.len());
    assert_eq!(s.bytes_wanted(), 4);
    assert!(s.finish_read().is_ok());
}

#[test]
fn reader_never_asks_past_the_frame() {
    let mut frame = Vec::new();
    encode_frame(b"abc", &mut frame).unwrap();
    let mut s = ProstStream::new(());
    let mut pos = 0;
    while s.bytes_wanted() > 0 {
        let n = s.bytes_wanted();
        s.feed(&frame[pos..pos + n]);
        pos += n;
    }
    assert_eq!(pos, frame.len());
    assert_eq!(s.next_frame().unwrap(), Some(b"abc".to_vec()));
    assert!(s.finish_read().is_ok());
}

#[test]
fn truncated_input_is_reported() {
    let mut s = ProstStream::new(());
    s.feed(&[0, 0]);
    assert!(matches!(s.finish_read(), Err(KvError::FrameCorrupt(_))));
}

#[test]
fn writer_resumes_partial_writes() {
    let mut s = ProstStream::new(());
    s.start_send(b"hello").unwrap();
    s.start_send(b"world").unwrap();
    let all = s.pending().to_vec();
    assert_eq!(all.len(), 18);
    s.advance(3);
    assert_eq!(s.pending(), &all[3..]);
    assert!(!s.is_flushed());
    s.advance(15);
    assert!(s.is_flushed());
    assert!(s.pending().is_empty());
}

#[test]
fn failed_send_keeps_staged_bytes() {
    let mut s = ProstStream::new(());
    s.start_send(b"ok").unwrap();
    let before = s.pending().to_vec();
    assert_eq!(s.start_send(&vec![0u8; MAX_FRAME + 1]), Err(KvError::FrameTooLarge));
    assert_eq!(s.pending(), &before[..]);
}
