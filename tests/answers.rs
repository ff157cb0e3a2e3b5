use kv::frame::{decode_frame, encode_frame_with, COMPRESSION_LIMIT};
use kv::pb::{Kvpair, Value};
use kv::service::{
    batch_answer, batch_exists_answer, exists_answer, listing_answer, lookup_answer, set_answer,
};
use kv::KvError;

fn disk() -> KvError {
    KvError::StorageInternal("disk on fire".to_string())
}

#[test]
fn lookup_answer_covers_value_missing_and_error() {
    let r = lookup_answer("t".to_string(), "k".to_string(), Ok(Some(3.into())));
    assert_eq!((r.status, r.values), (200, vec![Value::from(3)]));
    let r = lookup_answer("t".to_string(), "k".to_string(), Ok(None));
    assert_eq!(r.status, 404);
    assert_eq!(r.message, "Not found for table: t, key: k");
    let r = lookup_answer("t".to_string(), "k".to_string(), Err(disk()));
    assert_eq!(r.status, 500);
    assert_eq!(r.message, "Internal error: disk on fire");
    assert!(r.values.is_empty());
}

#[test]
fn set_answer_gives_previous_or_sentinel() {
    assert_eq!(set_answer(Ok(None)).values, vec![Value::default()]);
    assert_eq!(set_answer(Ok(Some(true.into()))).values, vec![Value::from(true)]);
    assert_eq!(set_answer(Err(disk())).status, 500);
}

#[test]
fn exists_and_listing_answers() {
    assert_eq!(exists_answer(Ok(false)).values, vec![Value::from(false)]);
    assert_eq!(exists_answer(Err(disk())).status, 500);
    let r = listing_answer(Ok(vec![Kvpair::new("a", 1.into())]));
    assert_eq!(r.status, 200);
    assert_eq!(r.pairs, vec![Kvpair::new("a", 1.into())]);
    assert_eq!(listing_answer(Err(disk())).status, 500);
}

#[test]
fn batch_answer_all_ok_keeps_order_and_sentinels() {
    let r = batch_answer(vec![Ok(Some(20.into())), Ok(None)]);
    assert_eq!(r.status, 200);
    assert_eq!(r.values, vec![Value::from(20), Value::default()]);
}

#[test]
fn batch_answer_first_error_fails_whole_batch() {
    let r = batch_answer(vec![
        Ok(Some(1.into())),
        Err(disk()),
        Err(KvError::StorageInternal("later".to_string())),
    ]);
    assert_eq!(r.status, 500);
    assert_eq!(r.message, "Internal error: disk on fire");
    assert!(r.values.is_empty());
    assert!(r.pairs.is_empty());
}

#[test]
fn batch_answer_empty_is_empty_success() {
    let r = batch_answer(vec![]);
    assert_eq!(r.status, 200);
    assert!(r.values.is_empty());
}

#[test]
fn batch_exists_answer_flags_and_errors() {
    let r = batch_exists_answer(vec![Ok(true), Ok(false)]);
    assert_eq!(r.values, vec![Value::from(true), Value::from(false)]);
    assert_eq!(batch_exists_answer(vec![Ok(true), Err(disk())]).status, 500);
}

#[test]
fn frame_without_compression_result_is_plain() {
    let p = vec![5u8; COMPRESSION_LIMIT];
    let mut out = Vec::new();
    encode_frame_with(&p, None, &mut out).unwrap();
    assert_eq!(out.len(), 4 + p.len());
    assert_eq!(out[0] & 0x80, 0);
    assert_eq!(decode_frame(&out).unwrap().unwrap().0, p);
}
