use kv::pb::{CommandRequest, CommandResponse, Kvpair, Value};
use kv::service::dispatch;
use kv::storage::MemTable;

fn assert_res_ok(res: CommandResponse, values: &[Value], pairs: &[Kvpair]) {
    assert_eq!(res.status, 200);
    assert_eq!(res.message, "");
    assert_eq!(res.values, values);
    assert_eq!(res.pairs, pairs);
}

fn assert_res_error(res: CommandResponse, code: u32, msg: &str) {
    assert_eq!(res.status, code);
    assert!(res.message.contains(msg));
    assert_eq!(res.values, &[]);
    assert_eq!(res.pairs, &[]);
}

fn set_key_pairs(table: &str, pairs: Vec<(&str, Value)>, store: &mut MemTable) {
    for (k, v) in pairs {
        dispatch(CommandRequest::new_hset(table, k, v), store);
    }
}

#[test]
fn hdel_should_work() {
    let mut store = MemTable::new();
    let cmd = CommandRequest::new_hset("score", "u1", 10.into());
    dispatch(cmd, &mut store);
    let cmd = CommandRequest::new_hget("score", "u1");
    let res = dispatch(cmd, &mut store);
    assert_res_ok(res, &[10.into()], &[]);
    let cmd = CommandRequest::new_hdel("score", "u1");
    let res = dispatch(cmd, &mut store);
    assert_res_ok(res, &[10.into()], &[]);
    let cmd = CommandRequest::new_hget("score", "u1");
    let res = dispatch(cmd, &mut store);
    assert_res_error(res, 404, "Not found");
}

#[test]
fn hexist_should_work() {
    let mut store = MemTable::new();
    let cmd = CommandRequest::new_hexist("score", "u1");
    let res = dispatch(cmd, &mut store);
    assert_res_ok(res, &[false.into()], &[]);
    let cmd = CommandRequest::new_hset("score", "u1", 10.into());
    dispatch(cmd, &mut store);
    let cmd = CommandRequest::new_hexist("score", "u1");
    let res = dispatch(cmd, &mut store);
    assert_res_ok(res, &[true.into()], &[]);
}

#[test]
fn hmexist_should_work() {
    let mut store = MemTable::new();
    set_key_pairs("t1", vec![("u1", 10.into()), ("u2", 20.into())], &mut store);
    let cmd = CommandRequest::new_hmexist("t1", vec!["u2".into(), "u3".into()]);
    let res = dispatch(cmd, &mut store);
    assert_res_ok(res, &[true.into(), false.into()], &[]);
}

#[test]
fn hset_should_work() {
    let mut store = MemTable::new();
    let cmd = CommandRequest::new_hset("t1", "hello", Value::from_text("world"));
    let res = dispatch(cmd.clone(), &mut store);
    assert_res_ok(res, &[Value::default()], &[]);
    let res = dispatch(cmd, &mut store);
    assert_res_ok(res, &[Value::from_text("world")], &[]);
}

#[test]
fn hmset_should_work() {
    let mut store = MemTable::new();
    set_key_pairs("t1", vec![("u1", Value::from_text("world"))], &mut store);
    let cmd = CommandRequest::new_hmset("t1", vec![("u1", 10.into()), ("u2", 20.into())]);
    let res = dispatch(cmd, &mut store);
    assert_res_ok(res, &[Value::from_text("world"), Value::default()], &[]);
}

#[test]
fn hget_should_work() {
    let mut store = MemTable::new();
    let cmd = CommandRequest::new_hset("score", "u1", 10.into());
    dispatch(cmd, &mut store);
    let cmd = CommandRequest::new_hget("score", "u1");
    let res = dispatch(cmd, &mut store);
    assert_res_ok(res, &[10.into()], &[]);
}

#[test]
fn hmget_should_work() {
    let mut store = MemTable::new();
    set_key_pairs("score", vec![("u1", 10.into()), ("u2", 20.into())], &mut store);
    let cmd = CommandRequest::new_hmget("score", vec!["u2".into(), "u3".into()]);
    let res = dispatch(cmd, &mut store);
    assert_res_ok(res, &[20.into(), Value::default()], &[]);
}

#[test]
fn hmdel_should_work() {
    let mut store = MemTable::new();
    set_key_pairs("score", vec![("u1", 10.into()), ("u2", 20.into()), ("u3", 30.into())], &mut store);
    let cmd = CommandRequest::new_hmdel("score", vec!["u2".into(), "u3".into()]);
    let res = dispatch(cmd, &mut store);
    assert_res_ok(res, &[20.into(), 30.into()], &[]);
}

#[test]
fn hget_with_non_exist_key_should_return_404() {
    let mut store = MemTable::new();
    let cmd = CommandRequest::new_hget("score", "u1");
    let res = dispatch(cmd, &mut store);
    assert_res_error(res, 404, "Not found");
}

#[test]
fn hgetall_should_work() {
    let mut store = MemTable::new();
    let cmds = vec![
        CommandRequest::new_hset("score", "u1", 10.into()),
        CommandRequest::new_hset("score", "u2", 8.into()),
        CommandRequest::new_hset("score", "u3", 11.into()),
        CommandRequest::new_hset("score", "u1", 6.into()),
    ];
    for cmd in cmds {
        dispatch(cmd, &mut store);
    }
    let cmd = CommandRequest::new_hgetall("score");
    let res = dispatch(cmd, &mut store);
    let pairs = &[
        Kvpair::new("u1", 6.into()),
        Kvpair::new("u2", 8.into()),
        Kvpair::new("u3", 11.into()),
    ];
    assert_res_ok(res, &[], pairs);
}

#[test]
fn empty_request_is_bad_request() {
    let mut store = MemTable::new();
    let res = dispatch(CommandRequest { request_data: None }, &mut store);
    assert_res_error(res, 400, "Invalid command");
}

#[test]
fn hgetall_of_missing_table_is_empty() {
    let mut store = MemTable::new();
    let res = dispatch(CommandRequest::new_hgetall("nothing"), &mut store);
    assert_res_ok(res, &[], &[]);
}

#[test]
fn hdel_missing_key_is_not_found_with_names() {
    let mut store = MemTable::new();
    let res = dispatch(CommandRequest::new_hdel("score", "u1"), &mut store);
    assert_eq!(res.message, "Not found for table: score, key: u1");
    assert_res_error(res, 404, "Not found");
}

#[test]
fn hmget_keeps_key_order_and_missing_slots() {
    let mut store = MemTable::new();
    set_key_pairs("t1", vec![("u1", 10.into()), ("u2", 20.into())], &mut store);
    let cmd = CommandRequest::new_hmget("t1", vec!["u3".into(), "u2".into(), "u1".into()]);
    let res = dispatch(cmd, &mut store);
    assert_res_ok(res, &[Value::default(), 20.into(), 10.into()], &[]);
}

#[test]
fn hmdel_repeated_key_gives_sentinel_second_time() {
    let mut store = MemTable::new();
    set_key_pairs("t1", vec![("u1", 10.into())], &mut store);
    let cmd = CommandRequest::new_hmdel("t1", vec!["u1".into(), "u1".into()]);
    let res = dispatch(cmd, &mut store);
    assert_res_ok(res, &[10.into(), Value::default()], &[]);
}

#[test]
fn tables_are_independent() {
    let mut store = MemTable::new();
    dispatch(CommandRequest::new_hset("a", "k", 1.into()), &mut store);
    dispatch(CommandRequest::new_hset("b", "k", 2.into()), &mut store);
    let res = dispatch(CommandRequest::new_hget("a", "k"), &mut store);
    assert_res_ok(res, &[1.into()], &[]);
    let res = dispatch(CommandRequest::new_hget("b", "k"), &mut store);
    assert_res_ok(res, &[2.into()], &[]);
}

#[test]
fn binary_and_bool_values_round_trip_through_store() {
    let mut store = MemTable::new();
    dispatch(CommandRequest::new_hset("t", "bin", Value::from_bytes(&[1, 2, 3])), &mut store);
    dispatch(CommandRequest::new_hset("t", "flag", true.into()), &mut store);
    let res = dispatch(CommandRequest::new_hmget("t", vec!["bin".into(), "flag".into()]), &mut store);
    assert_res_ok(res, &[Value::from_bytes(&[1, 2, 3]), true.into()], &[]);
}

#[test]
fn batch_read_with_missing_key_succeeds() {
    let mut store = MemTable::new();
    set_key_pairs("t1", vec![("u1", 10.into()), ("u2", 20.into())], &mut store);
    let cmd = CommandRequest::new_hmget("t1", vec!["u2".into(), "u3".into()]);
    let res = dispatch(cmd, &mut store);
    assert_res_ok(res, &[20.into(), Value::default()], &[]);
}
