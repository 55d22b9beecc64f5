use resp_server::commands::x_commands::{generate_stream_id, parse_stream_id};
use resp_server::commands::{extract_command, CommandContext, CommandExecutor};
use resp_server::config::{ConfigKey, Configuration};
use resp_server::parser::{parse_message, DecodeResult, Type, Value};
use resp_server::storage::{DataContainer, Storage};

fn fresh_context() -> CommandContext {
    CommandContext::new(Storage::new(), Configuration::new())
}

/// Feeds one wire request through decode, dispatch at `now_ms`, and encode.
fn roundtrip(
    executor: &CommandExecutor,
    context: &mut CommandContext,
    request: &[u8],
    now_ms: u64,
) -> Vec<u8> {
    let (value, used) = match parse_message(request) {
        DecodeResult::Done(v, n) => (v, n),
        other => panic!("request did not decode: {:?}", other),
    };
    assert_eq!(used, request.len());
    let (name, args) = extract_command(value).expect("request must be a command array");
    executor.try_exec_at(name, args, context, now_ms).serialize()
}

#[test]
fn ping_replies_pong() {
    let executor = CommandExecutor::new();
    let mut ctx = fresh_context();
    let reply = roundtrip(&executor, &mut ctx, b"*1\r\n$4\r\nPING\r\n", 0);
    assert_eq!(reply, b"+PONG\r\n".to_vec());
}

#[test]
fn set_then_get_round_trip() {
    let executor = CommandExecutor::new();
    let mut ctx = fresh_context();
    let reply = roundtrip(
        &executor,
        &mut ctx,
        b"*3\r\n$3\r\nSET\r\n$3\r\nfoo\r\n$3\r\nbar\r\n",
        0,
    );
    assert_eq!(reply, b"+OK\r\n".to_vec());
    let reply = roundtrip(&executor, &mut ctx, b"*2\r\n$3\r\nGET\r\n$3\r\nfoo\r\n", 1);
    assert_eq!(reply, b"$3\r\nbar\r\n".to_vec());
}

#[test]
fn set_with_px_expires_lazily() {
    let executor = CommandExecutor::new();
    let mut ctx = fresh_context();
    let reply = roundtrip(
        &executor,
        &mut ctx,
        b"*5\r\n$3\r\nSET\r\n$1\r\nk\r\n$1\r\nv\r\n$2\r\nPX\r\n$2\r\n50\r\n",
        1000,
    );
    assert_eq!(reply, b"+OK\r\n".to_vec());
    let live = roundtrip(&executor, &mut ctx, b"*2\r\n$3\r\nGET\r\n$1\r\nk\r\n", 1040);
    assert_eq!(live, b"$1\r\nv\r\n".to_vec());
    let gone = roundtrip(&executor, &mut ctx, b"*2\r\n$3\r\nGET\r\n$1\r\nk\r\n", 1100);
    assert_eq!(gone, b"$-1\r\n".to_vec());
}

#[test]
fn lazy_expiry_removes_from_keys() {
    let mut st = Storage::new();
    st.set(&b"k".to_vec(), Value::BulkString(b"v".to_vec()), Some(1050));
    assert!(st.keys().iter().any(|k| k == &b"k".to_vec()));
    assert_eq!(st.get_at(&b"k".to_vec(), 1100), None);
    assert!(!st.keys().iter().any(|k| k == &b"k".to_vec()));
}

#[test]
fn get_at_keeps_live_values() {
    let mut st = Storage::new();
    st.set(&b"k".to_vec(), Value::BulkString(b"v".to_vec()), Some(1050));
    assert_eq!(
        st.get_at(&b"k".to_vec(), 1049),
        Some(Value::BulkString(b"v".to_vec()))
    );
    let mut st2 = Storage::new();
    st2.set(&b"p".to_vec(), Value::BulkString(b"q".to_vec()), None);
    assert_eq!(
        st2.get_at(&b"p".to_vec(), u64::MAX),
        Some(Value::BulkString(b"q".to_vec()))
    );
}

#[test]
fn xadd_creates_and_rejects_small_ids() {
    let executor = CommandExecutor::new();
    let mut ctx = fresh_context();
    let reply = roundtrip(
        &executor,
        &mut ctx,
        b"*5\r\n$4\r\nXADD\r\n$1\r\ns\r\n$3\r\n1-1\r\n$1\r\na\r\n$1\r\n1\r\n",
        0,
    );
    assert_eq!(reply, b"$3\r\n1-1\r\n".to_vec());
    let reply = roundtrip(
        &executor,
        &mut ctx,
        b"*5\r\n$4\r\nXADD\r\n$1\r\ns\r\n$3\r\n1-1\r\n$1\r\na\r\n$1\r\n2\r\n",
        0,
    );
    assert_eq!(
        reply,
        b"-ERR The ID specified in XADD is equal or smaller than the target stream top item\r\n"
            .to_vec()
    );
    let reply = roundtrip(
        &executor,
        &mut ctx,
        b"*5\r\n$4\r\nXADD\r\n$1\r\ns\r\n$3\r\n0-5\r\n$1\r\na\r\n$1\r\n3\r\n",
        0,
    );
    assert_eq!(
        reply,
        b"-ERR The ID specified in XADD is equal or smaller than the target stream top item\r\n"
            .to_vec()
    );
}

#[test]
fn xadd_rejects_zero_id() {
    let executor = CommandExecutor::new();
    let mut ctx = fresh_context();
    let reply = roundtrip(
        &executor,
        &mut ctx,
        b"*5\r\n$4\r\nXADD\r\n$1\r\ns\r\n$3\r\n0-0\r\n$1\r\na\r\n$1\r\n1\r\n",
        0,
    );
    assert_eq!(
        reply,
        b"-ERR The ID specified in XADD must be greater than 0-0\r\n".to_vec()
    );
    let reply = roundtrip(
        &executor,
        &mut ctx,
        b"*5\r\n$4\r\nXADD\r\n$1\r\ns\r\n$3\r\n1-1\r\n$1\r\na\r\n$1\r\n1\r\n",
        0,
    );
    assert_eq!(reply, b"$3\r\n1-1\r\n".to_vec());
    let reply = roundtrip(
        &executor,
        &mut ctx,
        b"*5\r\n$4\r\nXADD\r\n$1\r\ns\r\n$3\r\n0-0\r\n$1\r\na\r\n$1\r\n1\r\n",
        0,
    );
    assert_eq!(
        reply,
        b"-ERR The ID specified in XADD must be greater than 0-0\r\n".to_vec()
    );
}

#[test]
fn xadd_rejects_malformed_id() {
    let executor = CommandExecutor::new();
    let mut ctx = fresh_context();
    let reply = roundtrip(
        &executor,
        &mut ctx,
        b"*5\r\n$4\r\nXADD\r\n$1\r\ns\r\n$3\r\na-b\r\n$1\r\na\r\n$1\r\n1\r\n",
        0,
    );
    assert_eq!(
        reply,
        b"-The ID must have both values as integers! Example: 1-1\r\n".to_vec()
    );
}

#[test]
fn xadd_wildcard_sequence_numbers() {
    let executor = CommandExecutor::new();
    let mut ctx = fresh_context();
    let reply = roundtrip(
        &executor,
        &mut ctx,
        b"*5\r\n$4\r\nXADD\r\n$1\r\ns\r\n$3\r\n5-*\r\n$1\r\na\r\n$1\r\n1\r\n",
        0,
    );
    assert_eq!(reply, b"$3\r\n5-0\r\n".to_vec());
    let reply = roundtrip(
        &executor,
        &mut ctx,
        b"*5\r\n$4\r\nXADD\r\n$1\r\ns\r\n$3\r\n5-*\r\n$1\r\na\r\n$1\r\n2\r\n",
        0,
    );
    assert_eq!(reply, b"$3\r\n5-1\r\n".to_vec());
    let reply = roundtrip(
        &executor,
        &mut ctx,
        b"*5\r\n$4\r\nXADD\r\n$1\r\nz\r\n$3\r\n0-*\r\n$1\r\na\r\n$1\r\n1\r\n",
        0,
    );
    assert_eq!(reply, b"$3\r\n0-1\r\n".to_vec());
}

#[test]
fn xadd_auto_id_uses_clock() {
    let executor = CommandExecutor::new();
    let mut ctx = fresh_context();
    let reply = roundtrip(
        &executor,
        &mut ctx,
        b"*5\r\n$4\r\nXADD\r\n$1\r\ns\r\n$1\r\n*\r\n$1\r\na\r\n$1\r\n1\r\n",
        1234,
    );
    assert_eq!(reply, b"$6\r\n1234-0\r\n".to_vec());
}

#[test]
fn xadd_odd_arity_is_usage_error() {
    let executor = CommandExecutor::new();
    let mut ctx = fresh_context();
    let reply = roundtrip(
        &executor,
        &mut ctx,
        b"*4\r\n$4\r\nXADD\r\n$1\r\ns\r\n$3\r\n1-1\r\n$1\r\na\r\n",
        0,
    );
    assert_eq!(
        reply,
        b"-Missing arguments! Correct usage XADD <key> <id> [<key>] [<value>]...\r\n".to_vec()
    );
}

#[test]
fn xadd_on_scalar_is_not_a_stream() {
    let executor = CommandExecutor::new();
    let mut ctx = fresh_context();
    roundtrip(&executor, &mut ctx, b"*3\r\n$3\r\nSET\r\n$1\r\ns\r\n$1\r\nv\r\n", 0);
    let reply = roundtrip(
        &executor,
        &mut ctx,
        b"*5\r\n$4\r\nXADD\r\n$1\r\ns\r\n$3\r\n1-1\r\n$1\r\na\r\n$1\r\n1\r\n",
        0,
    );
    assert_eq!(reply, b"-Not a stream!\r\n".to_vec());
}

fn seeded_stream(executor: &CommandExecutor, ctx: &mut CommandContext) {
    for req in [
        b"*5\r\n$4\r\nXADD\r\n$1\r\ns\r\n$3\r\n1-0\r\n$1\r\na\r\n$1\r\n1\r\n".as_slice(),
        b"*5\r\n$4\r\nXADD\r\n$1\r\ns\r\n$3\r\n2-0\r\n$1\r\nb\r\n$1\r\n2\r\n".as_slice(),
        b"*5\r\n$4\r\nXADD\r\n$1\r\ns\r\n$3\r\n3-0\r\n$1\r\nc\r\n$1\r\n3\r\n".as_slice(),
    ] {
        roundtrip(executor, ctx, req, 0);
    }
}

#[test]
fn xrange_returns_inclusive_slice_in_order() {
    let executor = CommandExecutor::new();
    let mut ctx = fresh_context();
    seeded_stream(&executor, &mut ctx);
    let reply = roundtrip(
        &executor,
        &mut ctx,
        b"*4\r\n$6\r\nXRANGE\r\n$1\r\ns\r\n$3\r\n2-0\r\n$3\r\n3-0\r\n",
        0,
    );
    let expected = b"*2\r\n\
        *2\r\n$3\r\n2-0\r\n*2\r\n$1\r\nb\r\n$1\r\n2\r\n\
        *2\r\n$3\r\n3-0\r\n*2\r\n$1\r\nc\r\n$1\r\n3\r\n";
    assert_eq!(reply, expected.to_vec());
}

#[test]
fn xrange_open_bounds_return_everything() {
    let executor = CommandExecutor::new();
    let mut ctx = fresh_context();
    seeded_stream(&executor, &mut ctx);
    let reply = roundtrip(
        &executor,
        &mut ctx,
        b"*4\r\n$6\r\nXRANGE\r\n$1\r\ns\r\n$1\r\n-\r\n$1\r\n+\r\n",
        0,
    );
    let expected = b"*3\r\n\
        *2\r\n$3\r\n1-0\r\n*2\r\n$1\r\na\r\n$1\r\n1\r\n\
        *2\r\n$3\r\n2-0\r\n*2\r\n$1\r\nb\r\n$1\r\n2\r\n\
        *2\r\n$3\r\n3-0\r\n*2\r\n$1\r\nc\r\n$1\r\n3\r\n";
    assert_eq!(reply, expected.to_vec());
}

#[test]
fn xrange_absent_key_is_null() {
    let executor = CommandExecutor::new();
    let mut ctx = fresh_context();
    let reply = roundtrip(
        &executor,
        &mut ctx,
        b"*4\r\n$6\r\nXRANGE\r\n$1\r\nq\r\n$1\r\n-\r\n$1\r\n+\r\n",
        0,
    );
    assert_eq!(reply, b"$-1\r\n".to_vec());
}

#[test]
fn xread_matches_exact_id() {
    let executor = CommandExecutor::new();
    let mut ctx = fresh_context();
    seeded_stream(&executor, &mut ctx);
    let reply = roundtrip(
        &executor,
        &mut ctx,
        b"*4\r\n$5\r\nXREAD\r\n$7\r\nSTREAMS\r\n$1\r\ns\r\n$3\r\n2-0\r\n",
        0,
    );
    assert_eq!(
        reply,
        b"*2\r\n$3\r\n2-0\r\n*2\r\n$1\r\nb\r\n$1\r\n2\r\n".to_vec()
    );
    let reply = roundtrip(
        &executor,
        &mut ctx,
        b"*4\r\n$5\r\nXREAD\r\n$7\r\nstreams\r\n$1\r\ns\r\n$3\r\n9-9\r\n",
        0,
    );
    assert_eq!(reply, b"$-1\r\n".to_vec());
}

#[test]
fn xread_rejects_invalid_type_token() {
    let executor = CommandExecutor::new();
    let mut ctx = fresh_context();
    seeded_stream(&executor, &mut ctx);
    let reply = roundtrip(
        &executor,
        &mut ctx,
        b"*4\r\n$5\r\nXREAD\r\n$4\r\nkeys\r\n$1\r\ns\r\n$3\r\n2-0\r\n",
        0,
    );
    assert_eq!(reply, b"-Invalid type!\r\n".to_vec());
}

#[test]
fn type_reports_string_stream_and_none() {
    let executor = CommandExecutor::new();
    let mut ctx = fresh_context();
    roundtrip(&executor, &mut ctx, b"*3\r\n$3\r\nSET\r\n$1\r\nk\r\n$1\r\nv\r\n", 0);
    roundtrip(
        &executor,
        &mut ctx,
        b"*5\r\n$4\r\nXADD\r\n$1\r\ns\r\n$3\r\n1-1\r\n$1\r\na\r\n$1\r\n1\r\n",
        0,
    );
    let t1 = roundtrip(&executor, &mut ctx, b"*2\r\n$4\r\nTYPE\r\n$1\r\nk\r\n", 0);
    assert_eq!(t1, b"+string\r\n".to_vec());
    let t2 = roundtrip(&executor, &mut ctx, b"*2\r\n$4\r\nTYPE\r\n$1\r\ns\r\n", 0);
    assert_eq!(t2, b"+stream\r\n".to_vec());
    let t3 = roundtrip(&executor, &mut ctx, b"*2\r\n$4\r\nTYPE\r\n$1\r\nz\r\n", 0);
    assert_eq!(t3, b"+none\r\n".to_vec());
}

#[test]
fn type_of_just_expired_key_is_none() {
    let executor = CommandExecutor::new();
    let mut ctx = fresh_context();
    roundtrip(
        &executor,
        &mut ctx,
        b"*5\r\n$3\r\nSET\r\n$1\r\nk\r\n$1\r\nv\r\n$2\r\nPX\r\n$2\r\n50\r\n",
        1000,
    );
    let t = roundtrip(&executor, &mut ctx, b"*2\r\n$4\r\nTYPE\r\n$1\r\nk\r\n", 1100);
    assert_eq!(t, b"+none\r\n".to_vec());
}

#[test]
fn keys_lists_stored_keys() {
    let executor = CommandExecutor::new();
    let mut ctx = fresh_context();
    roundtrip(&executor, &mut ctx, b"*3\r\n$3\r\nSET\r\n$1\r\na\r\n$1\r\n1\r\n", 0);
    roundtrip(&executor, &mut ctx, b"*3\r\n$3\r\nSET\r\n$1\r\nb\r\n$1\r\n2\r\n", 0);
    let reply = roundtrip(&executor, &mut ctx, b"*1\r\n$4\r\nKEYS\r\n", 0);
    let ok_one_order = reply == b"*2\r\n$1\r\na\r\n$1\r\nb\r\n".to_vec();
    let ok_other_order = reply == b"*2\r\n$1\r\nb\r\n$1\r\na\r\n".to_vec();
    assert!(ok_one_order || ok_other_order, "unexpected KEYS reply: {:?}", reply);
}

#[test]
fn echo_returns_argument() {
    let executor = CommandExecutor::new();
    let mut ctx = fresh_context();
    let reply = roundtrip(&executor, &mut ctx, b"*2\r\n$4\r\nECHO\r\n$2\r\nhi\r\n", 0);
    assert_eq!(reply, b"$2\r\nhi\r\n".to_vec());
    let reply = roundtrip(&executor, &mut ctx, b"*1\r\n$4\r\nECHO\r\n", 0);
    assert_eq!(
        reply,
        b"-Missing arguments! Correct usage ECHO <message>\r\n".to_vec()
    );
}

#[test]
fn unknown_command_is_an_error_reply() {
    let executor = CommandExecutor::new();
    let mut ctx = fresh_context();
    let reply = roundtrip(&executor, &mut ctx, b"*1\r\n$5\r\nFLOOP\r\n", 0);
    assert_eq!(reply, b"-unknown command\r\n".to_vec());
}

#[test]
fn command_names_fold_case() {
    let executor = CommandExecutor::new();
    let mut ctx = fresh_context();
    let reply = roundtrip(&executor, &mut ctx, b"*1\r\n$4\r\npInG\r\n", 0);
    assert_eq!(reply, b"+PONG\r\n".to_vec());
}

#[test]
fn config_get_dir_after_flag() {
    let executor = CommandExecutor::new();
    let mut storage_config = Configuration::new();
    storage_config.set(ConfigKey::Dir, &b"/tmp".to_vec());
    let mut ctx = CommandContext::new(Storage::new(), storage_config);
    let reply = roundtrip(
        &executor,
        &mut ctx,
        b"*3\r\n$6\r\nCONFIG\r\n$3\r\nGET\r\n$3\r\ndir\r\n",
        0,
    );
    assert_eq!(reply, b"*2\r\n+dir\r\n+/tmp\r\n".to_vec());
}

#[test]
fn config_defaults_and_dbfilename() {
    let executor = CommandExecutor::new();
    let mut ctx = fresh_context();
    let reply = roundtrip(
        &executor,
        &mut ctx,
        b"*3\r\n$6\r\nCONFIG\r\n$3\r\nGET\r\n$3\r\ndir\r\n",
        0,
    );
    assert_eq!(reply, b"*2\r\n+dir\r\n+DIR\r\n".to_vec());
    let reply = roundtrip(
        &executor,
        &mut ctx,
        b"*3\r\n$6\r\nCONFIG\r\n$3\r\nGET\r\n$10\r\ndbfilename\r\n",
        0,
    );
    assert_eq!(reply, b"+DB_FILENAME\r\n".to_vec());
    let reply = roundtrip(
        &executor,
        &mut ctx,
        b"*3\r\n$6\r\nCONFIG\r\n$3\r\nGET\r\n$4\r\nnope\r\n",
        0,
    );
    assert_eq!(reply, b"-Invalid config get option\r\n".to_vec());
    let reply = roundtrip(
        &executor,
        &mut ctx,
        b"*2\r\n$6\r\nCONFIG\r\n$3\r\nPUT\r\n",
        0,
    );
    assert_eq!(reply, b"-Invalid config sub command\r\n".to_vec());
}

#[test]
fn configuration_set_get_delete() {
    let mut cfg = Configuration::new();
    assert_eq!(cfg.get(ConfigKey::Dir), b"DIR".to_vec());
    assert_eq!(cfg.get(ConfigKey::DbFilename), b"DB_FILENAME".to_vec());
    cfg.set(ConfigKey::Dir, &b"/data".to_vec());
    assert_eq!(cfg.get(ConfigKey::Dir), b"/data".to_vec());
    cfg.delete(ConfigKey::Dir);
    assert_eq!(cfg.get(ConfigKey::Dir), b"DIR".to_vec());
    assert_eq!(ConfigKey::Dir.get_def_value(), b"DIR".to_vec());
    assert_eq!(ConfigKey::DbFilename.get_def_value(), b"DB_FILENAME".to_vec());
}

#[test]
fn storage_remove_and_get_all() {
    let mut st = Storage::new();
    st.set(&b"a".to_vec(), Value::Integer(1), None);
    st.set(&b"b".to_vec(), Value::Integer(2), None);
    let ok = st.remove(&b"a".to_vec());
    assert_eq!(ok.serialize(), b"+OK\r\n".to_vec());
    assert_eq!(st.get_at(&b"a".to_vec(), 0), None);
    assert_eq!(st.get_at(&b"b".to_vec(), 0), Some(Value::Integer(2)));
    let all = st.get_all();
    assert_eq!(all.len(), 1);
    assert_eq!(all[0].0, b"b".to_vec());
}

#[test]
fn storage_get_specific_filters_by_type() {
    let mut st = Storage::new();
    st.set(&b"a".to_vec(), Value::BulkString(b"1".to_vec()), None);
    st.set(
        &b"s".to_vec(),
        Value::Stream(Vec::new()),
        None,
    );
    let texts = st.get_specific(Type::Text);
    assert_eq!(texts.len(), 1);
    assert_eq!(texts[0].get_value(), Value::BulkString(b"1".to_vec()));
    let streams = st.get_specific(Type::Stream);
    assert_eq!(streams.len(), 1);
}

#[test]
fn container_expiry_flags() {
    let c = DataContainer::create(Value::Integer(1), Some(100));
    assert!(!c.is_expired_at(99));
    assert!(c.is_expired_at(100));
    assert!(c.is_expired_at(101));
    let never = DataContainer::create(Value::Integer(1), None);
    assert!(!never.is_expired_at(u64::MAX));
    assert!(!never.is_expired());
    let past = DataContainer::create(Value::Integer(1), Some(0));
    assert!(past.is_expired());
}

#[test]
fn dispatch_with_system_clock_runs() {
    let executor = CommandExecutor::new();
    let mut ctx = fresh_context();
    let (value, _) = match parse_message(b"*3\r\n$3\r\nSET\r\n$1\r\nx\r\n$1\r\ny\r\n") {
        DecodeResult::Done(v, n) => (v, n),
        other => panic!("bad decode {:?}", other),
    };
    let (name, args) = extract_command(value).unwrap();
    let reply = executor.try_exec(name, args, &mut ctx);
    assert_eq!(reply.serialize(), b"+OK\r\n".to_vec());
    let got = ctx.storage.get(&b"x".to_vec());
    assert_eq!(got, Some(Value::BulkString(b"y".to_vec())));
}

#[test]
fn stream_id_parsing() {
    assert_eq!(parse_stream_id(&b"3-7".to_vec()), Some((3, 7)));
    assert_eq!(parse_stream_id(&b"37".to_vec()), None);
    assert_eq!(parse_stream_id(&b"a-7".to_vec()), None);
    assert_eq!(parse_stream_id(&b"3-b".to_vec()), None);
    let no_entries = Vec::new();
    assert_eq!(generate_stream_id(&b"*".to_vec(), &no_entries, 99), Some((99, 0)));
    assert_eq!(generate_stream_id(&b"41".to_vec(), &no_entries, 99), Some((99, 0)));
    assert_eq!(generate_stream_id(&b"5-3".to_vec(), &no_entries, 99), Some((5, 3)));
    assert_eq!(generate_stream_id(&b"5-*".to_vec(), &no_entries, 99), Some((5, 0)));
    assert_eq!(generate_stream_id(&b"0-*".to_vec(), &no_entries, 99), Some((0, 1)));
    assert_eq!(generate_stream_id(&b"x".to_vec(), &no_entries, 99), None);
    assert_eq!(generate_stream_id(&b"5-x".to_vec(), &no_entries, 99), None);
}

#[test]
fn extract_command_shapes() {
    assert!(extract_command(Value::Integer(1)).is_none());
    assert!(extract_command(Value::Array(Vec::new())).is_none());
    let (name, args) = extract_command(Value::Array(vec![
        Value::BulkString(b"GeT".to_vec()),
        Value::BulkString(b"k".to_vec()),
    ]))
    .unwrap();
    assert_eq!(name, b"get".to_vec());
    assert_eq!(args, vec![Value::BulkString(b"k".to_vec())]);
}
