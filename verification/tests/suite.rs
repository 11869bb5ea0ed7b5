use respkv::codec::RespDataType;
use respkv::dispatch::{CommandExecutor, Effect, Outcome, Session, State};
use respkv::frame::{find_complete_frame, FrameScan};
use respkv::num::{format_i64, parse_i64, parse_u64};
use respkv::parser::Parser;
use respkv::rdb::Db;
use respkv::repl::ReplicationState;
use respkv::store::{DataStorage, StreamId, Value};

fn bv(s: &str) -> Vec<u8> {
    s.as_bytes().to_vec()
}

fn cmd(parts: &[&str]) -> Vec<Vec<u8>> {
    parts.iter().map(|p| bv(p)).collect()
}

fn run(state: &mut State, sess: &mut Session, parts: &[&str], now: u64) -> Outcome {
    let mut ce = CommandExecutor {};
    let c = cmd(parts);
    ce.execute(&c, state, sess, None, false, 0, now)
}

fn reply_str(o: &Outcome) -> String {
    String::from_utf8(o.reply.clone().expect("a reply was owed")).unwrap()
}

#[test]
fn ping_answers_pong() {
    let mut st = State::new();
    let mut se = Session::new();
    let o = run(&mut st, &mut se, &["PING"], 0);
    assert_eq!(reply_str(&o), "+PONG\r\n");
}

#[test]
fn echo_answers_bulk() {
    let mut st = State::new();
    let mut se = Session::new();
    let o = run(&mut st, &mut se, &["ECHO", "hey"], 0);
    assert_eq!(reply_str(&o), "$3\r\nhey\r\n");
}

#[test]
fn set_px_then_get_lives_then_expires() {
    let mut st = State::new();
    let mut se = Session::new();
    let o = run(&mut st, &mut se, &["SET", "foo", "bar", "PX", "10000"], 0);
    assert_eq!(reply_str(&o), "+OK\r\n");
    let o = run(&mut st, &mut se, &["GET", "foo"], 5000);
    assert_eq!(reply_str(&o), "$3\r\nbar\r\n");
    let o = run(&mut st, &mut se, &["GET", "foo"], 10000);
    assert_eq!(reply_str(&o), "$-1\r\n");
}

#[test]
fn incr_counts_then_rejects_text() {
    let mut st = State::new();
    let mut se = Session::new();
    let o = run(&mut st, &mut se, &["INCR", "c"], 0);
    assert_eq!(reply_str(&o), ":1\r\n");
    let o = run(&mut st, &mut se, &["INCR", "c"], 0);
    assert_eq!(reply_str(&o), ":2\r\n");
    let o = run(&mut st, &mut se, &["SET", "c", "x"], 0);
    assert_eq!(reply_str(&o), "+OK\r\n");
    let o = run(&mut st, &mut se, &["INCR", "c"], 0);
    assert_eq!(reply_str(&o), "-ERR value is not an integer or out of range\r\n");
}

#[test]
fn incr_of_negative_value() {
    let mut st = State::new();
    let mut se = Session::new();
    run(&mut st, &mut se, &["SET", "n", "-3"], 0);
    let o = run(&mut st, &mut se, &["INCR", "n"], 0);
    assert_eq!(reply_str(&o), ":-2\r\n");
}

#[test]
fn xadd_autoseq_and_range() {
    let mut st = State::new();
    let mut se = Session::new();
    let o = run(&mut st, &mut se, &["XADD", "s", "0-1", "a", "1"], 0);
    assert_eq!(reply_str(&o), "$3\r\n0-1\r\n");
    let o = run(&mut st, &mut se, &["XADD", "s", "0-*", "a", "2"], 0);
    assert_eq!(reply_str(&o), "$3\r\n0-2\r\n");
    let o = run(&mut st, &mut se, &["XRANGE", "s", "-", "+"], 0);
    let expected = "*2\r\n\
        *2\r\n$3\r\n0-1\r\n*2\r\n$1\r\na\r\n$1\r\n1\r\n\
        *2\r\n$3\r\n0-2\r\n*2\r\n$1\r\na\r\n$1\r\n2\r\n";
    assert_eq!(reply_str(&o), expected);
}

#[test]
fn xadd_rejects_zero_and_stale_ids() {
    let mut st = State::new();
    let mut se = Session::new();
    let o = run(&mut st, &mut se, &["XADD", "s", "0-0", "a", "1"], 0);
    assert_eq!(reply_str(&o), "-ERR The ID specified in XADD must be greater than 0-0\r\n");
    run(&mut st, &mut se, &["XADD", "s", "5-1", "a", "1"], 0);
    let o = run(&mut st, &mut se, &["XADD", "s", "5-1", "a", "2"], 0);
    assert_eq!(
        reply_str(&o),
        "-ERR The ID specified in XADD is equal or smaller than the target stream top item\r\n"
    );
}

#[test]
fn xadd_wall_clock_stays_monotonic() {
    let mut st = State::new();
    let mut se = Session::new();
    let o = run(&mut st, &mut se, &["XADD", "s", "*", "a", "1"], 100);
    assert_eq!(reply_str(&o), "$5\r\n100-0\r\n");
    let o = run(&mut st, &mut se, &["XADD", "s", "*", "a", "2"], 90);
    assert_eq!(reply_str(&o), "$5\r\n100-1\r\n");
}

#[test]
fn rpush_then_lrange_with_negatives() {
    let mut st = State::new();
    let mut se = Session::new();
    let o = run(&mut st, &mut se, &["RPUSH", "L", "a", "b", "c", "d"], 0);
    assert_eq!(reply_str(&o), ":4\r\n");
    let o = run(&mut st, &mut se, &["LRANGE", "L", "0", "-1"], 0);
    assert_eq!(reply_str(&o), "*4\r\n$1\r\na\r\n$1\r\nb\r\n$1\r\nc\r\n$1\r\nd\r\n");
    let o = run(&mut st, &mut se, &["LRANGE", "L", "-2", "-1"], 0);
    assert_eq!(reply_str(&o), "*2\r\n$1\r\nc\r\n$1\r\nd\r\n");
}

#[test]
fn lpush_reverses_and_llen_counts() {
    let mut st = State::new();
    let mut se = Session::new();
    run(&mut st, &mut se, &["LPUSH", "L", "a", "b"], 0);
    let o = run(&mut st, &mut se, &["LRANGE", "L", "0", "-1"], 0);
    assert_eq!(reply_str(&o), "*2\r\n$1\r\nb\r\n$1\r\na\r\n");
    let o = run(&mut st, &mut se, &["LLEN", "L"], 0);
    assert_eq!(reply_str(&o), ":2\r\n");
}

#[test]
fn lpop_single_and_counted() {
    let mut st = State::new();
    let mut se = Session::new();
    run(&mut st, &mut se, &["RPUSH", "L", "a", "b", "c"], 0);
    let o = run(&mut st, &mut se, &["LPOP", "L"], 0);
    assert_eq!(reply_str(&o), "$1\r\na\r\n");
    let o = run(&mut st, &mut se, &["LPOP", "L", "5"], 0);
    assert_eq!(reply_str(&o), "*2\r\n$1\r\nb\r\n$1\r\nc\r\n");
    let o = run(&mut st, &mut se, &["LPOP", "L"], 0);
    assert_eq!(reply_str(&o), "$-1\r\n");
}

#[test]
fn rpush_on_string_is_wrong_type() {
    let mut st = State::new();
    let mut se = Session::new();
    run(&mut st, &mut se, &["SET", "k", "v"], 0);
    let o = run(&mut st, &mut se, &["RPUSH", "k", "a"], 0);
    assert_eq!(
        reply_str(&o),
        "-WRONGTYPE Operation against a key holding the wrong kind of value\r\n"
    );
}

#[test]
fn type_reports_each_kind_and_expiry() {
    let mut st = State::new();
    let mut se = Session::new();
    let o = run(&mut st, &mut se, &["TYPE", "nothing"], 0);
    assert_eq!(reply_str(&o), "+none\r\n");
    run(&mut st, &mut se, &["SET", "s", "v", "PX", "10"], 0);
    let o = run(&mut st, &mut se, &["TYPE", "s"], 5);
    assert_eq!(reply_str(&o), "+string\r\n");
    let o = run(&mut st, &mut se, &["TYPE", "s"], 20);
    assert_eq!(reply_str(&o), "+none\r\n");
    run(&mut st, &mut se, &["RPUSH", "l", "x"], 0);
    let o = run(&mut st, &mut se, &["TYPE", "l"], 0);
    assert_eq!(reply_str(&o), "+list\r\n");
    run(&mut st, &mut se, &["XADD", "x", "1-1", "f", "v"], 0);
    let o = run(&mut st, &mut se, &["TYPE", "x"], 0);
    assert_eq!(reply_str(&o), "+stream\r\n");
}

#[test]
fn keys_matches_prefix_and_suffix() {
    let mut st = State::new();
    let mut se = Session::new();
    run(&mut st, &mut se, &["SET", "foo", "1"], 0);
    run(&mut st, &mut se, &["SET", "fob", "2"], 0);
    run(&mut st, &mut se, &["SET", "bar", "3"], 0);
    let o = run(&mut st, &mut se, &["KEYS", "fo*"], 0);
    assert_eq!(reply_str(&o), "*2\r\n$3\r\nfoo\r\n$3\r\nfob\r\n");
    let o = run(&mut st, &mut se, &["KEYS", "*r"], 0);
    assert_eq!(reply_str(&o), "*1\r\n$3\r\nbar\r\n");
    let o = run(&mut st, &mut se, &["KEYS", "foo"], 0);
    assert_eq!(reply_str(&o), "*1\r\n$3\r\nfoo\r\n");
}

#[test]
fn multi_queues_then_exec_replies_in_order() {
    let mut st = State::new();
    let mut se = Session::new();
    let o = run(&mut st, &mut se, &["MULTI"], 0);
    assert_eq!(reply_str(&o), "+OK\r\n");
    let o = run(&mut st, &mut se, &["SET", "k", "1"], 0);
    assert_eq!(reply_str(&o), "+QUEUED\r\n");
    let o = run(&mut st, &mut se, &["INCR", "k"], 0);
    assert_eq!(reply_str(&o), "+QUEUED\r\n");
    let o = run(&mut st, &mut se, &["EXEC"], 0);
    assert_eq!(reply_str(&o), "*2\r\n+OK\r\n:2\r\n");
    let o = run(&mut st, &mut se, &["GET", "k"], 0);
    assert_eq!(reply_str(&o), "$1\r\n2\r\n");
}

#[test]
fn exec_and_discard_without_multi_are_errors() {
    let mut st = State::new();
    let mut se = Session::new();
    let o = run(&mut st, &mut se, &["EXEC"], 0);
    assert_eq!(reply_str(&o), "-ERR EXEC without MULTI\r\n");
    let o = run(&mut st, &mut se, &["DISCARD"], 0);
    assert_eq!(reply_str(&o), "-ERR DISCARD without MULTI\r\n");
}

#[test]
fn discard_drops_the_queue() {
    let mut st = State::new();
    let mut se = Session::new();
    run(&mut st, &mut se, &["MULTI"], 0);
    run(&mut st, &mut se, &["SET", "k", "1"], 0);
    let o = run(&mut st, &mut se, &["DISCARD"], 0);
    assert_eq!(reply_str(&o), "+OK\r\n");
    let o = run(&mut st, &mut se, &["GET", "k"], 0);
    assert_eq!(reply_str(&o), "$-1\r\n");
}

#[test]
fn errors_inside_exec_do_not_abort_the_batch() {
    let mut st = State::new();
    let mut se = Session::new();
    run(&mut st, &mut se, &["SET", "t", "x"], 0);
    run(&mut st, &mut se, &["MULTI"], 0);
    run(&mut st, &mut se, &["INCR", "t"], 0);
    run(&mut st, &mut se, &["SET", "u", "9"], 0);
    let o = run(&mut st, &mut se, &["EXEC"], 0);
    assert_eq!(
        reply_str(&o),
        "*2\r\n-ERR value is not an integer or out of range\r\n+OK\r\n"
    );
    let o = run(&mut st, &mut se, &["GET", "u"], 0);
    assert_eq!(reply_str(&o), "$1\r\n9\r\n");
}

#[test]
fn wait_with_nothing_propagated_counts_replicas() {
    let mut st = State::new();
    let mut se = Session::new();
    let o = run(&mut st, &mut se, &["PSYNC", "?", "-1"], 0);
    assert!(matches!(o.effect, Effect::RegisterReplica(0)));
    let o = run(&mut st, &mut se, &["PSYNC", "?", "-1"], 0);
    assert!(matches!(o.effect, Effect::RegisterReplica(1)));
    let o = run(&mut st, &mut se, &["WAIT", "2", "100"], 0);
    assert_eq!(reply_str(&o), ":2\r\n");
}

#[test]
fn psync_reply_carries_fullresync_and_snapshot() {
    let mut st = State::new();
    let mut se = Session::new();
    let o = run(&mut st, &mut se, &["PSYNC", "?", "-1"], 0);
    let bytes = o.reply.unwrap();
    let line = b"+FULLRESYNC 8371b4fb1155b71f4a04d3e1bc3e18c4a990aeeb 0\r\n";
    assert_eq!(&bytes[..line.len()], &line[..]);
    let rest = &bytes[line.len()..];
    assert_eq!(rest[0], b'$');
    // the snapshot decodes from its hex text, so it starts with the magic
    let rdb = respkv::repl::empty_rdb();
    assert_eq!(&rdb[..9], b"REDIS0011");
    assert!(rest.ends_with(&rdb));
}

#[test]
fn set_on_primary_propagates_and_bumps_offset() {
    let mut st = State::new();
    let mut se = Session::new();
    run(&mut st, &mut se, &["PSYNC", "?", "-1"], 0);
    let o = run(&mut st, &mut se, &["SET", "k", "v"], 0);
    let frame = b"*3\r\n$3\r\nSET\r\n$1\r\nk\r\n$1\r\nv\r\n";
    match &o.effect {
        Effect::Propagate(f) => assert_eq!(&f[..], &frame[..]),
        _ => panic!("expected propagation"),
    }
    assert_eq!(st.replication.offset, frame.len() as u64);
    // a failed write is not propagated
    let o = run(&mut st, &mut se, &["INCR", "k"], 0);
    assert!(matches!(o.effect, Effect::Nothing));
    assert_eq!(st.replication.offset, frame.len() as u64);
}

#[test]
fn wait_after_propagation_polls_and_acks_count() {
    let mut st = State::new();
    let mut se = Session::new();
    run(&mut st, &mut se, &["PSYNC", "?", "-1"], 0);
    run(&mut st, &mut se, &["SET", "k", "v"], 0);
    let off = st.replication.offset;
    assert!(off > 0);
    let o = run(&mut st, &mut se, &["WAIT", "1", "100"], 0);
    assert!(o.reply.is_none());
    match &o.effect {
        Effect::Wait(w) => {
            assert_eq!(w.needed, 1);
            assert_eq!(w.timeout_ms, 100);
            assert_eq!(w.getack, vec![0u64]);
        },
        _ => panic!("expected a wait plan"),
    }
    let (c, done) = st.replication.wait_status(1);
    assert_eq!(c, 0);
    assert!(!done);
    // the replica acknowledges over its link
    let mut ce = CommandExecutor {};
    let ack = cmd(&["REPLCONF", "ACK", &off.to_string()]);
    let o = ce.execute(&ack, &mut st, &mut se, Some(0), false, 0, 0);
    assert!(o.reply.is_none());
    let (c, done) = st.replication.wait_status(1);
    assert_eq!(c, 1);
    assert!(done);
}

#[test]
fn replica_link_counts_bytes_and_answers_getack() {
    let mut st = State::new();
    st.config.role = respkv::dispatch::Role::Slave;
    let mut se = Session::new();
    let mut ce = CommandExecutor {};
    // a propagated write arrives: applied, counted, not answered
    let c = cmd(&["SET", "k", "v"]);
    let o = ce.execute(&c, &mut st, &mut se, None, true, 29, 0);
    assert!(o.reply.is_none());
    assert_eq!(st.replication.offset, 29);
    // the probe counts itself before the reply is formed
    let c = cmd(&["REPLCONF", "GETACK", "*"]);
    let o = ce.execute(&c, &mut st, &mut se, None, true, 37, 0);
    assert_eq!(reply_str(&o), "*3\r\n$8\r\nREPLCONF\r\n$3\r\nACK\r\n$2\r\n66\r\n");
    let o = ce.execute(&cmd(&["GET", "k"]), &mut st, &mut se, None, false, 0, 0);
    assert_eq!(reply_str(&o), "$1\r\nv\r\n");
}

#[test]
fn replica_does_not_answer_ping_on_its_link() {
    let mut st = State::new();
    st.config.role = respkv::dispatch::Role::Slave;
    let mut se = Session::new();
    let mut ce = CommandExecutor {};
    let o = ce.execute(&cmd(&["PING"]), &mut st, &mut se, None, true, 14, 0);
    assert!(o.reply.is_none());
    assert_eq!(st.replication.offset, 14);
}

#[test]
fn blpop_pops_or_parks() {
    let mut st = State::new();
    let mut se = Session::new();
    run(&mut st, &mut se, &["RPUSH", "q", "job"], 0);
    let o = run(&mut st, &mut se, &["BLPOP", "q", "0.5"], 0);
    assert_eq!(reply_str(&o), "*2\r\n$1\r\nq\r\n$3\r\njob\r\n");
    let o = run(&mut st, &mut se, &["BLPOP", "q", "0.5"], 0);
    assert!(o.reply.is_none());
    match &o.effect {
        Effect::BlockList(b) => {
            assert_eq!(b.key, bv("q"));
            assert_eq!(b.timeout_ms, 500);
        },
        _ => panic!("expected a parking plan"),
    }
    let o = run(&mut st, &mut se, &["BLPOP", "q", "nonsense"], 0);
    assert_eq!(reply_str(&o), "-ERR timeout is not a float\r\n");
}

#[test]
fn xread_reads_past_the_given_id() {
    let mut st = State::new();
    let mut se = Session::new();
    run(&mut st, &mut se, &["XADD", "s", "1-1", "a", "1"], 0);
    run(&mut st, &mut se, &["XADD", "s", "1-2", "a", "2"], 0);
    let o = run(&mut st, &mut se, &["XREAD", "STREAMS", "s", "1-1"], 0);
    assert_eq!(
        reply_str(&o),
        "*1\r\n*2\r\n$1\r\ns\r\n*1\r\n*2\r\n$3\r\n1-2\r\n*2\r\n$1\r\na\r\n$1\r\n2\r\n"
    );
    let o = run(&mut st, &mut se, &["XREAD", "STREAMS", "s", "1-2"], 0);
    assert_eq!(reply_str(&o), "$-1\r\n");
}

#[test]
fn xread_block_resolves_dollar_then_polls() {
    let mut st = State::new();
    let mut se = Session::new();
    run(&mut st, &mut se, &["XADD", "s", "2-1", "a", "1"], 0);
    let o = run(&mut st, &mut se, &["XREAD", "BLOCK", "100", "STREAMS", "s", "$"], 0);
    assert!(o.reply.is_none());
    let pairs = match o.effect {
        Effect::BlockStreams(b) => {
            assert_eq!(b.timeout_ms, 100);
            assert!(!b.forever);
            assert_eq!(b.pairs.len(), 1);
            assert_eq!(b.pairs[0].0, bv("s"));
            assert_eq!(b.pairs[0].1, StreamId { ms: 2, seq: 1 });
            b.pairs
        },
        _ => panic!("expected a blocking plan"),
    };
    assert!(respkv::dispatch::xread_attempt(&st.store, &pairs).is_none());
    run(&mut st, &mut se, &["XADD", "s", "2-2", "b", "9"], 0);
    let r = respkv::dispatch::xread_attempt(&st.store, &pairs).expect("new entry visible");
    let bytes = r.encode();
    assert_eq!(
        String::from_utf8(bytes).unwrap(),
        "*1\r\n*2\r\n$1\r\ns\r\n*1\r\n*2\r\n$3\r\n2-2\r\n*2\r\n$1\r\nb\r\n$1\r\n9\r\n"
    );
}

#[test]
fn config_get_answers_dir_and_dbfilename() {
    let mut st = State::new();
    st.config.db_dir = Some(bv("/tmp"));
    st.config.db_file_name = Some(bv("dump.rdb"));
    let mut se = Session::new();
    let o = run(&mut st, &mut se, &["CONFIG", "GET", "dir"], 0);
    assert_eq!(reply_str(&o), "*2\r\n$3\r\ndir\r\n$4\r\n/tmp\r\n");
    let o = run(&mut st, &mut se, &["CONFIG", "GET", "dbfilename"], 0);
    assert_eq!(reply_str(&o), "*2\r\n$10\r\ndbfilename\r\n$8\r\ndump.rdb\r\n");
}

#[test]
fn info_names_the_role() {
    let mut st = State::new();
    let mut se = Session::new();
    let o = run(&mut st, &mut se, &["INFO"], 0);
    let s = reply_str(&o);
    assert!(s.contains("role:master"));
    assert!(s.contains("master_repl_offset:0"));
    assert!(s.contains("master_replid:8371b4fb1155b71f4a04d3e1bc3e18c4a990aeeb"));
}

#[test]
fn unknown_command_is_an_error() {
    let mut st = State::new();
    let mut se = Session::new();
    let o = run(&mut st, &mut se, &["FLY"], 0);
    assert_eq!(reply_str(&o), "-ERR unknown command\r\n");
}

#[test]
fn resp_values_reencode_after_decoding() {
    let v = RespDataType::Array(vec![
        RespDataType::BulkString(bv("hello")),
        RespDataType::Integer(-42),
        RespDataType::SimpleString(bv("OK")),
        RespDataType::Nil,
        RespDataType::Array(vec![RespDataType::SimpleError(bv("ERR boom"))]),
    ]);
    let enc = v.encode();
    let (back, used) = RespDataType::decode(&enc, 0).expect("the encoding re-parses");
    assert_eq!(used, enc.len());
    assert_eq!(back.encode(), enc);
    match back {
        RespDataType::Array(items) => {
            assert_eq!(items.len(), 5);
            match &items[1] {
                RespDataType::Integer(i) => assert_eq!(*i, -42),
                _ => panic!("wrong variant"),
            }
        },
        _ => panic!("wrong variant"),
    }
}

#[test]
fn decode_survives_trailing_bytes() {
    let mut enc = RespDataType::BulkString(bv("ab")).encode();
    let n = enc.len();
    enc.extend_from_slice(b"garbage");
    let (back, used) = RespDataType::decode(&enc, 0).unwrap();
    assert_eq!(used, n);
    assert_eq!(back.encode(), RespDataType::BulkString(bv("ab")).encode());
}

#[test]
fn frame_scanner_reports_each_outcome() {
    let full = bv("*2\r\n$4\r\nECHO\r\n$2\r\nhi\r\n");
    match find_complete_frame(&full) {
        FrameScan::Complete(n) => assert_eq!(n, full.len()),
        _ => panic!("expected a complete frame"),
    }
    let partial = bv("*2\r\n$4\r\nEC");
    assert!(matches!(find_complete_frame(&partial), FrameScan::Incomplete));
    let simple = bv("+OK\r\nrest");
    match find_complete_frame(&simple) {
        FrameScan::Complete(n) => assert_eq!(n, 5),
        _ => panic!("expected a complete line"),
    }
    let junk = bv("?what\r\n");
    assert!(matches!(find_complete_frame(&junk), FrameScan::Malformed));
    let badlen = bv("$x\r\nab\r\n");
    assert!(matches!(find_complete_frame(&badlen), FrameScan::Malformed));
}

#[test]
fn parser_collects_bulk_arguments() {
    let mut p = Parser {};
    let args = p.parse(&bv("*2\r\n$4\r\nECHO\r\n$2\r\nhi\r\n")).unwrap();
    assert_eq!(args, vec![bv("ECHO"), bv("hi")]);
    let none = p.parse(&bv("+FULLRESYNC abc 0\r\n")).unwrap();
    assert!(none.is_empty());
    assert!(p.parse(&bv("$9\r\nhi\r\n")).is_none());
}

#[test]
fn parser_helpers_read_lines_and_runs() {
    let mut p = Parser {};
    let buf = bv("abc\r\ndef");
    assert_eq!(p.read_until_next_line(&buf, 0), bv("abc"));
    assert_eq!(p.read_n_characters(&buf, 5, 3), bv("def"));
}

#[test]
fn decimal_parsing_is_exact_at_the_edges() {
    assert_eq!(parse_u64(&bv("18446744073709551615")), Some(u64::MAX));
    assert_eq!(parse_u64(&bv("18446744073709551616")), None);
    assert_eq!(parse_u64(&bv("007")), Some(7));
    assert_eq!(parse_u64(&bv("")), None);
    assert_eq!(parse_u64(&bv("12a")), None);
    assert_eq!(parse_i64(&bv("-9223372036854775808")), Some(i64::MIN));
    assert_eq!(parse_i64(&bv("9223372036854775807")), Some(i64::MAX));
    assert_eq!(parse_i64(&bv("9223372036854775808")), None);
    assert_eq!(format_i64(-5), bv("-5"));
    assert_eq!(format_i64(0), bv("0"));
}

#[test]
fn timeout_seconds_become_milliseconds() {
    assert_eq!(respkv::dispatch::parse_timeout_ms(&bv("0")), Some(0));
    assert_eq!(respkv::dispatch::parse_timeout_ms(&bv("2")), Some(2000));
    assert_eq!(respkv::dispatch::parse_timeout_ms(&bv("0.5")), Some(500));
    assert_eq!(respkv::dispatch::parse_timeout_ms(&bv("1.25")), Some(1250));
    assert_eq!(respkv::dispatch::parse_timeout_ms(&bv("0.1234")), Some(123));
    assert_eq!(respkv::dispatch::parse_timeout_ms(&bv("x")), None);
}

#[test]
fn replication_ledger_keeps_acks_within_offset() {
    let mut r = ReplicationState::new();
    let a = r.add_replica();
    let b = r.add_replica();
    assert_eq!((a, b), (0, 1));
    r.increment_offset(100);
    r.update_replica_ack(a, 100);
    assert_eq!(r.count_acked(100), 1);
    r.remove_replica(b);
    assert_eq!(r.replicas.len(), 1);
    let (c, done) = r.wait_status(1);
    assert_eq!(c, 1);
    assert!(done);
    assert_eq!(r.lagging_replicas(100), Vec::<u64>::new());
}

#[test]
fn store_accessors_see_each_variant() {
    let mut d = DataStorage::new();
    d.set_string(bv("k"), bv("v"), None);
    let got = d.get_string(&bv("k")).unwrap();
    assert_eq!(got.value, bv("v"));
    assert!(got.expiration_timestamp.is_none());
    let v = Value::String(bv("x"));
    assert_eq!(v.get_type(), "string");
    assert_eq!(v.as_string().unwrap(), &bv("x"));
    assert!(v.as_list().is_none());
    assert!(v.as_stream().is_none());
    let mut l = Value::List(vec![bv("a")]);
    assert_eq!(l.get_type(), "list");
    l.as_list_mut().unwrap().push(bv("b"));
    assert_eq!(l.as_list().unwrap().len(), 2);
    let mut s = Value::Stream(vec![]);
    assert_eq!(s.get_type(), "stream");
    assert!(s.as_stream_mut().unwrap().is_empty());
    assert_eq!(d.type_of(&bv("k"), 0), "string");
    assert_eq!(d.type_of(&bv("gone"), 0), "none");
    assert_eq!(d.llen(&bv("k")), 0);
}

#[test]
fn snapshot_loader_reads_plain_and_expiring_strings() {
    let mut b: Vec<u8> = Vec::new();
    b.extend_from_slice(b"REDIS0011");
    b.push(0xFE);
    b.push(0x00); // database index
    b.push(0xFB); // table sizes follow
    b.push(0x02); // keys
    b.push(0x00); // keys with expiry
    // plain string: foo -> bar
    b.push(0x00);
    b.push(3);
    b.extend_from_slice(b"foo");
    b.push(3);
    b.extend_from_slice(b"bar");
    // expiring string: key -> val at 500 ms
    b.push(0xFC);
    b.extend_from_slice(&500u64.to_le_bytes());
    b.push(0x00);
    b.push(3);
    b.extend_from_slice(b"key");
    b.push(3);
    b.extend_from_slice(b"val");
    let recs = Db {}.load(&b).expect("well-formed snapshot");
    assert_eq!(recs.len(), 2);
    assert_eq!(recs[0].key, bv("foo"));
    assert_eq!(recs[0].value, bv("bar"));
    assert!(recs[0].expiry_ms.is_none());
    assert_eq!(recs[1].key, bv("key"));
    assert_eq!(recs[1].value, bv("val"));
    assert_eq!(recs[1].expiry_ms, Some(500));
}

#[test]
fn snapshot_loader_reads_integer_strings_and_rejects_truncation() {
    let mut b: Vec<u8> = Vec::new();
    b.push(0xFE);
    b.push(0x00);
    b.push(0xFB);
    b.push(0x01);
    b.push(0x00);
    b.push(0x00);
    b.push(1);
    b.push(b'n');
    b.push(0xC0); // one-byte integer value
    b.push(42);
    let recs = Db {}.load(&b).unwrap();
    assert_eq!(recs[0].key, bv("n"));
    assert_eq!(recs[0].value, bv("42"));
    let truncated = vec![0xFEu8, 0x00, 0xFB, 0x01];
    assert!(Db {}.load(&truncated).is_err());
    assert!(Db {}.load(&bv("no section mark")).is_err());
}

#[test]
fn sizes_and_strings_decode_by_tag() {
    let mut db = Db {};
    assert_eq!(db.size_encoded_bytes(&vec![0x0A], 0), Some((10, 1, false)));
    assert_eq!(db.size_encoded_bytes(&vec![0x41, 0x02], 0), Some((0x0102, 2, false)));
    assert_eq!(
        db.size_encoded_bytes(&vec![0x80, 0x01, 0x00, 0x00, 0x00], 0),
        Some((1, 5, false))
    );
    assert_eq!(db.size_encoded_bytes(&vec![0xC1, 0x34, 0x12], 0), Some((0x1234, 3, true)));
    assert_eq!(db.size_encoded_bytes(&vec![0xC3], 0), None);
    let s = db.string_encoded(&vec![0x02, b'h', b'i'], 0).unwrap();
    assert_eq!(s, (bv("hi"), 3));
}

#[test]
fn xread_rejects_an_uneven_stream_list() {
    let mut st = State::new();
    let mut se = Session::new();
    let o = run(&mut st, &mut se, &["XREAD", "STREAMS", "a", "b", "0-0"], 0);
    assert_eq!(
        reply_str(&o),
        "-ERR Unbalanced XREAD list of streams: for each stream key an ID or '$' must be specified.\r\n"
    );
}

#[test]
fn xadd_rejects_an_unreadable_id() {
    let mut st = State::new();
    let mut se = Session::new();
    let o = run(&mut st, &mut se, &["XADD", "s", "oops", "a", "1"], 0);
    assert_eq!(
        reply_str(&o),
        "-ERR Invalid stream ID specified as stream command argument\r\n"
    );
}

#[test]
fn set_with_too_few_arguments_is_refused() {
    let mut st = State::new();
    let mut se = Session::new();
    let o = run(&mut st, &mut se, &["SET", "k"], 0);
    assert_eq!(reply_str(&o), "-ERR wrong number of arguments for SET command\r\n");
}

#[test]
fn keys_with_two_stars_uses_the_first_as_wildcard() {
    let mut st = State::new();
    let mut se = Session::new();
    run(&mut st, &mut se, &["SET", "axb*c", "1"], 0);
    run(&mut st, &mut se, &["SET", "ab*c", "2"], 0);
    run(&mut st, &mut se, &["SET", "abc", "3"], 0);
    let o = run(&mut st, &mut se, &["KEYS", "a*b*c"], 0);
    assert_eq!(reply_str(&o), "*2\r\n$5\r\naxb*c\r\n$4\r\nab*c\r\n");
}

#[test]
fn wire_ping_round_trip() {
    let mut st = State::new();
    let mut se = Session::new();
    let mut ce = CommandExecutor {};
    let mut pending = b"*1\r\n$4\r\nPING\r\n".to_vec();
    match ce.feed(&mut pending, &mut st, &mut se, None, false, 0) {
        respkv::dispatch::FeedResult::Dispatched(o) => {
            assert_eq!(o.reply.unwrap(), b"+PONG\r\n".to_vec());
        },
        _ => panic!("expected a dispatched command"),
    }
    assert!(pending.is_empty());
}

#[test]
fn wire_set_px_and_immediate_get() {
    let mut st = State::new();
    let mut se = Session::new();
    let mut ce = CommandExecutor {};
    let mut pending =
        b"*5\r\n$3\r\nSET\r\n$3\r\nfoo\r\n$3\r\nbar\r\n$2\r\nPX\r\n$5\r\n10000\r\n*2\r\n$3\r\nGET\r\n$3\r\nfoo\r\n"
            .to_vec();
    match ce.feed(&mut pending, &mut st, &mut se, None, false, 0) {
        respkv::dispatch::FeedResult::Dispatched(o) => {
            assert_eq!(o.reply.unwrap(), b"+OK\r\n".to_vec());
        },
        _ => panic!("expected a dispatched command"),
    }
    match ce.feed(&mut pending, &mut st, &mut se, None, false, 1) {
        respkv::dispatch::FeedResult::Dispatched(o) => {
            assert_eq!(o.reply.unwrap(), b"$3\r\nbar\r\n".to_vec());
        },
        _ => panic!("expected a dispatched command"),
    }
    assert!(pending.is_empty());
}

#[test]
fn wire_partial_reply_and_junk_frames() {
    let mut st = State::new();
    let mut se = Session::new();
    let mut ce = CommandExecutor {};
    let mut pending = b"+OK\r\n*1\r\n$4\r".to_vec();
    assert!(matches!(
        ce.feed(&mut pending, &mut st, &mut se, None, false, 0),
        respkv::dispatch::FeedResult::Skipped
    ));
    assert!(matches!(
        ce.feed(&mut pending, &mut st, &mut se, None, false, 0),
        respkv::dispatch::FeedResult::NeedMore
    ));
    pending.extend_from_slice(b"\nPING\r\n");
    assert!(matches!(
        ce.feed(&mut pending, &mut st, &mut se, None, false, 0),
        respkv::dispatch::FeedResult::Dispatched(_)
    ));
    let mut junk = b"?boom\r\n".to_vec();
    assert!(matches!(
        ce.feed(&mut junk, &mut st, &mut se, None, false, 0),
        respkv::dispatch::FeedResult::Corrupt
    ));
}

#[test]
fn lrange_with_a_stop_below_the_start_is_empty() {
    let mut st = State::new();
    let mut se = Session::new();
    run(&mut st, &mut se, &["RPUSH", "L", "a", "b"], 0);
    let o = run(&mut st, &mut se, &["LRANGE", "L", "0", "-5"], 0);
    assert_eq!(reply_str(&o), "*0\r\n");
    let o = run(&mut st, &mut se, &["LRANGE", "L", "-5", "-3"], 0);
    assert_eq!(reply_str(&o), "*0\r\n");
    let o = run(&mut st, &mut se, &["LRANGE", "L", "-5", "0"], 0);
    assert_eq!(reply_str(&o), "*1\r\n$1\r\na\r\n");
}

#[test]
fn config_get_of_an_unknown_key_closes_the_connection() {
    let mut st = State::new();
    let mut se = Session::new();
    let o = run(&mut st, &mut se, &["CONFIG", "GET", "maxmemory"], 0);
    assert!(o.reply.is_none());
    assert!(matches!(o.effect, Effect::Close));
}

#[test]
fn rdb_payload_scanner_measures_the_raw_bulk() {
    let mut b = b"$3\r\nXYZ".to_vec();
    match respkv::frame::find_rdb_payload(&b) {
        FrameScan::Complete(n) => assert_eq!(n, 7),
        _ => panic!("expected a complete payload"),
    }
    b.truncate(5);
    assert!(matches!(respkv::frame::find_rdb_payload(&b), FrameScan::Incomplete));
    let junk = b"+OK\r\n".to_vec();
    assert!(matches!(respkv::frame::find_rdb_payload(&junk), FrameScan::Malformed));
}

#[test]
fn encoded_command_arrays_reparse_to_their_arguments() {
    let args: Vec<Vec<u8>> = vec![bv("RPUSH"), bv("L"), bv(""), b"\x00\xffbin".to_vec(), bv("x")];
    let frame = RespDataType::Array(
        args.iter()
            .map(|a| RespDataType::BulkString(a.clone()))
            .collect(),
    )
    .encode();
    let mut p = Parser {};
    assert_eq!(p.parse(&frame).unwrap(), args);
}
