use verdis::commands::{from_cmd_to_exec, frame_args, CommandOutcome, Ping};
use verdis::db::{Dbconf, RdbFile, RDB_VERSION};
use verdis::rdb::rdb_write;
use verdis::replication::plan_fanout;
use verdis::resp::{resp_decode, Decoded};
use verdis::server::{parse_replicaof, Server, ServerOpt};

fn master_server() -> Server {
    let opt = ServerOpt::new(b"6379".to_vec(), Dbconf::new(), None, true);
    Server::new(RdbFile::new(RDB_VERSION), opt)
}

fn run(server: &mut Server, frame: &[u8], now_ms: u64) -> CommandOutcome {
    let v = match resp_decode(frame) {
        Decoded::Complete(v, consumed) => {
            assert_eq!(consumed, frame.len());
            v
        }
        other => panic!("request frame did not decode: {:?}", other),
    };
    let args = frame_args(v).expect("request frame must be an array of bulk strings");
    from_cmd_to_exec(server, &args, now_ms)
}

fn contains(haystack: &[u8], needle: &[u8]) -> bool {
    haystack.windows(needle.len()).any(|w| w == needle)
}

#[test]
fn ping_answers_pong() {
    let mut s = master_server();
    let out = run(&mut s, b"*1\r\n$4\r\nPING\r\n", 0);
    assert_eq!(out.response, b"+PONG\r\n".to_vec());
}

#[test]
fn ping_struct_answers_pong() {
    assert_eq!(Ping.exec(), b"+PONG\r\n".to_vec());
}

#[test]
fn ping_with_argument_echoes_it() {
    let mut s = master_server();
    let out = run(&mut s, b"*2\r\n$4\r\nPING\r\n$2\r\nhi\r\n", 0);
    assert_eq!(out.response, b"$2\r\nhi\r\n".to_vec());
}

#[test]
fn echo_returns_argument_verbatim() {
    let mut s = master_server();
    let out = run(&mut s, b"*2\r\n$4\r\nECHO\r\n$3\r\nabc\r\n", 0);
    assert_eq!(out.response, b"$3\r\nabc\r\n".to_vec());
}

#[test]
fn set_then_get() {
    let mut s = master_server();
    let out = run(&mut s, b"*3\r\n$3\r\nSET\r\n$5\r\nhello\r\n$5\r\nworld\r\n", 0);
    assert_eq!(out.response, b"+OK\r\n".to_vec());
    let out = run(&mut s, b"*2\r\n$3\r\nGET\r\n$5\r\nhello\r\n", 0);
    assert_eq!(out.response, b"$5\r\nworld\r\n".to_vec());
}

#[test]
fn get_of_missing_key_is_null() {
    let mut s = master_server();
    let out = run(&mut s, b"*2\r\n$3\r\nGET\r\n$4\r\nnope\r\n", 0);
    assert_eq!(out.response, b"$-1\r\n".to_vec());
}

#[test]
fn set_twice_is_as_one() {
    let mut s = master_server();
    run(&mut s, b"*3\r\n$3\r\nSET\r\n$1\r\nk\r\n$1\r\nv\r\n", 0);
    run(&mut s, b"*3\r\n$3\r\nSET\r\n$1\r\nk\r\n$1\r\nv\r\n", 0);
    let out = run(&mut s, b"*2\r\n$3\r\nGET\r\n$1\r\nk\r\n", 0);
    assert_eq!(out.response, b"$1\r\nv\r\n".to_vec());
    assert_eq!(s.storage.dbsize(0), 1);
}

#[test]
fn set_px_expires_lazily() {
    let mut s = master_server();
    let now = 5_000;
    let out = run(
        &mut s,
        b"*5\r\n$3\r\nSET\r\n$1\r\nk\r\n$1\r\nv\r\n$2\r\nPX\r\n$3\r\n100\r\n",
        now,
    );
    assert_eq!(out.response, b"+OK\r\n".to_vec());
    // before the deadline the value is visible
    let out = run(&mut s, b"*2\r\n$3\r\nGET\r\n$1\r\nk\r\n", now + 99);
    assert_eq!(out.response, b"$1\r\nv\r\n".to_vec());
    assert_eq!(s.storage.dbsize(0), 1);
    // at the deadline the entry is gone, and removed from the store
    let out = run(&mut s, b"*2\r\n$3\r\nGET\r\n$1\r\nk\r\n", now + 100);
    assert_eq!(out.response, b"$-1\r\n".to_vec());
    assert_eq!(s.storage.dbsize(0), 0);
    let out = run(&mut s, b"*2\r\n$4\r\nKEYS\r\n$1\r\n*\r\n", now + 100);
    assert!(!contains(&out.response, b"k"));
    assert_eq!(out.response, b"*0\r\n".to_vec());
}

#[test]
fn set_ex_stores_a_seconds_deadline() {
    let mut s = master_server();
    let now = 10_000;
    run(
        &mut s,
        b"*5\r\n$3\r\nSET\r\n$1\r\nk\r\n$1\r\nv\r\n$2\r\nEX\r\n$1\r\n5\r\n",
        now,
    );
    let out = run(&mut s, b"*2\r\n$3\r\nGET\r\n$1\r\nk\r\n", now + 4_000);
    assert_eq!(out.response, b"$1\r\nv\r\n".to_vec());
    let out = run(&mut s, b"*2\r\n$3\r\nGET\r\n$1\r\nk\r\n", now + 5_000);
    assert_eq!(out.response, b"$-1\r\n".to_vec());
}

#[test]
fn set_with_bad_suffix_or_count_is_an_error() {
    let mut s = master_server();
    let out = run(
        &mut s,
        b"*5\r\n$3\r\nSET\r\n$1\r\nk\r\n$1\r\nv\r\n$2\r\nQX\r\n$3\r\n100\r\n",
        0,
    );
    assert_eq!(out.response, b"-ERR syntax error\r\n".to_vec());
    let out = run(
        &mut s,
        b"*5\r\n$3\r\nSET\r\n$1\r\nk\r\n$1\r\nv\r\n$2\r\nPX\r\n$3\r\nabc\r\n",
        0,
    );
    assert_eq!(out.response, b"-ERR invalid expire time\r\n".to_vec());
    let out = run(&mut s, b"*4\r\n$3\r\nSET\r\n$1\r\nk\r\n$1\r\nv\r\n$2\r\nPX\r\n", 0);
    assert_eq!(out.response, b"-ERR wrong number of arguments\r\n".to_vec());
}

#[test]
fn keys_star_lists_all_keys() {
    let mut s = master_server();
    run(&mut s, b"*3\r\n$3\r\nSET\r\n$1\r\na\r\n$1\r\n1\r\n", 0);
    run(&mut s, b"*3\r\n$3\r\nSET\r\n$1\r\nb\r\n$1\r\n2\r\n", 0);
    let out = run(&mut s, b"*2\r\n$4\r\nKEYS\r\n$1\r\n*\r\n", 0);
    assert_eq!(out.response, b"*2\r\n$1\r\na\r\n$1\r\nb\r\n".to_vec());
    // other patterns answer the empty array
    let out = run(&mut s, b"*2\r\n$4\r\nKEYS\r\n$2\r\na*\r\n", 0);
    assert_eq!(out.response, b"*0\r\n".to_vec());
}

#[test]
fn config_get_dir_and_dbfilename() {
    let mut conf = Dbconf::new();
    conf.set(b"/tmp".to_vec(), b"dump.rdb".to_vec());
    let opt = ServerOpt::new(b"6379".to_vec(), conf, None, true);
    let mut s = Server::new(RdbFile::new(RDB_VERSION), opt);
    let out = run(&mut s, b"*3\r\n$6\r\nCONFIG\r\n$3\r\nGET\r\n$3\r\ndir\r\n", 0);
    assert_eq!(out.response, b"*2\r\n$3\r\ndir\r\n$4\r\n/tmp\r\n".to_vec());
    let out = run(
        &mut s,
        b"*3\r\n$6\r\nCONFIG\r\n$3\r\nGET\r\n$10\r\ndbfilename\r\n",
        0,
    );
    assert_eq!(out.response, b"*2\r\n$10\r\ndbfilename\r\n$8\r\ndump.rdb\r\n".to_vec());
    let out = run(&mut s, b"*3\r\n$6\r\nCONFIG\r\n$3\r\nGET\r\n$4\r\nnope\r\n", 0);
    assert_eq!(out.response, b"-ERR unknown CONFIG parameter\r\n".to_vec());
}

#[test]
fn info_replication_on_master() {
    let mut s = master_server();
    let replid = s.option.get_master_replid();
    let out = run(&mut s, b"*1\r\n$4\r\nINFO\r\n", 0);
    assert!(contains(&out.response, b"# replication\r\n"));
    assert!(contains(&out.response, b"role:master\r\n"));
    let mut line = b"master_replid:".to_vec();
    line.extend_from_slice(&replid);
    line.extend_from_slice(b"\r\n");
    assert_eq!(replid.len(), 40);
    assert!(contains(&out.response, &line));
    assert!(contains(&out.response, b"master_repl_offset:0\r\n"));
    // a named section comes without the header
    let out = run(&mut s, b"*2\r\n$4\r\nINFO\r\n$11\r\nreplication\r\n", 0);
    assert!(!contains(&out.response, b"# replication"));
    assert!(contains(&out.response, b"role:master\r\n"));
    // an unknown section is the null bulk
    let out = run(&mut s, b"*2\r\n$4\r\nINFO\r\n$6\r\nmemory\r\n", 0);
    assert_eq!(out.response, b"$-1\r\n".to_vec());
}

#[test]
fn reregistering_a_port_replaces_the_old_registration() {
    let mut s = master_server();
    let frame = b"*3\r\n$8\r\nREPLCONF\r\n$14\r\nlistening-port\r\n$4\r\n6380\r\n";
    let out = run(&mut s, frame, 0);
    assert_eq!(out.response, b"+OK\r\n".to_vec());
    // the same port announces itself again, say after a reconnect
    let out = run(&mut s, frame, 0);
    assert_eq!(out.response, b"+OK\r\n".to_vec());
    assert_eq!(out.registered_port, Some(b"6380".to_vec()));
    assert_eq!(s.repl_set.get_repls().len(), 1);
    // fan-out plans exactly one send for that port
    run(&mut s, b"*3\r\n$5\r\nPSYNC\r\n$1\r\n?\r\n$2\r\n-1\r\n", 0);
    let cmd = b"*3\r\n$3\r\nSET\r\n$1\r\nk\r\n$1\r\nv\r\n";
    let plan = plan_fanout(&s.repl_set, cmd);
    assert_eq!(plan.len(), 1);
    assert_eq!(plan[0].0, b"6380".to_vec());
    assert_eq!(plan[0].1, cmd.to_vec());
}

#[test]
fn replconf_registers_and_acknowledges() {
    let mut s = master_server();
    // capa before any registration: the null bulk
    let out = run(&mut s, b"*3\r\n$8\r\nREPLCONF\r\n$4\r\ncapa\r\n$6\r\npsync2\r\n", 0);
    assert_eq!(out.response, b"$-1\r\n".to_vec());
    // listening-port registers this connection
    let out = run(
        &mut s,
        b"*3\r\n$8\r\nREPLCONF\r\n$14\r\nlistening-port\r\n$4\r\n6380\r\n",
        0,
    );
    assert_eq!(out.response, b"+OK\r\n".to_vec());
    assert_eq!(out.registered_port, Some(b"6380".to_vec()));
    // capa now sees a replica
    let out = run(&mut s, b"*3\r\n$8\r\nREPLCONF\r\n$4\r\ncapa\r\n$6\r\npsync2\r\n", 0);
    assert_eq!(out.response, b"+OK\r\n".to_vec());
    let out = run(&mut s, b"*3\r\n$8\r\nREPLCONF\r\n$5\r\nwrong\r\n$1\r\nx\r\n", 0);
    assert_eq!(out.response, b"-ERR unknown REPLCONF argument\r\n".to_vec());
}

#[test]
fn psync_emits_fullresync_and_the_snapshot() {
    let mut s = master_server();
    let replid = s.option.get_master_replid();
    let out = run(&mut s, b"*3\r\n$5\r\nPSYNC\r\n$1\r\n?\r\n$2\r\n-1\r\n", 0);
    let mut expect = b"+FULLRESYNC ".to_vec();
    expect.extend_from_slice(&replid);
    expect.extend_from_slice(b" 0\r\n");
    let payload = rdb_write(&RdbFile::new(RDB_VERSION));
    expect.extend_from_slice(format!("${}\r\n", payload.len()).as_bytes());
    expect.extend_from_slice(&payload);
    // the snapshot ends the write: no trailing CRLF after it
    assert_eq!(out.response, expect);
    // serving PSYNC marks the registry ready
    assert!(s.repl_set.is_ready());
}

#[test]
fn fan_out_carries_the_frame_verbatim_to_every_replica() {
    let mut s = master_server();
    run(
        &mut s,
        b"*3\r\n$8\r\nREPLCONF\r\n$14\r\nlistening-port\r\n$4\r\n6380\r\n",
        0,
    );
    run(
        &mut s,
        b"*3\r\n$8\r\nREPLCONF\r\n$14\r\nlistening-port\r\n$4\r\n6381\r\n",
        0,
    );
    run(&mut s, b"*3\r\n$5\r\nPSYNC\r\n$1\r\n?\r\n$2\r\n-1\r\n", 0);
    assert!(s.is_repls_ready());
    let frame = b"*3\r\n$3\r\nSET\r\n$1\r\nk\r\n$1\r\nv\r\n";
    let plan = plan_fanout(&s.repl_set, frame);
    assert_eq!(plan.len(), 2);
    assert_eq!(plan[0].0, b"6380".to_vec());
    assert_eq!(plan[1].0, b"6381".to_vec());
    assert_eq!(plan[0].1, frame.to_vec());
    assert_eq!(plan[1].1, frame.to_vec());
}

#[test]
fn unknown_command_is_a_protocol_error() {
    let mut s = master_server();
    let out = run(&mut s, b"*1\r\n$5\r\nHELLO\r\n", 0);
    assert_eq!(out.response, b"-ERR unknown command\r\n".to_vec());
}

#[test]
fn replid_is_stable_and_random_per_process_options() {
    let a = ServerOpt::new(b"1\r".to_vec(), Dbconf::new(), None, true);
    let b = ServerOpt::new(b"2".to_vec(), Dbconf::new(), None, true);
    let ra = a.get_master_replid();
    assert_eq!(ra, a.get_master_replid());
    assert_eq!(ra.len(), 40);
    assert!(ra.iter().all(|c| c.is_ascii_alphabetic()));
    assert_ne!(ra, b.get_master_replid());
}

#[test]
fn replicaof_argument_parsing() {
    assert_eq!(parse_replicaof(b""), Ok(None));
    assert_eq!(
        parse_replicaof(b"localhost 6379"),
        Ok(Some((b"localhost".to_vec(), b"6379".to_vec())))
    );
    assert!(parse_replicaof(b"localhost abc").is_err());
    assert!(parse_replicaof(b"localhost").is_err());
    assert!(parse_replicaof(b" 6379").is_err());
}
