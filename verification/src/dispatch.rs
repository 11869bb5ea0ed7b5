use vstd::prelude::*;
use vstd::string::StringSliceAdditionalSpecFns;

use crate::bytes::{bytes_eq, clone_bytes, lemma_bytes_deep, lit_bytes, to_upper, upper};
use crate::codec::{bulk_list, RespDataType, RespG};
use crate::num::{dec_rep, dec_rep_i, digits_val, is_i64_rep, i64_val, parse_i64, parse_u64};
use crate::repl::{Replica, ReplicationState};
use crate::store::{
    list_at, live, lookup, spec_keys, spec_lrange, upsert, DataStorage, EntryG, StoredG, StreamId,
    ValueG,
};
use crate::streams::{
    last_id_at, spec_parse_point, spec_parse_xadd_id, spec_resolve, spec_validate, spec_xafter,
    spec_xrange, stream_at,
};

verus! {

broadcast use lemma_bytes_deep;

/// Which side of replication this server plays.
#[derive(Clone, Copy, PartialEq, Eq, Structural, Debug)]
pub enum Role {
    Master,
    Slave,
}

/// The server's standing configuration.
pub struct Config {
    pub role: Role,
    pub db_dir: Option<Vec<u8>>,
    pub db_file_name: Option<Vec<u8>>,
    pub master_host: Option<Vec<u8>>,
    pub master_port: Option<Vec<u8>>,
}

/// The whole shared server state: the store, the replication ledger, and
/// the configuration.
pub struct State {
    pub store: DataStorage,
    pub replication: ReplicationState,
    pub config: Config,
}

/// The server state, at the specification level.
#[verifier::ext_equal]
pub struct StateG {
    pub store: Seq<(Seq<u8>, StoredG)>,
    pub role_master: bool,
    pub dir: Option<Seq<u8>>,
    pub dbfile: Option<Seq<u8>>,
    pub offset: u64,
    pub replicas: Seq<Replica>,
    pub next_id: u64,
}

impl View for State {
    type V = StateG;

    open spec fn view(&self) -> StateG {
        StateG {
            store: self.store@,
            role_master: self.config.role is Master,
            dir: match self.config.db_dir {
                Some(ref d) => Some(d@),
                None => None,
            },
            dbfile: match self.config.db_file_name {
                Some(ref d) => Some(d@),
                None => None,
            },
            offset: self.replication.offset,
            replicas: self.replication.replicas@,
            next_id: self.replication.next_id,
        }
    }
}

impl State {
    /// A fresh primary with an empty store.
    pub fn new() -> (r: State)
        ensures
            r@.store == Seq::<(Seq<u8>, StoredG)>::empty(),
            r@.role_master,
            r@.offset == 0,
            r@.replicas == Seq::<Replica>::empty(),
            r@.dir is None,
            r@.dbfile is None,
            r.replication.wf(),
    {
        State {
            store: DataStorage::new(),
            replication: ReplicationState::new(),
            config: Config {
                role: Role::Master,
                db_dir: None,
                db_file_name: None,
                master_host: None,
                master_port: None,
            },
        }
    }
}

/// One connection's transaction state: the queue and the mode flag.
pub struct Session {
    pub in_multi: bool,
    pub queued: Vec<Vec<Vec<u8>>>,
}

impl Session {
    /// A fresh session in normal mode.
    pub fn new() -> (r: Session)
        ensures
            !r.in_multi,
            r.queued.deep_view() == Seq::<Seq<Seq<u8>>>::empty(),
    {
        let r = Session { in_multi: false, queued: Vec::new() };
        proof {
            assert(r.queued.deep_view() =~= Seq::<Seq<Seq<u8>>>::empty());
        }
        r
    }
}

// The fixed reply texts.

/// `-ERR wrong number of arguments ...` for the named command.
pub open spec fn msg_wrong_args(name: Seq<u8>) -> RespG {
    RespG::Error(
        ("ERR wrong number of arguments for ").spec_bytes() + name + (" command").spec_bytes(),
    )
}

/// The wrong-type error reply.
pub open spec fn msg_wrongtype() -> RespG {
    RespG::Error(("WRONGTYPE Operation against a key holding the wrong kind of value").spec_bytes())
}

/// The not-an-integer error reply.
pub open spec fn msg_notint() -> RespG {
    RespG::Error(("ERR value is not an integer or out of range").spec_bytes())
}

/// The unknown-command error reply.
pub open spec fn msg_unknown() -> RespG {
    RespG::Error(("ERR unknown command").spec_bytes())
}

/// The reply to an append naming `0-0`.
pub open spec fn msg_xadd_zero() -> RespG {
    RespG::Error(("ERR The ID specified in XADD must be greater than 0-0").spec_bytes())
}

/// The reply to an append at or below the stream's top entry.
pub open spec fn msg_xadd_small() -> RespG {
    RespG::Error(
        (
        "ERR The ID specified in XADD is equal or smaller than the target stream top item").spec_bytes(),
    )
}

/// The reply to an unreadable stream identifier.
pub open spec fn msg_bad_id() -> RespG {
    RespG::Error(("ERR Invalid stream ID specified as stream command argument").spec_bytes())
}

/// The reply to an uneven `XREAD` key/identifier list.
pub open spec fn msg_unbalanced() -> RespG {
    RespG::Error(
        (
        "ERR Unbalanced XREAD list of streams: for each stream key an ID or '$' must be specified.").spec_bytes(),
    )
}

/// Builds the error reply for the named command's arity.
pub fn wrong_args(name: &str) -> (r: RespDataType)
    ensures
        r@ == msg_wrong_args(name.spec_bytes()),
{
    let mut b = lit_bytes("ERR wrong number of arguments for ");
    let mut mid = lit_bytes(name);
    let mut tail = lit_bytes(" command");
    b.append(&mut mid);
    b.append(&mut tail);
    proof {
        assert(b@ =~= ("ERR wrong number of arguments for ").spec_bytes() + name.spec_bytes() + (
        " command").spec_bytes());
    }
    RespDataType::SimpleError(b)
}

// Reply shapes built from store values.

/// The textual form `ms-seq` of a stream identifier.
pub open spec fn id_bytes(id: StreamId) -> Seq<u8> {
    dec_rep(id.ms as nat) + seq![45u8] + dec_rep(id.seq as nat)
}

/// The flattened field list of one entry: name, value, name, value.
pub open spec fn fields_flat(fs: Seq<(Seq<u8>, Seq<u8>)>) -> Seq<RespG> {
    Seq::new(
        2 * fs.len(),
        |i: int|
            if i % 2 == 0 {
                RespG::Bulk(fs[i / 2].0)
            } else {
                RespG::Bulk(fs[i / 2].1)
            },
    )
}

/// The reply shape of one entry: `[id, [f1, v1, ...]]`.
pub open spec fn entry_resp(e: EntryG) -> RespG {
    RespG::Arr(seq![RespG::Bulk(id_bytes(e.id)), RespG::Arr(fields_flat(e.fields))])
}

/// The reply shapes of a run of entries.
pub open spec fn entries_resp(es: Seq<EntryG>) -> Seq<RespG> {
    Seq::new(es.len(), |i: int| entry_resp(es[i]))
}

/// Builds the bulk-string array for a list of byte strings.
#[verifier::loop_isolation(false)]
pub fn bulks_of(ss: Vec<Vec<u8>>) -> (r: RespDataType)
    ensures
        r@ == RespG::Arr(bulk_list(ss.deep_view())),
{
    let ghost ssg = ss.deep_view();
    let mut items: Vec<RespDataType> = Vec::new();
    let mut j: usize = 0;
    let n = ss.len();
    let mut rest = ss;
    while j < n
        invariant
            j <= n,
            n == ssg.len(),
            rest@.len() == n - j,
            rest.deep_view() =~~= ssg.skip(j as int),
            items@.len() == j,
            crate::codec::view_list(items@) =~~= bulk_list(ssg).subrange(0, j as int),
        decreases n - j,
    {
        let ghost oldrest = rest@;
        let v = rest.remove(0);
        proof {
            assert(oldrest[0].deep_view() == ssg.skip(j as int)[0]);
            assert(v@ == ssg[j as int]);
            assert forall|t: int| 0 <= t < rest@.len() implies #[trigger] rest@[t].deep_view()
                == ssg.skip(j as int + 1)[t] by {
                assert(rest@[t] == oldrest[t + 1]);
                assert(oldrest[t + 1].deep_view() == ssg.skip(j as int)[t + 1]);
            }
            assert(rest.deep_view() =~~= ssg.skip(j as int + 1));
        }
        let ghost olditems = items@;
        items.push(RespDataType::BulkString(v));
        j = j + 1;
        proof {
            crate::codec::lemma_view_list(olditems);
            crate::codec::lemma_view_list(items@);
            assert forall|t: int| 0 <= t < j implies crate::codec::view_list(items@)[t]
                == bulk_list(ssg).subrange(0, j as int)[t] by {
                if t < j - 1 {
                    assert(items@[t] == olditems[t]);
                    assert(crate::codec::view_list(olditems)[t] == bulk_list(ssg).subrange(
                        0,
                        j as int - 1,
                    )[t]);
                } else {
                    assert(items@[t]@ == RespG::Bulk(v@));
                }
            }
            assert(crate::codec::view_list(items@) =~= bulk_list(ssg).subrange(0, j as int));
        }
    }
    proof {
        assert(bulk_list(ssg).subrange(0, ssg.len() as int) =~= bulk_list(ssg));
    }
    RespDataType::Array(items)
}

/// Formats a stream identifier as `ms-seq`.
pub fn format_id(id: StreamId) -> (r: Vec<u8>)
    ensures
        r@ == id_bytes(id),
{
    let mut b = crate::num::format_u64(id.ms);
    b.push(45);
    let mut tail = crate::num::format_u64(id.seq);
    b.append(&mut tail);
    proof {
        assert(b@ =~= id_bytes(id));
    }
    b
}

} // verus!

// The single-command semantics: what one command, run against the store
// snapshot, does to the store and replies.

verus! {

/// Saturating addition of two offsets.
pub open spec fn sat_add(a: u64, b: u64) -> u64 {
    if a + b > u64::MAX {
        u64::MAX
    } else {
        (a + b) as u64
    }
}

/// The bytes `TYPE` answers with.
pub open spec fn kind_bytes(m: Seq<(Seq<u8>, StoredG)>, k: Seq<u8>, now: u64) -> Seq<u8> {
    match live(m, k, now) {
        None => ("none").spec_bytes(),
        Some(st) => match st.value {
            ValueG::Str(_) => ("string").spec_bytes(),
            ValueG::Stream(_) => ("stream").spec_bytes(),
            ValueG::List(_) => ("list").spec_bytes(),
        },
    }
}

/// The `INFO` reply body.
pub open spec fn info_bytes(role_master: bool) -> Seq<u8> {
    ("role:").spec_bytes() + (if role_master {
        ("master").spec_bytes()
    } else {
        ("slave").spec_bytes()
    }) + (
    "\r\nmaster_repl_offset:0\r\nmaster_replid:8371b4fb1155b71f4a04d3e1bc3e18c4a990aeeb").spec_bytes()
}

/// What `SET` does: `PX` attaches an expiry of `now` plus the given span;
/// other trailing options are passed over.
pub open spec fn spec_set(m: Seq<(Seq<u8>, StoredG)>, cmd: Seq<Seq<u8>>, now: u64) -> (
    Seq<(Seq<u8>, StoredG)>,
    RespG,
) {
    if cmd.len() < 3 {
        (m, msg_wrong_args(("SET").spec_bytes()))
    } else if cmd.len() >= 4 && upper(cmd[3]) == ("PX").spec_bytes() {
        if cmd.len() >= 5 && crate::streams::is_u64_digits(cmd[4]) {
            let ms = digits_val(cmd[4]) as u64;
            (
                upsert(
                    m,
                    cmd[1],
                    StoredG { value: ValueG::Str(cmd[2]), expiry: Some(sat_add(now, ms)) },
                ),
                RespG::Simple(("OK").spec_bytes()),
            )
        } else {
            (m, msg_notint())
        }
    } else {
        (
            upsert(m, cmd[1], StoredG { value: ValueG::Str(cmd[2]), expiry: None }),
            RespG::Simple(("OK").spec_bytes()),
        )
    }
}

/// What `GET` answers: the live string, the null bulk when absent or
/// expired, and the wrong-type error otherwise.
pub open spec fn spec_get(m: Seq<(Seq<u8>, StoredG)>, cmd: Seq<Seq<u8>>, now: u64) -> RespG {
    if cmd.len() < 2 {
        msg_wrong_args(("GET").spec_bytes())
    } else {
        match live(m, cmd[1], now) {
            None => RespG::Nil,
            Some(st) => match st.value {
                ValueG::Str(s) => RespG::Bulk(s),
                _ => msg_wrongtype(),
            },
        }
    }
}

/// What `INCR` does: an absent or expired value counts from zero; any
/// other string must read as a decimal integer below the largest.
pub open spec fn spec_incr(m: Seq<(Seq<u8>, StoredG)>, cmd: Seq<Seq<u8>>, now: u64) -> (
    Seq<(Seq<u8>, StoredG)>,
    RespG,
) {
    if cmd.len() < 2 {
        (m, msg_wrong_args(("INCR").spec_bytes()))
    } else {
        let k = cmd[1];
        match live(m, k, now) {
            None => (
                upsert(m, k, StoredG { value: ValueG::Str(dec_rep(1)), expiry: None }),
                RespG::Int(1),
            ),
            Some(st) => match st.value {
                ValueG::Str(s) => if is_i64_rep(s) && i64_val(s) < i64::MAX {
                    (
                        upsert(
                            m,
                            k,
                            StoredG {
                                value: ValueG::Str(dec_rep_i(i64_val(s) + 1)),
                                expiry: st.expiry,
                            },
                        ),
                        RespG::Int((i64_val(s) + 1) as i64),
                    )
                } else {
                    (m, msg_notint())
                },
                _ => (m, msg_notint()),
            },
        }
    }
}

/// What `LPOP` does, in both its one- and two-argument forms.
pub open spec fn spec_lpop(m: Seq<(Seq<u8>, StoredG)>, cmd: Seq<Seq<u8>>) -> (
    Seq<(Seq<u8>, StoredG)>,
    RespG,
) {
    if cmd.len() == 2 {
        match lookup(m, cmd[1]) {
            Some(st) => match st.value {
                ValueG::List(l) => if l.len() > 0 {
                    (
                        upsert(
                            m,
                            cmd[1],
                            StoredG { value: ValueG::List(l.drop_first()), expiry: st.expiry },
                        ),
                        RespG::Bulk(l[0]),
                    )
                } else {
                    (m, RespG::Nil)
                },
                _ => (m, RespG::Nil),
            },
            None => (m, RespG::Nil),
        }
    } else if cmd.len() == 3 {
        if crate::streams::is_u64_digits(cmd[2]) && digits_val(cmd[2]) >= 1 && digits_val(cmd[2])
            <= usize::MAX {
            let count = digits_val(cmd[2]) as int;
            let l = list_at(m, cmd[1]);
            let n = if count <= l.len() {
                count
            } else {
                l.len() as int
            };
            let reply = RespG::Arr(bulk_list(l.subrange(0, n)));
            match lookup(m, cmd[1]) {
                Some(st) => match st.value {
                    ValueG::List(l2) => (
                        upsert(
                            m,
                            cmd[1],
                            StoredG { value: ValueG::List(l2.skip(n)), expiry: st.expiry },
                        ),
                        reply,
                    ),
                    _ => (m, reply),
                },
                None => (m, reply),
            }
        } else {
            (m, msg_notint())
        }
    } else {
        (m, msg_wrong_args(("LPOP").spec_bytes()))
    }
}

/// What one command, run against the snapshot, does to the store and
/// replies. This is the meaning `EXEC` gives each queued command, and the
/// meaning the live dispatcher implements for the same commands.
#[verifier::opaque]
pub open spec fn step(st: StateG, cmd: Seq<Seq<u8>>, now: u64) -> (Seq<(Seq<u8>, StoredG)>, RespG) {
    let m = st.store;
    if cmd.len() == 0 {
        (m, msg_unknown())
    } else {
        let name = upper(cmd[0]);
        if name == ("PING").spec_bytes() {
            (m, RespG::Simple(("PONG").spec_bytes()))
        } else if name == ("ECHO").spec_bytes() {
            if cmd.len() >= 2 {
                (m, RespG::Bulk(cmd[1]))
            } else {
                (m, msg_wrong_args(("ECHO").spec_bytes()))
            }
        } else if name == ("SET").spec_bytes() {
            spec_set(m, cmd, now)
        } else if name == ("GET").spec_bytes() {
            (m, spec_get(m, cmd, now))
        } else if name == ("INCR").spec_bytes() {
            spec_incr(m, cmd, now)
        } else if name == ("TYPE").spec_bytes() {
            if cmd.len() >= 2 {
                (m, RespG::Simple(kind_bytes(m, cmd[1], now)))
            } else {
                (m, msg_wrong_args(("TYPE").spec_bytes()))
            }
        } else if name == ("KEYS").spec_bytes() {
            if cmd.len() >= 2 {
                (m, RespG::Arr(bulk_list(spec_keys(m, cmd[1]))))
            } else {
                (m, msg_wrong_args(("KEYS").spec_bytes()))
            }
        } else if name == ("CONFIG").spec_bytes() {
            if cmd.len() >= 3 && upper(cmd[1]) == ("GET").spec_bytes() {
                let p = upper(cmd[2]);
                let v = if p == ("DIR").spec_bytes() {
                    match st.dir {
                        Some(d) => d,
                        None => Seq::empty(),
                    }
                } else if p == ("DBFILENAME").spec_bytes() {
                    match st.dbfile {
                        Some(d) => d,
                        None => Seq::empty(),
                    }
                } else {
                    Seq::empty()
                };
                (m, RespG::Arr(seq![RespG::Bulk(cmd[2]), RespG::Bulk(v)]))
            } else {
                (m, msg_wrong_args(("CONFIG").spec_bytes()))
            }
        } else if name == ("INFO").spec_bytes() {
            (m, RespG::Bulk(info_bytes(st.role_master)))
        } else if name == ("WAIT").spec_bytes() {
            if st.offset == 0 {
                (m, RespG::Int(st.replicas.len() as i64))
            } else {
                (m, RespG::Int(crate::repl::spec_count_acked(st.replicas, st.offset) as i64))
            }
        } else if name == ("RPUSH").spec_bytes() {
            if cmd.len() < 3 {
                (m, msg_wrong_args(("RPUSH").spec_bytes()))
            } else {
                let items = cmd.skip(2);
                match lookup(m, cmd[1]) {
                    Some(st0) => match st0.value {
                        ValueG::List(l) => (
                            upsert(
                                m,
                                cmd[1],
                                StoredG { value: ValueG::List(l + items), expiry: st0.expiry },
                            ),
                            RespG::Int(((l.len() + items.len()) as usize) as i64),
                        ),
                        _ => (m, msg_wrongtype()),
                    },
                    None => (
                        upsert(m, cmd[1], StoredG { value: ValueG::List(items), expiry: None }),
                        RespG::Int(items.len() as i64),
                    ),
                }
            }
        } else if name == ("LPUSH").spec_bytes() {
            if cmd.len() < 3 {
                (m, msg_wrong_args(("LPUSH").spec_bytes()))
            } else {
                let items = cmd.skip(2);
                match lookup(m, cmd[1]) {
                    Some(st0) => match st0.value {
                        ValueG::List(l) => (
                            upsert(
                                m,
                                cmd[1],
                                StoredG {
                                    value: ValueG::List(items.reverse() + l),
                                    expiry: st0.expiry,
                                },
                            ),
                            RespG::Int(((l.len() + items.len()) as usize) as i64),
                        ),
                        _ => (m, msg_wrongtype()),
                    },
                    None => (
                        upsert(
                            m,
                            cmd[1],
                            StoredG { value: ValueG::List(items.reverse()), expiry: None },
                        ),
                        RespG::Int(items.len() as i64),
                    ),
                }
            }
        } else if name == ("LLEN").spec_bytes() {
            if cmd.len() == 2 {
                (m, RespG::Int(list_at(m, cmd[1]).len() as i64))
            } else {
                (m, msg_wrong_args(("LLEN").spec_bytes()))
            }
        } else if name == ("LRANGE").spec_bytes() {
            if cmd.len() == 4 {
                if is_i64_rep(cmd[2]) && is_i64_rep(cmd[3]) {
                    (
                        m,
                        RespG::Arr(
                            bulk_list(
                                spec_lrange(list_at(m, cmd[1]), i64_val(cmd[2]), i64_val(cmd[3])),
                            ),
                        ),
                    )
                } else {
                    (m, msg_notint())
                }
            } else {
                (m, msg_wrong_args(("LRANGE").spec_bytes()))
            }
        } else if name == ("LPOP").spec_bytes() {
            spec_lpop(m, cmd)
        } else if name == ("XADD").spec_bytes() {
            spec_xadd_step(m, cmd, now)
        } else if name == ("XRANGE").spec_bytes() {
            (m, spec_xrange_reply(m, cmd))
        } else if name == ("XREAD").spec_bytes() {
            (m, spec_xread_reply(m, cmd))
        } else {
            (m, msg_unknown())
        }
    }
}

/// The field pairs of an `XADD` tail: argument pairs, in order.
pub open spec fn pairs_of(args: Seq<Seq<u8>>) -> Seq<(Seq<u8>, Seq<u8>)> {
    Seq::new(args.len() / 2, |i: int| (args[2 * i], args[2 * i + 1]))
}

/// What `XADD` does: resolve the requested identifier, check it, append.
pub open spec fn spec_xadd_step(m: Seq<(Seq<u8>, StoredG)>, cmd: Seq<Seq<u8>>, now: u64) -> (
    Seq<(Seq<u8>, StoredG)>,
    RespG,
) {
    if cmd.len() < 3 || (cmd.len() - 3) % 2 != 0 {
        (m, msg_wrong_args(("XADD").spec_bytes()))
    } else {
        match spec_parse_xadd_id(cmd[2]) {
            None => (m, msg_bad_id()),
            Some(req) => {
                let es = stream_at(m, cmd[1]);
                let last = if es.len() > 0 {
                    Some(es.last().id)
                } else {
                    None::<StreamId>
                };
                match spec_resolve(last, req, now) {
                    None => (m, msg_xadd_small()),
                    Some(id) => match spec_validate(last, id) {
                        Some(crate::streams::XaddError::ZeroId) => (m, msg_xadd_zero()),
                        Some(crate::streams::XaddError::NotGreater) => (m, msg_xadd_small()),
                        None => (
                            upsert(
                                m,
                                cmd[1],
                                StoredG {
                                    value: ValueG::Stream(
                                        es.push(EntryG { id, fields: pairs_of(cmd.skip(3)) }),
                                    ),
                                    expiry: None,
                                },
                            ),
                            RespG::Bulk(id_bytes(id)),
                        ),
                    },
                }
            },
        }
    }
}

/// What `XRANGE` answers: the in-range entries, each as `[id, fields]`.
pub open spec fn spec_xrange_reply(m: Seq<(Seq<u8>, StoredG)>, cmd: Seq<Seq<u8>>) -> RespG {
    if cmd.len() < 4 {
        msg_wrong_args(("XRANGE").spec_bytes())
    } else {
        let startp = if cmd[2] == seq![45u8] {
            Some(StreamId { ms: 0, seq: 0 })
        } else {
            spec_parse_point(cmd[2])
        };
        let endp = if cmd[3] == seq![43u8] {
            Some(None::<StreamId>)
        } else {
            match spec_parse_point(cmd[3]) {
                Some(e) => Some(Some(e)),
                None => None,
            }
        };
        match (startp, endp) {
            (Some(s), Some(e)) => RespG::Arr(
                entries_resp(spec_xrange(stream_at(m, cmd[1]), s, e)),
            ),
            _ => msg_bad_id(),
        }
    }
}

/// The identifier an `XREAD` token names: `$` is the stream's current top.
pub open spec fn xread_after(m: Seq<(Seq<u8>, StoredG)>, key: Seq<u8>, tok: Seq<u8>) -> Option<
    StreamId,
> {
    if tok == seq![36u8] {
        Some(last_id_at(m, key))
    } else {
        spec_parse_point(tok)
    }
}

/// Whether every identifier token of the pair list can be read.
pub open spec fn xread_ok(m: Seq<(Seq<u8>, StoredG)>, rest: Seq<Seq<u8>>, half: int) -> bool {
    forall|i: int|
        0 <= i < half ==> xread_after(m, rest[i], #[trigger] rest[half + i]) is Some
}

/// The per-stream reply items: only streams with new entries appear.
pub open spec fn xread_items(
    m: Seq<(Seq<u8>, StoredG)>,
    rest: Seq<Seq<u8>>,
    half: int,
    i: int,
) -> Seq<RespG>
    decreases half - i,
{
    if i < 0 || i >= half {
        Seq::empty()
    } else {
        let key = rest[i];
        let after = match xread_after(m, key, rest[half + i]) {
            Some(a) => a,
            None => StreamId { ms: 0, seq: 0 },
        };
        let sel = spec_xafter(stream_at(m, key), after);
        (if sel.len() > 0 {
            seq![RespG::Arr(seq![RespG::Bulk(key), RespG::Arr(entries_resp(sel))])]
        } else {
            Seq::empty()
        }) + xread_items(m, rest, half, i + 1)
    }
}

/// What `XREAD` answers against the snapshot: the non-empty streams, or
/// the null bulk.
#[verifier::opaque]
pub open spec fn spec_xread_reply(m: Seq<(Seq<u8>, StoredG)>, cmd: Seq<Seq<u8>>) -> RespG {
    let idx: int = if cmd.len() >= 2 && upper(cmd[1]) == ("BLOCK").spec_bytes() {
        3
    } else {
        1
    };
    if cmd.len() <= idx || upper(cmd[idx]) != ("STREAMS").spec_bytes() {
        msg_wrong_args(("XREAD").spec_bytes())
    } else {
        let rest = cmd.skip(idx + 1);
        if rest.len() == 0 || rest.len() % 2 != 0 {
            msg_unbalanced()
        } else {
            let half = rest.len() as int / 2;
            if !xread_ok(m, rest, half) {
                msg_bad_id()
            } else {
                let items = xread_items(m, rest, half, 0);
                if items.len() == 0 {
                    RespG::Nil
                } else {
                    RespG::Arr(items)
                }
            }
        }
    }
}

} // verus!

// Executable reply builders for stream entries.

verus! {

/// Copies the tail of an argument list, from `from` on.
#[verifier::loop_isolation(false)]
pub fn clone_range(v: &Vec<Vec<u8>>, from: usize) -> (r: Vec<Vec<u8>>)
    requires
        from <= v.len(),
    ensures
        r.deep_view() == v.deep_view().skip(from as int),
{
    let mut r: Vec<Vec<u8>> = Vec::new();
    let mut j: usize = from;
    while j < v.len()
        invariant
            from <= j <= v.len(),
            r@.len() == j - from,
            r.deep_view() =~~= v.deep_view().subrange(from as int, j as int),
        decreases v.len() - j,
    {
        r.push(clone_bytes(&v[j]));
        j = j + 1;
        proof {
            assert(r.deep_view() =~~= v.deep_view().subrange(from as int, j as int));
        }
    }
    proof {
        assert(r.deep_view() =~~= v.deep_view().skip(from as int));
    }
    r
}

/// Builds the field pairs of an `XADD` tail, from `from` on.
#[verifier::loop_isolation(false)]
pub fn pairs_from(v: &Vec<Vec<u8>>, from: usize) -> (r: Vec<(Vec<u8>, Vec<u8>)>)
    requires
        from <= v.len(),
        (v.len() - from) % 2 == 0,
    ensures
        r.deep_view() == pairs_of(v.deep_view().skip(from as int)),
{
    let ghost tail = v.deep_view().skip(from as int);
    let mut r: Vec<(Vec<u8>, Vec<u8>)> = Vec::new();
    let mut j: usize = from;
    while j < v.len() && j + 1 < v.len()
        invariant
            from <= j <= v.len(),
            (j - from) % 2 == 0,
            r@.len() == (j - from) / 2,
            r.deep_view() =~~= pairs_of(tail).subrange(0, (j - from) as int / 2),
        decreases v.len() - j,
    {
        let f = clone_bytes(&v[j]);
        let w = clone_bytes(&v[j + 1]);
        r.push((f, w));
        j = j + 2;
        proof {
            assert(tail[(j - from) as int / 2 * 2 - 2] == v.deep_view()[j - 2]);
            assert(tail[(j - from) as int / 2 * 2 - 1] == v.deep_view()[j - 1]);
            assert(r.deep_view() =~~= pairs_of(tail).subrange(0, (j - from) as int / 2));
        }
    }
    proof {
        assert(pairs_of(tail).subrange(0, pairs_of(tail).len() as int) =~= pairs_of(tail));
    }
    r
}

/// Builds the flattened field bulks of one entry.
#[verifier::loop_isolation(false)]
pub fn flat_fields(fs: &Vec<(Vec<u8>, Vec<u8>)>) -> (r: Vec<RespDataType>)
    ensures
        crate::codec::view_list(r@) == fields_flat(fs.deep_view()),
{
    let mut r: Vec<RespDataType> = Vec::new();
    let mut j: usize = 0;
    while j < fs.len()
        invariant
            j <= fs.len(),
            r@.len() == 2 * j,
            crate::codec::view_list(r@) =~~= fields_flat(fs.deep_view()).subrange(
                0,
                2 * j as int,
            ),
        decreases fs.len() - j,
    {
        let ghost old1 = r@;
        r.push(RespDataType::BulkString(clone_bytes(&fs[j].0)));
        let ghost old2 = r@;
        r.push(RespDataType::BulkString(clone_bytes(&fs[j].1)));
        j = j + 1;
        proof {
            crate::codec::lemma_view_list(old1);
            crate::codec::lemma_view_list(old2);
            crate::codec::lemma_view_list(r@);
            assert(fs.deep_view()[j - 1].0 == fs@[j - 1].0@);
            assert(fs.deep_view()[j - 1].1 == fs@[j - 1].1@);
            assert forall|t: int| 0 <= t < 2 * j implies crate::codec::view_list(r@)[t]
                == fields_flat(fs.deep_view()).subrange(0, 2 * j as int)[t] by {
                if t < 2 * j - 2 {
                    assert(r@[t] == old1[t]);
                    assert(crate::codec::view_list(old1)[t] == fields_flat(
                        fs.deep_view(),
                    ).subrange(0, 2 * j as int - 2)[t]);
                } else if t == 2 * j - 2 {
                    assert(r@[t]@ == RespG::Bulk(fs@[j - 1].0@));
                } else {
                    assert(r@[t]@ == RespG::Bulk(fs@[j - 1].1@));
                }
            }
            assert(crate::codec::view_list(r@) =~= fields_flat(fs.deep_view()).subrange(
                0,
                2 * j as int,
            ));
        }
    }
    proof {
        assert(fields_flat(fs.deep_view()).subrange(
            0,
            fields_flat(fs.deep_view()).len() as int,
        ) =~= fields_flat(fs.deep_view()));
    }
    r
}

/// Builds the reply shape of one entry.
pub fn entry_to_resp(e: &crate::store::StreamEntry) -> (r: RespDataType)
    ensures
        r@ == entry_resp(e@),
{
    let mut items: Vec<RespDataType> = Vec::new();
    items.push(RespDataType::BulkString(format_id(e.id)));
    items.push(RespDataType::Array(flat_fields(&e.fields)));
    proof {
        crate::codec::lemma_view_list(items@);
        assert(items@.len() == 2);
        assert(items@[0]@ == RespG::Bulk(id_bytes(e.id)));
        assert(items@[1]@ == RespG::Arr(fields_flat(e.fields.deep_view())));
        assert(crate::codec::view_list(items@)[0] == items@[0]@);
        assert(crate::codec::view_list(items@)[1] == items@[1]@);
        assert(crate::codec::view_list(items@) =~= seq![
            RespG::Bulk(id_bytes(e.id)),
            RespG::Arr(fields_flat(e.fields.deep_view())),
        ]);
    }
    RespDataType::Array(items)
}

/// Builds the reply array for a run of entries.
#[verifier::loop_isolation(false)]
pub fn entries_to_resp(es: &Vec<crate::store::StreamEntry>) -> (r: RespDataType)
    ensures
        r@ == RespG::Arr(entries_resp(es.deep_view())),
{
    let mut items: Vec<RespDataType> = Vec::new();
    let mut j: usize = 0;
    while j < es.len()
        invariant
            j <= es.len(),
            items@.len() == j,
            crate::codec::view_list(items@) =~~= entries_resp(es.deep_view()).subrange(
                0,
                j as int,
            ),
        decreases es.len() - j,
    {
        let ghost olditems = items@;
        items.push(entry_to_resp(&es[j]));
        j = j + 1;
        proof {
            crate::codec::lemma_view_list(olditems);
            crate::codec::lemma_view_list(items@);
            assert(es.deep_view()[j - 1] == es@[j - 1]@);
            assert forall|t: int| 0 <= t < j implies crate::codec::view_list(items@)[t]
                == entries_resp(es.deep_view()).subrange(0, j as int)[t] by {
                assert(crate::codec::view_list(items@)[t] == items@[t]@);
                if t < j - 1 {
                    assert(items@[t] == olditems[t]);
                    assert(crate::codec::view_list(olditems)[t] == olditems[t]@);
                    assert(crate::codec::view_list(olditems)[t] == entries_resp(
                        es.deep_view(),
                    ).subrange(0, j as int - 1)[t]);
                } else {
                    assert(items@[t]@ == entry_resp(es@[j - 1]@));
                }
            }
            assert(crate::codec::view_list(items@) =~= entries_resp(es.deep_view()).subrange(
                0,
                j as int,
            ));
        }
    }
    proof {
        assert(entries_resp(es.deep_view()).subrange(
            0,
            entries_resp(es.deep_view()).len() as int,
        ) =~= entries_resp(es.deep_view()));
    }
    RespDataType::Array(items)
}

} // verus!

// The executable single-command dispatcher.

verus! {

/// Whether the upper-cased name is the given command word.
fn name_is(name: &Vec<u8>, s: &str) -> (r: bool)
    ensures
        r == (name@ == s.spec_bytes()),
{
    let l = lit_bytes(s);
    bytes_eq(name, &l)
}

/// Runs one command of the snapshot-level set against the live state:
/// exactly the `step` semantics.
#[verifier::loop_isolation(false)]
#[verifier::rlimit(100)]
pub fn run_simple(state: &mut State, cmd: &Vec<Vec<u8>>, now: u64) -> (r: RespDataType)
    ensures
        final(state).replication == old(state).replication,
        final(state).config == old(state).config,
        final(state).store@ == step(old(state)@, cmd.deep_view(), now).0,
        r@ == step(old(state)@, cmd.deep_view(), now).1,
{
    proof {
        reveal(step);
    }
    let ghost st0 = state@;
    let ghost cmdv = cmd.deep_view();
    if cmd.len() == 0 {
        return RespDataType::SimpleError(lit_bytes("ERR unknown command"));
    }
    proof {
        assert(cmdv[0] == cmd@[0]@);
    }
    let name = to_upper(&cmd[0]);
    if name_is(&name, "PING") {
        RespDataType::SimpleString(lit_bytes("PONG"))
    } else if name_is(&name, "ECHO") {
        if cmd.len() >= 2 {
            proof {
                assert(cmdv[1] == cmd@[1]@);
            }
            RespDataType::BulkString(clone_bytes(&cmd[1]))
        } else {
            wrong_args("ECHO")
        }
    } else if name_is(&name, "SET") {
        if cmd.len() < 3 {
            wrong_args("SET")
        } else {
            proof {
                assert(cmdv[1] == cmd@[1]@);
                assert(cmdv[2] == cmd@[2]@);
            }
            let px = if cmd.len() >= 4 {
                proof {
                    assert(cmdv[3] == cmd@[3]@);
                }
                let opt = to_upper(&cmd[3]);
                name_is(&opt, "PX")
            } else {
                false
            };
            if px {
                if cmd.len() >= 5 {
                    proof {
                        assert(cmdv[4] == cmd@[4]@);
                    }
                    match parse_u64(&cmd[4]) {
                        Some(ms) => {
                            let exp: u64 = if ms <= u64::MAX - now {
                                now + ms
                            } else {
                                u64::MAX
                            };
                            state.store.set_string(
                                clone_bytes(&cmd[1]),
                                clone_bytes(&cmd[2]),
                                Some(exp),
                            );
                            RespDataType::SimpleString(lit_bytes("OK"))
                        },
                        None => RespDataType::SimpleError(
                            lit_bytes("ERR value is not an integer or out of range"),
                        ),
                    }
                } else {
                    RespDataType::SimpleError(
                        lit_bytes("ERR value is not an integer or out of range"),
                    )
                }
            } else {
                state.store.set_string(clone_bytes(&cmd[1]), clone_bytes(&cmd[2]), None);
                RespDataType::SimpleString(lit_bytes("OK"))
            }
        }
    } else if name_is(&name, "GET") {
        if cmd.len() < 2 {
            wrong_args("GET")
        } else {
            proof {
                assert(cmdv[1] == cmd@[1]@);
            }
            match state.store.get_value(&cmd[1]) {
                Some(ev) => {
                    let gone = match ev.expiration_timestamp {
                        Some(t) => now >= t,
                        None => false,
                    };
                    if gone {
                        RespDataType::Nil
                    } else {
                        match &ev.value {
                            crate::store::Value::String(sv) => RespDataType::BulkString(
                                clone_bytes(sv),
                            ),
                            _ => RespDataType::SimpleError(
                                lit_bytes(
                                    "WRONGTYPE Operation against a key holding the wrong kind of value",
                                ),
                            ),
                        }
                    }
                },
                None => RespDataType::Nil,
            }
        }
    } else if name_is(&name, "INCR") {
        if cmd.len() < 2 {
            wrong_args("INCR")
        } else {
            proof {
                assert(cmdv[1] == cmd@[1]@);
            }
            match state.store.incr(&cmd[1], now) {
                Ok(v) => RespDataType::Integer(v),
                Err(_) => RespDataType::SimpleError(
                    lit_bytes("ERR value is not an integer or out of range"),
                ),
            }
        }
    } else if name_is(&name, "TYPE") {
        if cmd.len() < 2 {
            wrong_args("TYPE")
        } else {
            proof {
                assert(cmdv[1] == cmd@[1]@);
            }
            match state.store.get_value(&cmd[1]) {
                Some(ev) => {
                    let gone = match ev.expiration_timestamp {
                        Some(t) => now >= t,
                        None => false,
                    };
                    if gone {
                        RespDataType::SimpleString(lit_bytes("none"))
                    } else {
                        match &ev.value {
                            crate::store::Value::String(_) => RespDataType::SimpleString(
                                lit_bytes("string"),
                            ),
                            crate::store::Value::Stream(_) => RespDataType::SimpleString(
                                lit_bytes("stream"),
                            ),
                            crate::store::Value::List(_) => RespDataType::SimpleString(
                                lit_bytes("list"),
                            ),
                        }
                    }
                },
                None => RespDataType::SimpleString(lit_bytes("none")),
            }
        }
    } else if name_is(&name, "KEYS") {
        if cmd.len() < 2 {
            wrong_args("KEYS")
        } else {
            proof {
                assert(cmdv[1] == cmd@[1]@);
            }
            let ks = state.store.keys_matching(&cmd[1]);
            bulks_of(ks)
        }
    } else if name_is(&name, "CONFIG") {
        let sub_ok = if cmd.len() >= 3 {
            proof {
                assert(cmdv[1] == cmd@[1]@);
            }
            let sub = to_upper(&cmd[1]);
            name_is(&sub, "GET")
        } else {
            false
        };
        if sub_ok {
            proof {
                assert(cmdv[2] == cmd@[2]@);
            }
            let p = to_upper(&cmd[2]);
            let v: Vec<u8> = if name_is(&p, "DIR") {
                match &state.config.db_dir {
                    Some(d) => clone_bytes(d),
                    None => Vec::new(),
                }
            } else if name_is(&p, "DBFILENAME") {
                match &state.config.db_file_name {
                    Some(d) => clone_bytes(d),
                    None => Vec::new(),
                }
            } else {
                Vec::new()
            };
            proof {
                assert(v@ =~= (step(st0, cmdv, now).1)->Arr_0[1]->Bulk_0);
            }
            let mut items: Vec<RespDataType> = Vec::new();
            items.push(RespDataType::BulkString(clone_bytes(&cmd[2])));
            items.push(RespDataType::BulkString(v));
            proof {
                crate::codec::lemma_view_list(items@);
                assert(items@.len() == 2);
                assert(crate::codec::view_list(items@)[0] == items@[0]@);
                assert(crate::codec::view_list(items@)[1] == items@[1]@);
                assert(crate::codec::view_list(items@) =~= (step(st0, cmdv, now).1)->Arr_0);
            }
            RespDataType::Array(items)
        } else {
            wrong_args("CONFIG")
        }
    } else if name_is(&name, "INFO") {
        let mut b = lit_bytes("role:");
        let mut role = if matches!(state.config.role, Role::Master) {
            lit_bytes("master")
        } else {
            lit_bytes("slave")
        };
        let mut tail = lit_bytes(
            "\r\nmaster_repl_offset:0\r\nmaster_replid:8371b4fb1155b71f4a04d3e1bc3e18c4a990aeeb",
        );
        b.append(&mut role);
        b.append(&mut tail);
        proof {
            assert(b@ =~= info_bytes(st0.role_master));
        }
        RespDataType::BulkString(b)
    } else if name_is(&name, "WAIT") {
        if state.replication.offset == 0 {
            RespDataType::Integer(state.replication.replicas.len() as i64)
        } else {
            let c = state.replication.count_acked(state.replication.offset);
            RespDataType::Integer(c as i64)
        }
    } else if name_is(&name, "RPUSH") {
        if cmd.len() < 3 {
            wrong_args("RPUSH")
        } else {
            proof {
                assert(cmdv[1] == cmd@[1]@);
            }
            let elements = clone_range(cmd, 2);
            match state.store.rpush(clone_bytes(&cmd[1]), elements) {
                Ok(n) => RespDataType::Integer(n as i64),
                Err(_) => RespDataType::SimpleError(
                    lit_bytes("WRONGTYPE Operation against a key holding the wrong kind of value"),
                ),
            }
        }
    } else if name_is(&name, "LPUSH") {
        if cmd.len() < 3 {
            wrong_args("LPUSH")
        } else {
            proof {
                assert(cmdv[1] == cmd@[1]@);
            }
            let elements = clone_range(cmd, 2);
            match state.store.lpush(clone_bytes(&cmd[1]), elements) {
                Ok(n) => RespDataType::Integer(n as i64),
                Err(_) => RespDataType::SimpleError(
                    lit_bytes("WRONGTYPE Operation against a key holding the wrong kind of value"),
                ),
            }
        }
    } else if name_is(&name, "LLEN") {
        if cmd.len() == 2 {
            proof {
                assert(cmdv[1] == cmd@[1]@);
            }
            let n = state.store.llen(&cmd[1]);
            RespDataType::Integer(n as i64)
        } else {
            wrong_args("LLEN")
        }
    } else if name_is(&name, "LRANGE") {
        if cmd.len() == 4 {
            proof {
                assert(cmdv[1] == cmd@[1]@);
                assert(cmdv[2] == cmd@[2]@);
                assert(cmdv[3] == cmd@[3]@);
            }
            match (parse_i64(&cmd[2]), parse_i64(&cmd[3])) {
                (Some(a), Some(b)) => {
                    let items = state.store.lrange(&cmd[1], a, b);
                    bulks_of(items)
                },
                _ => RespDataType::SimpleError(
                    lit_bytes("ERR value is not an integer or out of range"),
                ),
            }
        } else {
            wrong_args("LRANGE")
        }
    } else if name_is(&name, "LPOP") {
        if cmd.len() == 2 {
            proof {
                assert(cmdv[1] == cmd@[1]@);
            }
            match state.store.lpop(&cmd[1]) {
                Some(v) => RespDataType::BulkString(v),
                None => RespDataType::Nil,
            }
        } else if cmd.len() == 3 {
            proof {
                assert(cmdv[1] == cmd@[1]@);
                assert(cmdv[2] == cmd@[2]@);
            }
            match parse_u64(&cmd[2]) {
                Some(n64) => {
                    if n64 >= 1 && n64 <= usize::MAX as u64 {
                        let popped = state.store.lpop_multiple(&cmd[1], n64 as usize);
                        bulks_of(popped)
                    } else {
                        RespDataType::SimpleError(
                            lit_bytes("ERR value is not an integer or out of range"),
                        )
                    }
                },
                None => RespDataType::SimpleError(
                    lit_bytes("ERR value is not an integer or out of range"),
                ),
            }
        } else {
            wrong_args("LPOP")
        }
    } else if name_is(&name, "XADD") {
        if cmd.len() < 3 || (cmd.len() - 3) % 2 != 0 {
            wrong_args("XADD")
        } else {
            proof {
                assert(cmdv[1] == cmd@[1]@);
                assert(cmdv[2] == cmd@[2]@);
            }
            match crate::streams::parse_xadd_id(&cmd[2]) {
                None => RespDataType::SimpleError(
                    lit_bytes("ERR Invalid stream ID specified as stream command argument"),
                ),
                Some(req) => {
                    let fields = pairs_from(cmd, 3);
                    match state.store.xadd(&cmd[1], req, fields, now) {
                        Ok(id) => RespDataType::BulkString(format_id(id)),
                        Err(crate::streams::XaddError::ZeroId) => RespDataType::SimpleError(
                            lit_bytes("ERR The ID specified in XADD must be greater than 0-0"),
                        ),
                        Err(crate::streams::XaddError::NotGreater) => RespDataType::SimpleError(
                            lit_bytes(
                                "ERR The ID specified in XADD is equal or smaller than the target stream top item",
                            ),
                        ),
                    }
                },
            }
        }
    } else if name_is(&name, "XRANGE") {
        if cmd.len() < 4 {
            wrong_args("XRANGE")
        } else {
            proof {
                assert(cmdv[1] == cmd@[1]@);
                assert(cmdv[2] == cmd@[2]@);
                assert(cmdv[3] == cmd@[3]@);
            }
            let startp: Option<StreamId> = if cmd[2].len() == 1 && cmd[2][0] == 45 {
                proof {
                    assert(cmdv[2] =~= seq![45u8]);
                }
                Some(StreamId { ms: 0, seq: 0 })
            } else {
                proof {
                    if cmdv[2] == seq![45u8] {
                        assert(cmd@[2]@.len() == 1 && cmd@[2]@[0] == 45);
                        assert(false);
                    }
                }
                crate::streams::parse_point(&cmd[2])
            };
            let endp: Option<Option<StreamId>> = if cmd[3].len() == 1 && cmd[3][0] == 43 {
                proof {
                    assert(cmdv[3] =~= seq![43u8]);
                }
                Some(None)
            } else {
                proof {
                    if cmdv[3] == seq![43u8] {
                        assert(cmd@[3]@.len() == 1 && cmd@[3]@[0] == 43);
                        assert(false);
                    }
                }
                match crate::streams::parse_point(&cmd[3]) {
                    Some(e) => Some(Some(e)),
                    None => None,
                }
            };
            match (startp, endp) {
                (Some(sp), Some(ep)) => {
                    match state.store.get_stream(&cmd[1]) {
                        Some(es) => {
                            let sel = crate::streams::xrange_entries(es, sp, ep);
                            entries_to_resp(&sel)
                        },
                        None => {
                            let sel: Vec<crate::store::StreamEntry> = Vec::new();
                            proof {
                                assert(stream_at(st0.store, cmdv[1]) =~= Seq::<EntryG>::empty());
                                assert(spec_xrange(Seq::<EntryG>::empty(), sp, ep)
                                    == Seq::<EntryG>::empty());
                                assert(sel.deep_view() =~= Seq::<EntryG>::empty());
                                assert(entries_resp(Seq::<EntryG>::empty())
                                    =~= Seq::<RespG>::empty());
                            }
                            entries_to_resp(&sel)
                        },
                    }
                },
                _ => RespDataType::SimpleError(
                    lit_bytes("ERR Invalid stream ID specified as stream command argument"),
                ),
            }
        }
    } else if name_is(&name, "XREAD") {
        run_xread(&state.store, cmd)
    } else {
        RespDataType::SimpleError(lit_bytes("ERR unknown command"))
    }
}

} // verus!

// The executable tail read over several streams.

verus! {

/// Answers `XREAD` against the snapshot: the spec reply of
/// `spec_xread_reply`, stream by stream.
#[verifier::loop_isolation(false)]
#[verifier::rlimit(100)]
pub fn run_xread(store: &DataStorage, cmd: &Vec<Vec<u8>>) -> (r: RespDataType)
    requires
        cmd.len() >= 1,
    ensures
        r@ == spec_xread_reply(store@, cmd.deep_view()),
{
    proof {
        reveal(spec_xread_reply);
    }
    let ghost m = store@;
    let ghost cmdv = cmd.deep_view();
    let has_block = if cmd.len() >= 2 {
        proof {
            assert(cmdv[1] == cmd@[1]@);
        }
        let b = to_upper(&cmd[1]);
        name_is(&b, "BLOCK")
    } else {
        false
    };
    let idx: usize = if has_block {
        3
    } else {
        1
    };
    if cmd.len() <= idx {
        return wrong_args("XREAD");
    }
    proof {
        assert(cmdv[idx as int] == cmd@[idx as int]@);
    }
    let kw = to_upper(&cmd[idx]);
    if !name_is(&kw, "STREAMS") {
        return wrong_args("XREAD");
    }
    let restlen = cmd.len() - idx - 1;
    let ghost rest = cmdv.skip(idx as int + 1);
    if restlen == 0 || restlen % 2 != 0 {
        return RespDataType::SimpleError(
            lit_bytes(
                "ERR Unbalanced XREAD list of streams: for each stream key an ID or '$' must be specified.",
            ),
        );
    }
    let half = restlen / 2;
    let ghost halfi = half as int;
    let mut afters: Vec<StreamId> = Vec::new();
    let mut i: usize = 0;
    while i < half
        invariant
            i <= half,
            afters@.len() == i,
            forall|t: int|
                0 <= t < i ==> xread_after(m, rest[t], rest[halfi + t]) == Some(
                    #[trigger] afters@[t],
                ),
        decreases half - i,
    {
        let keyi = idx + 1 + i;
        let toki = idx + 1 + half + i;
        proof {
            assert(cmdv[keyi as int] == cmd@[keyi as int]@);
            assert(cmdv[toki as int] == cmd@[toki as int]@);
            assert(rest[i as int] == cmdv[keyi as int]);
            assert(rest[halfi + i] == cmdv[toki as int]);
        }
        let tok = &cmd[toki];
        let a: Option<StreamId> = if tok.len() == 1 && tok[0] == 36 {
            proof {
                assert(cmdv[toki as int] =~= seq![36u8]);
            }
            match store.get_stream(&cmd[keyi]) {
                Some(es) => {
                    if es.len() > 0 {
                        proof {
                            assert(es.deep_view().last() == es@.last()@);
                        }
                        Some(es[es.len() - 1].id)
                    } else {
                        proof {
                            assert(es.deep_view().len() == 0);
                        }
                        Some(StreamId { ms: 0, seq: 0 })
                    }
                },
                None => {
                    proof {
                        assert(stream_at(m, rest[i as int]) =~= Seq::<EntryG>::empty());
                    }
                    Some(StreamId { ms: 0, seq: 0 })
                },
            }
        } else {
            proof {
                if cmdv[toki as int] == seq![36u8] {
                    assert(cmd@[toki as int]@.len() == 1 && cmd@[toki as int]@[0] == 36);
                    assert(false);
                }
            }
            crate::streams::parse_point(tok)
        };
        match a {
            Some(aid) => {
                afters.push(aid);
                i = i + 1;
                proof {
                    assert(afters@[i - 1] == aid);
                }
            },
            None => {
                proof {
                    assert(xread_after(m, rest[i as int], rest[halfi + i]) is None);
                    assert(!xread_ok(m, rest, halfi));
                }
                return RespDataType::SimpleError(
                    lit_bytes("ERR Invalid stream ID specified as stream command argument"),
                );
            },
        }
    }
    proof {
        assert forall|t: int| 0 <= t < halfi implies xread_after(
            m,
            rest[t],
            #[trigger] rest[halfi + t],
        ) is Some by {
            assert(xread_after(m, rest[t], rest[halfi + t]) == Some(afters@[t]));
        }
        assert(xread_ok(m, rest, halfi));
    }
    let mut items: Vec<RespDataType> = Vec::new();
    let mut i2: usize = 0;
    while i2 < half
        invariant
            i2 <= half,
            afters@.len() == half,
            forall|t: int|
                0 <= t < half ==> xread_after(m, rest[t], rest[halfi + t]) == Some(
                    #[trigger] afters@[t],
                ),
            crate::codec::view_list(items@) + xread_items(m, rest, halfi, i2 as int)
                == xread_items(m, rest, halfi, 0),
        decreases half - i2,
    {
        let keyi = idx + 1 + i2;
        proof {
            assert(cmdv[keyi as int] == cmd@[keyi as int]@);
            assert(rest[i2 as int] == cmdv[keyi as int]);
        }
        let sel: Vec<crate::store::StreamEntry> = match store.get_stream(&cmd[keyi]) {
            Some(es) => crate::streams::xafter_entries(es, afters[i2]),
            None => {
                proof {
                    assert(stream_at(m, rest[i2 as int]) =~= Seq::<EntryG>::empty());
                    assert(spec_xafter(Seq::<EntryG>::empty(), afters@[i2 as int])
                        == Seq::<EntryG>::empty());
                }
                Vec::new()
            },
        };
        proof {
            assert(sel.deep_view() =~~= spec_xafter(
                stream_at(m, rest[i2 as int]),
                afters@[i2 as int],
            ));
        }
        let ghost head = xread_items(m, rest, halfi, i2 as int);
        let ghost tailitems = xread_items(m, rest, halfi, i2 as int + 1);
        if sel.len() > 0 {
            let mut sub: Vec<RespDataType> = Vec::new();
            sub.push(RespDataType::BulkString(clone_bytes(&cmd[keyi])));
            sub.push(entries_to_resp(&sel));
            proof {
                crate::codec::lemma_view_list(sub@);
                assert(sub@.len() == 2);
                assert(crate::codec::view_list(sub@)[0] == sub@[0]@);
                assert(crate::codec::view_list(sub@)[1] == sub@[1]@);
                assert(crate::codec::view_list(sub@) =~= seq![
                    RespG::Bulk(rest[i2 as int]),
                    RespG::Arr(entries_resp(sel.deep_view())),
                ]);
            }
            let ghost olditems = items@;
            items.push(RespDataType::Array(sub));
            proof {
                crate::codec::lemma_view_list_push(olditems, RespDataType::Array(sub));
                assert(head == seq![
                    RespG::Arr(
                        seq![
                            RespG::Bulk(rest[i2 as int]),
                            RespG::Arr(
                                entries_resp(
                                    spec_xafter(
                                        stream_at(m, rest[i2 as int]),
                                        afters@[i2 as int],
                                    ),
                                ),
                            ),
                        ],
                    ),
                ] + tailitems);
                assert(crate::codec::view_list(items@) + tailitems =~= xread_items(
                    m,
                    rest,
                    halfi,
                    0,
                ));
            }
        } else {
            proof {
                assert(head == tailitems);
            }
        }
        i2 = i2 + 1;
    }
    proof {
        assert(xread_items(m, rest, halfi, halfi) == Seq::<RespG>::empty());
        assert(crate::codec::view_list(items@) + Seq::<RespG>::empty() =~= crate::codec::view_list(
            items@,
        ));
        assert(crate::codec::view_list(items@) == xread_items(m, rest, halfi, 0));
        crate::codec::lemma_view_list(items@);
    }
    if items.len() == 0 {
        proof {
            assert(xread_items(m, rest, halfi, 0).len() == 0);
        }
        RespDataType::Nil
    } else {
        RespDataType::Array(items)
    }
}

} // verus!

// The connection-level dispatcher: transactions, replication commands,
// blocking plans, and propagation.

verus! {

/// What the caller must do besides writing the reply.
pub enum Effect {
    Nothing,
    Propagate(Vec<u8>),
    RegisterReplica(u64),
    Wait(WaitInfo),
    BlockList(BlockListInfo),
    BlockStreams(BlockStreamsInfo),
    Close,
}

/// The `WAIT` polling plan: ask the lagging replicas for acknowledgements,
/// then poll until enough have confirmed or the deadline passes.
pub struct WaitInfo {
    pub needed: usize,
    pub timeout_ms: u64,
    pub getack: Vec<u64>,
}

/// The `BLPOP` parking plan; a zero timeout waits forever.
pub struct BlockListInfo {
    pub key: Vec<u8>,
    pub timeout_ms: u64,
}

/// The `XREAD BLOCK` polling plan, with each stream's resolved lower bound.
pub struct BlockStreamsInfo {
    pub pairs: Vec<(Vec<u8>, StreamId)>,
    pub timeout_ms: u64,
    pub forever: bool,
}

/// The effects, at the specification level.
pub enum EffG {
    Nothing,
    Propagate(Seq<u8>),
    RegisterReplica(u64),
    Wait(usize, u64, Seq<u64>),
    BlockList(Seq<u8>, u64),
    BlockStreams(Seq<(Seq<u8>, StreamId)>, u64, bool),
    Close,
}

impl View for Effect {
    type V = EffG;

    open spec fn view(&self) -> EffG {
        match self {
            Effect::Nothing => EffG::Nothing,
            Effect::Propagate(b) => EffG::Propagate(b@),
            Effect::RegisterReplica(id) => EffG::RegisterReplica(*id),
            Effect::Wait(w) => EffG::Wait(w.needed, w.timeout_ms, w.getack@),
            Effect::BlockList(b) => EffG::BlockList(b.key@, b.timeout_ms),
            Effect::BlockStreams(b) => EffG::BlockStreams(b.pairs.deep_view(), b.timeout_ms, b.forever),
            Effect::Close => EffG::Close,
        }
    }
}

/// What one inbound frame leaves behind: the reply, if one is owed, and
/// the side effect the connection loop must carry out.
pub struct Outcome {
    pub reply: Option<Vec<u8>>,
    pub effect: Effect,
}

/// The whole result of dispatching one frame, at the specification level.
#[verifier::ext_equal]
pub struct OutG {
    pub store: Seq<(Seq<u8>, StoredG)>,
    pub offset: u64,
    pub replicas: Seq<Replica>,
    pub next_id: u64,
    pub in_multi: bool,
    pub queued: Seq<Seq<Seq<u8>>>,
    pub reply: Option<Seq<u8>>,
    pub effect: EffG,
}

/// The store and replies of a queue of commands run in order against the
/// snapshot the queue found.
pub open spec fn run_queue(st: StateG, cmds: Seq<Seq<Seq<u8>>>, now: u64) -> (
    Seq<(Seq<u8>, StoredG)>,
    Seq<RespG>,
)
    decreases cmds.len(),
{
    if cmds.len() == 0 {
        (st.store, Seq::empty())
    } else {
        let first = step(st, cmds[0], now);
        let st1 = StateG { store: first.0, ..st };
        let rest = run_queue(st1, cmds.drop_first(), now);
        (rest.0, seq![first.1] + rest.1)
    }
}

/// Each `EXEC` reply is exactly the reply its command produces against the
/// store as the earlier queued commands left it.
pub proof fn lemma_run_queue_index(st: StateG, cmds: Seq<Seq<Seq<u8>>>, now: u64, i: int)
    requires
        0 <= i < cmds.len(),
    ensures
        run_queue(st, cmds, now).1.len() == cmds.len(),
        run_queue(st, cmds, now).1[i] == step(
            StateG { store: run_queue(st, cmds.subrange(0, i), now).0, ..st },
            cmds[i],
            now,
        ).1,
    decreases i,
{
    lemma_run_queue_len(st, cmds, now);
    if i == 0 {
        assert(cmds.subrange(0, 0) =~= Seq::<Seq<Seq<u8>>>::empty());
        assert(run_queue(st, cmds.subrange(0, 0), now).0 == st.store);
        assert(run_queue(st, cmds, now).1[0] == step(st, cmds[0], now).1);
        assert(StateG { store: st.store, ..st } =~= st);
    } else {
        let first = step(st, cmds[0], now);
        let st1 = StateG { store: first.0, ..st };
        lemma_run_queue_index(st1, cmds.drop_first(), now, i - 1);
        assert(cmds.drop_first()[i - 1] == cmds[i]);
        assert(run_queue(st, cmds, now).1[i] == run_queue(st1, cmds.drop_first(), now).1[i - 1]);
        assert(cmds.drop_first().subrange(0, i - 1) =~= cmds.subrange(1, i));
        lemma_run_queue_prefix(st, cmds, now, i);
    }
}

/// Running a prefix agrees with running the first command then the rest.
pub proof fn lemma_run_queue_prefix(st: StateG, cmds: Seq<Seq<Seq<u8>>>, now: u64, i: int)
    requires
        1 <= i <= cmds.len(),
    ensures
        run_queue(st, cmds.subrange(0, i), now).0 == run_queue(
            StateG { store: step(st, cmds[0], now).0, ..st },
            cmds.subrange(1, i),
            now,
        ).0,
{
    let p = cmds.subrange(0, i);
    assert(p[0] == cmds[0]);
    assert(p.drop_first() =~= cmds.subrange(1, i));
}

/// The reply list is as long as the queue.
pub proof fn lemma_run_queue_len(st: StateG, cmds: Seq<Seq<Seq<u8>>>, now: u64)
    ensures
        run_queue(st, cmds, now).1.len() == cmds.len(),
    decreases cmds.len(),
{
    if cmds.len() > 0 {
        let first = step(st, cmds[0], now);
        lemma_run_queue_len(StateG { store: first.0, ..st }, cmds.drop_first(), now);
    }
}

/// The commands a primary forwards to its replicas.
pub open spec fn is_write(name: Seq<u8>) -> bool {
    ||| name == ("SET").spec_bytes()
    ||| name == ("INCR").spec_bytes()
    ||| name == ("RPUSH").spec_bytes()
    ||| name == ("LPUSH").spec_bytes()
    ||| name == ("LPOP").spec_bytes()
    ||| name == ("XADD").spec_bytes()
}

/// The commands a replica applies from its primary without replying.
pub open spec fn is_quiet_cmd(name: Seq<u8>) -> bool {
    is_write(name) || name == ("PING").spec_bytes()
}

/// The re-encoded frame of a command, as it is forwarded to replicas.
pub open spec fn frame_of(cmd: Seq<Seq<u8>>) -> Seq<u8> {
    crate::codec::encode_spec(RespG::Arr(bulk_list(cmd)))
}

/// The position of the first `.` at or after `pos`, or the end.
pub open spec fn dot_pos(p: Seq<u8>, pos: int) -> int
    decreases p.len() - pos,
{
    if pos < 0 || pos >= p.len() {
        pos
    } else if p[pos] == 46 {
        pos
    } else {
        dot_pos(p, pos + 1)
    }
}

/// A stop position free of dots before it is `dot_pos`.
pub proof fn lemma_dot_pos_stop(p: Seq<u8>, pos: int, k: int)
    requires
        0 <= pos <= k <= p.len(),
        forall|j: int| pos <= j < k ==> p[j] != 46,
        k < p.len() ==> p[k] == 46,
    ensures
        dot_pos(p, pos) == k,
    decreases k - pos,
{
    if pos < k {
        lemma_dot_pos_stop(p, pos + 1, k);
    }
}

/// A decimal timeout in seconds, read as whole milliseconds: an integer
/// part and up to three fraction digits; further digits are dropped.
#[verifier::opaque]
pub open spec fn spec_timeout_ms(s: Seq<u8>) -> Option<u64> {
    let d = dot_pos(s, 0);
    if d >= s.len() {
        if crate::streams::is_u64_digits(s) && digits_val(s) * 1000 <= u64::MAX {
            Some((digits_val(s) * 1000) as u64)
        } else {
            None
        }
    } else {
        let ip = s.subrange(0, d);
        let fp = s.subrange(d + 1, s.len() as int);
        if crate::streams::is_u64_digits(ip) && fp.len() >= 1 && crate::num::all_digits(fp)
            && digits_val(ip) * 1000 <= u64::MAX - 999 {
            let frac = if fp.len() >= 3 {
                digits_val(fp.subrange(0, 3))
            } else if fp.len() == 2 {
                digits_val(fp) * 10
            } else {
                digits_val(fp) * 100
            };
            Some((digits_val(ip) * 1000 + frac) as u64)
        } else {
            None
        }
    }
}

/// Reads a decimal timeout in seconds as milliseconds.
#[verifier::loop_isolation(false)]
pub fn parse_timeout_ms(s: &Vec<u8>) -> (r: Option<u64>)
    ensures
        r == spec_timeout_ms(s@),
{
    proof {
        reveal(spec_timeout_ms);
    }
    let mut d: usize = 0;
    while d < s.len() && s[d] != 46
        invariant
            d <= s.len(),
            forall|j: int| 0 <= j < d ==> s@[j] != 46,
        decreases s.len() - d,
    {
        d = d + 1;
    }
    proof {
        lemma_dot_pos_stop(s@, 0, d as int);
    }
    if d == s.len() {
        match parse_u64(s) {
            Some(v) => {
                if v <= u64::MAX / 1000 {
                    proof {
                        assert(v * 1000 <= u64::MAX) by (nonlinear_arith)
                            requires
                                v <= u64::MAX / 1000,
                        ;
                    }
                    Some(v * 1000)
                } else {
                    proof {
                        assert(v * 1000 > u64::MAX) by (nonlinear_arith)
                            requires
                                v > u64::MAX / 1000,
                        ;
                    }
                    None
                }
            },
            None => None,
        }
    } else {
        let ip = crate::bytes::sub_bytes(s, 0, d);
        let fp = crate::bytes::sub_bytes(s, d + 1, s.len());
        if fp.len() == 0 {
            return None;
        }
        let mut t: usize = 0;
        while t < fp.len()
            invariant
                t <= fp.len(),
                crate::num::all_digits(fp@.subrange(0, t as int)),
            decreases fp.len() - t,
        {
            if fp[t] < 48 || fp[t] > 57 {
                proof {
                    assert(!crate::num::is_digit(fp@[t as int]));
                }
                return None;
            }
            t = t + 1;
            proof {
                assert(crate::num::all_digits(fp@.subrange(0, t as int)));
            }
        }
        proof {
            assert(fp@.subrange(0, fp@.len() as int) =~= fp@);
        }
        match parse_u64(&ip) {
            Some(v) => {
                let frac: u64 = if fp.len() >= 3 {
                    let f3 = crate::bytes::sub_bytes(&fp, 0, 3);
                    proof {
                        assert(f3@ =~= fp@.subrange(0, 3));
                        assert(digits_val(f3@.drop_last().drop_last().drop_last()) == 0) by {
                            assert(f3@.drop_last().drop_last().drop_last().len() == 0);
                        }
                        assert(digits_val(f3@.drop_last().drop_last()) <= 9);
                        assert(digits_val(f3@.drop_last()) <= 99);
                        assert(digits_val(f3@) <= 999);
                    }
                    match parse_u64(&f3) {
                        Some(f) => f,
                        None => {
                            proof {
                                assert(false);
                            }
                            return None;
                        },
                    }
                } else if fp.len() == 2 {
                    proof {
                        assert(digits_val(fp@.drop_last().drop_last()) == 0) by {
                            assert(fp@.drop_last().drop_last().len() == 0);
                        }
                        assert(digits_val(fp@.drop_last()) <= 9);
                        assert(digits_val(fp@) <= 99);
                    }
                    match parse_u64(&fp) {
                        Some(f) => f * 10,
                        None => {
                            proof {
                                assert(false);
                            }
                            return None;
                        },
                    }
                } else {
                    proof {
                        assert(digits_val(fp@.drop_last()) == 0) by {
                            assert(fp@.drop_last().len() == 0);
                        }
                        assert(digits_val(fp@) <= 9);
                    }
                    match parse_u64(&fp) {
                        Some(f) => f * 100,
                        None => {
                            proof {
                                assert(false);
                            }
                            return None;
                        },
                    }
                };
                if v <= (u64::MAX - 999) / 1000 {
                    proof {
                        assert(v * 1000 <= u64::MAX - 999) by (nonlinear_arith)
                            requires
                                v <= (u64::MAX - 999) / 1000,
                        ;
                    }
                    Some(v * 1000 + frac)
                } else {
                    proof {
                        assert(v * 1000 > u64::MAX - 999) by (nonlinear_arith)
                            requires
                                v > (u64::MAX - 999) / 1000,
                        ;
                    }
                    None
                }
            },
            None => None,
        }
    }
}

} // verus!

// The frame-level entry point: transactions and connection commands.

verus! {

/// The resolved `(key, lower bound)` pairs of a blocking tail read.
pub open spec fn xread_pairs(
    m: Seq<(Seq<u8>, StoredG)>,
    rest: Seq<Seq<u8>>,
    half: int,
) -> Seq<(Seq<u8>, StreamId)> {
    Seq::new(
        half as nat,
        |i: int|
            (
                rest[i],
                match xread_after(m, rest[i], rest[half + i]) {
                    Some(a) => a,
                    None => StreamId { ms: 0, seq: 0 },
                },
            ),
    )
}

/// The bytes a fresh replica is sent: the resynchronisation line, then the
/// snapshot as a bulk payload without a trailing line end.
pub open spec fn psync_reply() -> Seq<u8> {
    crate::codec::encode_spec(
        RespG::Simple(
            ("FULLRESYNC 8371b4fb1155b71f4a04d3e1bc3e18c4a990aeeb 0").spec_bytes(),
        ),
    ) + seq![36u8] + dec_rep(crate::repl::spec_empty_rdb().len()) + crate::codec::crlf()
        + crate::repl::spec_empty_rdb()
}

/// What dispatching one frame does: the transaction bookkeeping, the
/// replication commands, the blocking plans, and — for every other
/// command — the `step` semantics with primary-side propagation.
#[verifier::opaque]
pub open spec fn exec_spec(
    st0: StateG,
    in_multi: bool,
    queued: Seq<Seq<Seq<u8>>>,
    cmd: Seq<Seq<u8>>,
    now: u64,
    quiet: bool,
    frame_len: u64,
    link: Option<u64>,
) -> OutG {
    let st = StateG {
        offset: if quiet {
            sat_add(st0.offset, frame_len)
        } else {
            st0.offset
        },
        ..st0
    };
    let base = OutG {
        store: st.store,
        offset: st.offset,
        replicas: st.replicas,
        next_id: st.next_id,
        in_multi: in_multi,
        queued: queued,
        reply: None,
        effect: EffG::Nothing,
    };
    let name = upper(cmd[0]);
    if in_multi && name != ("EXEC").spec_bytes() && name != ("DISCARD").spec_bytes() {
        OutG {
            queued: queued.push(cmd),
            reply: Some(
                crate::codec::encode_spec(RespG::Simple(("QUEUED").spec_bytes())),
            ),
            ..base
        }
    } else if name == ("MULTI").spec_bytes() {
        OutG {
            in_multi: true,
            reply: Some(crate::codec::encode_spec(RespG::Simple(("OK").spec_bytes()))),
            ..base
        }
    } else if name == ("DISCARD").spec_bytes() {
        if in_multi {
            OutG {
                in_multi: false,
                queued: Seq::empty(),
                reply: Some(crate::codec::encode_spec(RespG::Simple(("OK").spec_bytes()))),
                ..base
            }
        } else {
            OutG {
                reply: Some(
                    crate::codec::encode_spec(
                        RespG::Error(("ERR DISCARD without MULTI").spec_bytes()),
                    ),
                ),
                ..base
            }
        }
    } else if name == ("EXEC").spec_bytes() {
        if in_multi {
            let rq = run_queue(st, queued, now);
            OutG {
                store: rq.0,
                in_multi: false,
                queued: Seq::empty(),
                reply: Some(crate::codec::encode_spec(RespG::Arr(rq.1))),
                ..base
            }
        } else {
            OutG {
                reply: Some(
                    crate::codec::encode_spec(
                        RespG::Error(("ERR EXEC without MULTI").spec_bytes()),
                    ),
                ),
                ..base
            }
        }
    } else {
        conn_spec(st, in_multi, queued, cmd, now, quiet, link)
    }
}

/// The connection-level commands, after transaction handling.
#[verifier::opaque]
pub open spec fn conn_spec(
    st: StateG,
    in_multi: bool,
    queued: Seq<Seq<Seq<u8>>>,
    cmd: Seq<Seq<u8>>,
    now: u64,
    quiet: bool,
    link: Option<u64>,
) -> OutG {
    let base = OutG {
        store: st.store,
        offset: st.offset,
        replicas: st.replicas,
        next_id: st.next_id,
        in_multi: in_multi,
        queued: queued,
        reply: None,
        effect: EffG::Nothing,
    };
    let name = upper(cmd[0]);
    if name == ("REPLCONF").spec_bytes() {

        if cmd.len() >= 2 {
            let sub = upper(cmd[1]);
            if sub == ("LISTENING-PORT").spec_bytes() || sub == ("CAPA").spec_bytes() {
                OutG {
                    reply: Some(
                        crate::codec::encode_spec(RespG::Simple(("OK").spec_bytes())),
                    ),
                    ..base
                }
            } else if sub == ("GETACK").spec_bytes() {
                OutG {
                    reply: Some(
                        crate::codec::encode_spec(
                            RespG::Arr(
                                seq![
                                    RespG::Bulk(("REPLCONF").spec_bytes()),
                                    RespG::Bulk(("ACK").spec_bytes()),
                                    RespG::Bulk(dec_rep(st.offset as nat)),
                                ],
                            ),
                        ),
                    ),
                    ..base
                }
            } else if sub == ("ACK").spec_bytes() {
                if cmd.len() >= 3 && crate::streams::is_u64_digits(cmd[2]) && digits_val(cmd[2])
                    <= st.offset && link is Some {
                    let i = crate::repl::rep_index(st.replicas, link->0);
                    OutG {
                        replicas: if i < 0 {
                            st.replicas
                        } else {
                            st.replicas.update(
                                i,
                                Replica { id: link->0, last_ack: digits_val(cmd[2]) as u64 },
                            )
                        },
                        ..base
                    }
                } else {
                    base
                }
            } else {
                base
            }
        } else {
            base
        }
    } else if name == ("PSYNC").spec_bytes() {
        if st.next_id < u64::MAX {
            OutG {
                replicas: st.replicas.push(Replica { id: st.next_id, last_ack: 0 }),
                next_id: (st.next_id + 1) as u64,
                reply: Some(psync_reply()),
                effect: EffG::RegisterReplica(st.next_id),
                ..base
            }
        } else {
            OutG {
                reply: Some(
                    crate::codec::encode_spec(
                        RespG::Error(("ERR replica registry exhausted").spec_bytes()),
                    ),
                ),
                ..base
            }
        }
    } else if name == ("WAIT").spec_bytes() && st.offset != 0 {
        let needed: usize = if cmd.len() >= 2 && crate::streams::is_u64_digits(cmd[1])
            && digits_val(cmd[1]) <= usize::MAX {
            digits_val(cmd[1]) as usize
        } else {
            0
        };
        let tmo: u64 = if cmd.len() >= 3 && crate::streams::is_u64_digits(cmd[2]) {
            digits_val(cmd[2]) as u64
        } else {
            0
        };
        OutG {
            effect: EffG::Wait(needed, tmo, crate::repl::spec_lagging(st.replicas, st.offset)),
            ..base
        }
    } else if name == ("BLPOP").spec_bytes() {
        if cmd.len() != 3 {
            OutG {
                reply: Some(
                    crate::codec::encode_spec(msg_wrong_args(("BLPOP").spec_bytes())),
                ),
                ..base
            }
        } else {
            match spec_timeout_ms(cmd[2]) {
                None => OutG {
                    reply: Some(
                        crate::codec::encode_spec(
                            RespG::Error(("ERR timeout is not a float").spec_bytes()),
                        ),
                    ),
                    ..base
                },
                Some(t) => match lookup(st.store, cmd[1]) {
                    Some(held) => match held.value {
                        ValueG::List(l) => if l.len() > 0 {
                            OutG {
                                store: upsert(
                                    st.store,
                                    cmd[1],
                                    StoredG {
                                        value: ValueG::List(l.drop_first()),
                                        expiry: held.expiry,
                                    },
                                ),
                                reply: Some(
                                    crate::codec::encode_spec(
                                        RespG::Arr(
                                            seq![RespG::Bulk(cmd[1]), RespG::Bulk(l[0])],
                                        ),
                                    ),
                                ),
                                ..base
                            }
                        } else {
                            OutG { effect: EffG::BlockList(cmd[1], t), ..base }
                        },
                        _ => OutG { effect: EffG::BlockList(cmd[1], t), ..base },
                    },
                    None => OutG { effect: EffG::BlockList(cmd[1], t), ..base },
                },
            }
        }
    } else if name == ("XREAD").spec_bytes() && cmd.len() >= 2 && upper(cmd[1]) == (
    "BLOCK").spec_bytes() && spec_xread_reply(st.store, cmd) == RespG::Nil {
        let tmo: u64 = if cmd.len() >= 3 && crate::streams::is_u64_digits(cmd[2]) {
            digits_val(cmd[2]) as u64
        } else {
            0
        };
        let rest = cmd.skip(4);
        let half = rest.len() as int / 2;
        OutG {
            effect: EffG::BlockStreams(xread_pairs(st.store, rest, half), tmo, tmo == 0),
            ..base
        }
    } else if name == ("CONFIG").spec_bytes() && cmd.len() >= 3 && upper(cmd[1]) == (
    "GET").spec_bytes() && upper(cmd[2]) != ("DIR").spec_bytes() && upper(cmd[2]) != (
    "DBFILENAME").spec_bytes() {
        OutG { effect: EffG::Close, ..base }
    } else {
        plain_spec(st, in_multi, queued, cmd, now, quiet)
    }
}

/// The snapshot-level commands with suppression and propagation.
#[verifier::opaque]
pub open spec fn plain_spec(
    st: StateG,
    in_multi: bool,
    queued: Seq<Seq<Seq<u8>>>,
    cmd: Seq<Seq<u8>>,
    now: u64,
    quiet: bool,
) -> OutG {
    let base = OutG {
        store: st.store,
        offset: st.offset,
        replicas: st.replicas,
        next_id: st.next_id,
        in_multi: in_multi,
        queued: queued,
        reply: None,
        effect: EffG::Nothing,
    };
    let name = upper(cmd[0]);
    {
        let sp = step(st, cmd, now);
        let reply = if quiet && is_quiet_cmd(name) {
            None
        } else {
            Some(crate::codec::encode_spec(sp.1))
        };
        if st.role_master && is_write(name) && !(sp.1 is Error) {
            let frame = frame_of(cmd);
            OutG {
                store: sp.0,
                offset: sat_add(st.offset, frame.len() as u64),
                reply: reply,
                effect: EffG::Propagate(frame),
                ..base
            }
        } else {
            OutG { store: sp.0, reply: reply, effect: EffG::Nothing, ..base }
        }
    }
}

} // verus!

// The executable frame dispatcher.

verus! {

/// Dispatches decoded commands against the shared state.
pub struct CommandExecutor {}

impl CommandExecutor {
    /// Dispatches one decoded frame: transaction bookkeeping first, then
    /// the connection-level commands, then the snapshot-level set with
    /// primary-side propagation. `quiet` marks a replica's link to its
    /// primary: the frame's length is counted first and mutations are
    /// applied without replying. `link` names the replica registry entry
    /// behind this connection, for acknowledgement matching.
    #[verifier::loop_isolation(false)]
    #[verifier::rlimit(100)]
    pub fn execute(
        &mut self,
        commands: &Vec<Vec<u8>>,
        state: &mut State,
        session: &mut Session,
        link: Option<u64>,
        quiet: bool,
        frame_len: u64,
        now: u64,
    ) -> (o: Outcome)
        requires
            old(state).replication.wf(),
            commands.len() >= 1,
        ensures
            final(state).replication.wf(),
            final(state).config == old(state).config,
            ({
                let out = exec_spec(
                    old(state)@,
                    old(session).in_multi,
                    old(session).queued.deep_view(),
                    commands.deep_view(),
                    now,
                    quiet,
                    frame_len,
                    link,
                );
                &&& final(state).store@ == out.store
                &&& final(state).replication.offset == out.offset
                &&& final(state).replication.replicas@ == out.replicas
                &&& final(state).replication.next_id == out.next_id
                &&& final(session).in_multi == out.in_multi
                &&& final(session).queued.deep_view() == out.queued
                &&& (match o.reply {
                    Some(b) => out.reply == Some(b@),
                    None => out.reply is None,
                })
                &&& o.effect@ == out.effect
            }),
    {
        proof {
            reveal(exec_spec);
        }
        let ghost cmdv = commands.deep_view();
        let ghost q0 = session.queued.deep_view();
        let ghost inm0 = session.in_multi;
        if quiet {
            let room = u64::MAX - state.replication.offset;
            let b = if frame_len <= room {
                frame_len
            } else {
                room
            };
            state.replication.increment_offset(b);
        }
        let ghost stq = StateG { offset: state.replication.offset, ..old(state)@ };
        proof {
            assert(state@ =~= stq);
            assert(cmdv[0] == commands@[0]@);
        }
        let name = to_upper(&commands[0]);
        if session.in_multi && !name_is(&name, "EXEC") && !name_is(&name, "DISCARD") {
            let copy = clone_range(commands, 0);
            proof {
                assert(copy.deep_view() =~~= cmdv);
            }
            session.queued.push(copy);
            proof {
                assert(session.queued.deep_view() =~~= q0.push(cmdv));
            }
            proof {
                reveal(exec_spec);
            }
            return Outcome {
                reply: Some(RespDataType::SimpleString(lit_bytes("QUEUED")).encode()),
                effect: Effect::Nothing,
            };
        }
        if name_is(&name, "MULTI") {
            session.in_multi = true;
            proof {
                reveal(exec_spec);
            }
            return Outcome {
                reply: Some(RespDataType::SimpleString(lit_bytes("OK")).encode()),
                effect: Effect::Nothing,
            };
        }
        if name_is(&name, "DISCARD") {
            if session.in_multi {
                session.in_multi = false;
                session.queued = Vec::new();
                proof {
                    assert(session.queued.deep_view() =~~= Seq::<Seq<Seq<u8>>>::empty());
                }
                proof {
                reveal(exec_spec);
            }
            return Outcome {
                    reply: Some(RespDataType::SimpleString(lit_bytes("OK")).encode()),
                    effect: Effect::Nothing,
                };
            } else {
                proof {
                reveal(exec_spec);
            }
            return Outcome {
                    reply: Some(
                        RespDataType::SimpleError(lit_bytes("ERR DISCARD without MULTI")).encode(),
                    ),
                    effect: Effect::Nothing,
                };
            }
        }
        if name_is(&name, "EXEC") {
            if session.in_multi {
                let ghost repl0 = state.replication;
                let ghost cfg0 = state.config;
                let mut replies: Vec<RespDataType> = Vec::new();
                let mut i: usize = 0;
                let n = session.queued.len();
                proof {
                    assert(q0.skip(0) =~= q0);
                }
                while i < n
                    invariant
                        i <= n,
                        n == session.queued@.len(),
                        session.queued.deep_view() == q0,
                        state.replication == repl0,
                        state.config == cfg0,
                        replies@.len() == i,
                        run_queue(stq, q0, now).0 == run_queue(
                            StateG { store: state.store@, ..stq },
                            q0.skip(i as int),
                            now,
                        ).0,
                        run_queue(stq, q0, now).1 == crate::codec::view_list(replies@)
                            + run_queue(
                            StateG { store: state.store@, ..stq },
                            q0.skip(i as int),
                            now,
                        ).1,
                    decreases n - i,
                {
                    let ghost cur = StateG { store: state.store@, ..stq };
                    proof {
                        assert(q0[i as int] == session.queued@[i as int].deep_view());
                        assert(q0.skip(i as int)[0] == q0[i as int]);
                        assert(state@ =~= cur);
                    }
                    let cmd_i = &session.queued[i];
                    let rep = run_simple(state, cmd_i, now);
                    let ghost oldreplies = replies@;
                    replies.push(rep);
                    i = i + 1;
                    proof {
                        crate::codec::lemma_view_list_push(oldreplies, rep);
                        assert(q0.skip(i as int - 1).drop_first() =~= q0.skip(i as int));
                        let nxt = StateG { store: state.store@, ..stq };
                        assert(step(cur, q0[i - 1], now).0 == state.store@);
                        assert(StateG { store: step(cur, q0.skip(i as int - 1)[0], now).0, ..cur }
                            =~= nxt);
                        assert(crate::codec::view_list(replies@) =~= crate::codec::view_list(
                            oldreplies,
                        ) + seq![rep@]);
                    }
                }
                proof {
                    assert(q0.skip(n as int) =~= Seq::<Seq<Seq<u8>>>::empty());
                    assert(run_queue(StateG { store: state.store@, ..stq }, q0.skip(n as int), now)
                        == (state.store@, Seq::<RespG>::empty()));
                    assert(crate::codec::view_list(replies@) + Seq::<RespG>::empty()
                        =~= crate::codec::view_list(replies@));
                }
                let reply_bytes = RespDataType::Array(replies).encode();
                session.in_multi = false;
                session.queued = Vec::new();
                proof {
                    assert(session.queued.deep_view() =~~= Seq::<Seq<Seq<u8>>>::empty());
                }
                proof {
                reveal(exec_spec);
            }
            return Outcome { reply: Some(reply_bytes), effect: Effect::Nothing };
            } else {
                proof {
                reveal(exec_spec);
            }
            return Outcome {
                    reply: Some(
                        RespDataType::SimpleError(lit_bytes("ERR EXEC without MULTI")).encode(),
                    ),
                    effect: Effect::Nothing,
                };
            }
        }
        proof {
            reveal(exec_spec);
        }
        let o = dispatch_conn(
            commands,
            state,
            Ghost(session.in_multi),
            Ghost(session.queued.deep_view()),
            link,
            quiet,
            now,
        );
        o
    }
}

/// The connection-level commands, after transaction handling.
#[verifier::loop_isolation(false)]
#[verifier::rlimit(100)]
fn dispatch_conn(
    commands: &Vec<Vec<u8>>,
    state: &mut State,
    Ghost(inm): Ghost<bool>,
    Ghost(q): Ghost<Seq<Seq<Seq<u8>>>>,
    link: Option<u64>,
    quiet: bool,
    now: u64,
) -> (o: Outcome)
    requires
        old(state).replication.wf(),
        commands.len() >= 1,
    ensures
        final(state).replication.wf(),
        final(state).config == old(state).config,
        ({
            let out = conn_spec(old(state)@, inm, q, commands.deep_view(), now, quiet, link);
            &&& out.in_multi == inm
            &&& out.queued == q
            &&& final(state).store@ == out.store
            &&& final(state).replication.offset == out.offset
            &&& final(state).replication.replicas@ == out.replicas
            &&& final(state).replication.next_id == out.next_id
            &&& (match o.reply {
                Some(b) => out.reply == Some(b@),
                None => out.reply is None,
            })
            &&& o.effect@ == out.effect
        }),
{
    let ghost cmdv = commands.deep_view();
    let ghost stq = old(state)@;
    proof {
        assert(cmdv[0] == commands@[0]@);
    }
    let name = to_upper(&commands[0]);
    if name_is(&name, "REPLCONF") {
        if commands.len() >= 2 {
            proof {
                assert(cmdv[1] == commands@[1]@);
            }
            let sub = to_upper(&commands[1]);
            if name_is(&sub, "LISTENING-PORT") || name_is(&sub, "CAPA") {
                proof { reveal(conn_spec); }
                return Outcome {
                    reply: Some(RespDataType::SimpleString(lit_bytes("OK")).encode()),
                    effect: Effect::Nothing,
                };
            } else if name_is(&sub, "GETACK") {
                let mut items: Vec<RespDataType> = Vec::new();
                items.push(RespDataType::BulkString(lit_bytes("REPLCONF")));
                items.push(RespDataType::BulkString(lit_bytes("ACK")));
                items.push(
                    RespDataType::BulkString(crate::num::format_u64(state.replication.offset)),
                );
                proof {
                    crate::codec::lemma_view_list(items@);
                    assert(items@.len() == 3);
                    assert(crate::codec::view_list(items@)[0] == items@[0]@);
                    assert(crate::codec::view_list(items@)[1] == items@[1]@);
                    assert(crate::codec::view_list(items@)[2] == items@[2]@);
                    assert(crate::codec::view_list(items@) =~= seq![
                        RespG::Bulk(("REPLCONF").spec_bytes()),
                        RespG::Bulk(("ACK").spec_bytes()),
                        RespG::Bulk(dec_rep(stq.offset as nat)),
                    ]);
                }
                proof { reveal(conn_spec); }
                return Outcome {
                    reply: Some(RespDataType::Array(items).encode()),
                    effect: Effect::Nothing,
                };
            } else if name_is(&sub, "ACK") {
                if commands.len() >= 3 {
                    proof {
                        assert(cmdv[2] == commands@[2]@);
                    }
                    match parse_u64(&commands[2]) {
                        Some(v) => {
                            if v <= state.replication.offset {
                                match link {
                                    Some(id) => {
                                        state.replication.update_replica_ack(id, v);
                                        proof { reveal(conn_spec); }
                return Outcome {
                                            reply: None,
                                            effect: Effect::Nothing,
                                        };
                                    },
                                    None => {
                                        proof { reveal(conn_spec); }
                return Outcome {
                                            reply: None,
                                            effect: Effect::Nothing,
                                        };
                                    },
                                }
                            } else {
                                proof { reveal(conn_spec); }
                return Outcome { reply: None, effect: Effect::Nothing };
                            }
                        },
                        None => {
                            proof { reveal(conn_spec); }
                return Outcome { reply: None, effect: Effect::Nothing };
                        },
                    }
                } else {
                    proof { reveal(conn_spec); }
                return Outcome { reply: None, effect: Effect::Nothing };
                }
            } else {
                proof { reveal(conn_spec); }
                return Outcome { reply: None, effect: Effect::Nothing };
            }
        } else {
            proof { reveal(conn_spec); }
                return Outcome { reply: None, effect: Effect::Nothing };
        }
    }
    if name_is(&name, "PSYNC") {
        if state.replication.next_id < u64::MAX {
            let id = state.replication.add_replica();
            let mut b = RespDataType::SimpleString(
                lit_bytes("FULLRESYNC 8371b4fb1155b71f4a04d3e1bc3e18c4a990aeeb 0"),
            ).encode();
            b.push(36);
            let rdb = crate::repl::empty_rdb();
            let mut lenb = crate::num::format_u64(rdb.len() as u64);
            b.append(&mut lenb);
            b.push(13);
            b.push(10);
            let mut rdbm = rdb;
            b.append(&mut rdbm);
            proof {
                assert(b@ =~= psync_reply());
            }
            proof { reveal(conn_spec); }
                return Outcome { reply: Some(b), effect: Effect::RegisterReplica(id) };
        } else {
            proof { reveal(conn_spec); }
                return Outcome {
                reply: Some(
                    RespDataType::SimpleError(
                        lit_bytes("ERR replica registry exhausted"),
                    ).encode(),
                ),
                effect: Effect::Nothing,
            };
        }
    }
    if name_is(&name, "WAIT") && state.replication.offset != 0 {
        let needed: usize = if commands.len() >= 2 {
            proof {
                assert(cmdv[1] == commands@[1]@);
            }
            match parse_u64(&commands[1]) {
                Some(v) => {
                    if v <= usize::MAX as u64 {
                        v as usize
                    } else {
                        0
                    }
                },
                None => 0,
            }
        } else {
            0
        };
        let tmo: u64 = if commands.len() >= 3 {
            proof {
                assert(cmdv[2] == commands@[2]@);
            }
            match parse_u64(&commands[2]) {
                Some(v) => v,
                None => 0,
            }
        } else {
            0
        };
        let lag = state.replication.lagging_replicas(state.replication.offset);
        proof { reveal(conn_spec); }
                return Outcome {
            reply: None,
            effect: Effect::Wait(WaitInfo { needed, timeout_ms: tmo, getack: lag }),
        };
    }
    dispatch_conn_tail(commands, state, Ghost(inm), Ghost(q), link, quiet, now)
}

/// Whether this is a `CONFIG GET` naming neither directory setting: the
/// connection-fatal case.
fn is_bad_config(commands: &Vec<Vec<u8>>, name: &Vec<u8>) -> (r: bool)
    requires
        commands.len() >= 1,
    ensures
        r == ({
            let cmdv = commands.deep_view();
            &&& name@ == ("CONFIG").spec_bytes()
            &&& cmdv.len() >= 3
            &&& upper(cmdv[1]) == ("GET").spec_bytes()
            &&& upper(cmdv[2]) != ("DIR").spec_bytes()
            &&& upper(cmdv[2]) != ("DBFILENAME").spec_bytes()
        }),
{
    if name_is(name, "CONFIG") && commands.len() >= 3 {
        proof {
            assert(commands.deep_view()[1] == commands@[1]@);
            assert(commands.deep_view()[2] == commands@[2]@);
        }
        let sub = to_upper(&commands[1]);
        if name_is(&sub, "GET") {
            let pkey = to_upper(&commands[2]);
            !name_is(&pkey, "DIR") && !name_is(&pkey, "DBFILENAME")
        } else {
            false
        }
    } else {
        false
    }
}

/// The rest of the connection-level commands: the blocking plans, the
/// configuration check, and the snapshot-level set.
#[verifier::loop_isolation(false)]
#[verifier::rlimit(100)]
fn dispatch_conn_tail(
    commands: &Vec<Vec<u8>>,
    state: &mut State,
    Ghost(inm): Ghost<bool>,
    Ghost(q): Ghost<Seq<Seq<Seq<u8>>>>,
    link: Option<u64>,
    quiet: bool,
    now: u64,
) -> (o: Outcome)
    requires
        old(state).replication.wf(),
        commands.len() >= 1,
        upper(commands.deep_view()[0]) != ("REPLCONF").spec_bytes(),
        upper(commands.deep_view()[0]) != ("PSYNC").spec_bytes(),
        !(upper(commands.deep_view()[0]) == ("WAIT").spec_bytes() && old(
            state,
        ).replication.offset != 0),
    ensures
        final(state).replication.wf(),
        final(state).config == old(state).config,
        ({
            let out = conn_spec(old(state)@, inm, q, commands.deep_view(), now, quiet, link);
            &&& out.in_multi == inm
            &&& out.queued == q
            &&& final(state).store@ == out.store
            &&& final(state).replication.offset == out.offset
            &&& final(state).replication.replicas@ == out.replicas
            &&& final(state).replication.next_id == out.next_id
            &&& (match o.reply {
                Some(b) => out.reply == Some(b@),
                None => out.reply is None,
            })
            &&& o.effect@ == out.effect
        }),
{
    let ghost cmdv = commands.deep_view();
    let ghost stq = old(state)@;
    proof {
        assert(cmdv[0] == commands@[0]@);
    }
    let name = to_upper(&commands[0]);
    if name_is(&name, "BLPOP") {
        if commands.len() != 3 {
            proof { reveal(conn_spec); }
                return Outcome {
                reply: Some(wrong_args("BLPOP").encode()),
                effect: Effect::Nothing,
            };
        }
        proof {
            assert(cmdv[1] == commands@[1]@);
            assert(cmdv[2] == commands@[2]@);
        }
        match parse_timeout_ms(&commands[2]) {
            None => {
                proof { reveal(conn_spec); }
                return Outcome {
                    reply: Some(
                        RespDataType::SimpleError(
                            lit_bytes("ERR timeout is not a float"),
                        ).encode(),
                    ),
                    effect: Effect::Nothing,
                };
            },
            Some(t) => {
                match state.store.lpop(&commands[1]) {
                    Some(v) => {
                        let mut items: Vec<RespDataType> = Vec::new();
                        items.push(RespDataType::BulkString(clone_bytes(&commands[1])));
                        items.push(RespDataType::BulkString(v));
                        proof {
                            crate::codec::lemma_view_list(items@);
                            assert(items@.len() == 2);
                            assert(crate::codec::view_list(items@)[0] == items@[0]@);
                            assert(crate::codec::view_list(items@)[1] == items@[1]@);
                            assert(crate::codec::view_list(items@) =~= seq![
                                RespG::Bulk(cmdv[1]),
                                RespG::Bulk(items@[1]@->Bulk_0),
                            ]);
                        }
                        proof { reveal(conn_spec); }
                return Outcome {
                            reply: Some(RespDataType::Array(items).encode()),
                            effect: Effect::Nothing,
                        };
                    },
                    None => {
                        proof { reveal(conn_spec); }
                return Outcome {
                            reply: None,
                            effect: Effect::BlockList(
                                BlockListInfo { key: clone_bytes(&commands[1]), timeout_ms: t },
                            ),
                        };
                    },
                }
            },
        }
    }
    let xread_block = if name_is(&name, "XREAD") && commands.len() >= 2 {
        proof {
            assert(cmdv[1] == commands@[1]@);
        }
        let sub = to_upper(&commands[1]);
        name_is(&sub, "BLOCK")
    } else {
        false
    };
    if xread_block {
        let r = run_xread(&state.store, commands);
        match r {
            RespDataType::Nil => {
                let tmo: u64 = if commands.len() >= 3 {
                    proof {
                        assert(cmdv[2] == commands@[2]@);
                    }
                    match parse_u64(&commands[2]) {
                        Some(v) => v,
                        None => 0,
                    }
                } else {
                    0
                };
                let plan = xread_block_plan(&state.store, commands);
                proof { reveal(conn_spec); }
                return Outcome {
                    reply: None,
                    effect: Effect::BlockStreams(
                        BlockStreamsInfo { pairs: plan, timeout_ms: tmo, forever: tmo == 0 },
                    ),
                };
            },
            other => {
                proof {
                    reveal(conn_spec);
                    assert(!(other@ is Nil));
                }
                if is_bad_config(commands, &name) {
                    return Outcome { reply: None, effect: Effect::Close };
                }
                return dispatch_plain(commands, state, Ghost(inm), Ghost(q), quiet, now);
            },
        }
    }
    let cfg_bad = is_bad_config(commands, &name);
    if cfg_bad {
        proof {
            reveal(conn_spec);
        }
        return Outcome { reply: None, effect: Effect::Close };
    }
    proof {
        reveal(conn_spec);
    }
    dispatch_plain(commands, state, Ghost(inm), Ghost(q), quiet, now)
}

/// The snapshot-level commands with suppression and propagation.
#[verifier::loop_isolation(false)]
#[verifier::rlimit(100)]
fn dispatch_plain(
    commands: &Vec<Vec<u8>>,
    state: &mut State,
    Ghost(inm): Ghost<bool>,
    Ghost(q): Ghost<Seq<Seq<Seq<u8>>>>,
    quiet: bool,
    now: u64,
) -> (o: Outcome)
    requires
        old(state).replication.wf(),
        commands.len() >= 1,
    ensures
        final(state).replication.wf(),
        final(state).config == old(state).config,
        ({
            let out = plain_spec(old(state)@, inm, q, commands.deep_view(), now, quiet);
            &&& out.in_multi == inm
            &&& out.queued == q
            &&& final(state).store@ == out.store
            &&& final(state).replication.offset == out.offset
            &&& final(state).replication.replicas@ == out.replicas
            &&& final(state).replication.next_id == out.next_id
            &&& (match o.reply {
                Some(b) => out.reply == Some(b@),
                None => out.reply is None,
            })
            &&& o.effect@ == out.effect
        }),
{
    proof {
        reveal(plain_spec);
    }
    let ghost cmdv = commands.deep_view();
    let ghost stq = old(state)@;
    proof {
        assert(cmdv[0] == commands@[0]@);
    }
    let name = to_upper(&commands[0]);
    let rep = run_simple(state, commands, now);
    let suppress = quiet && (name_is(&name, "PING") || name_is(&name, "SET") || name_is(
        &name,
        "INCR",
    ) || name_is(&name, "RPUSH") || name_is(&name, "LPUSH") || name_is(&name, "LPOP")
        || name_is(&name, "XADD"));
    let reply: Option<Vec<u8>> = if suppress {
        None
    } else {
        Some(rep.encode())
    };
    let is_err = match &rep {
        RespDataType::SimpleError(_) => true,
        _ => false,
    };
    let wr = name_is(&name, "SET") || name_is(&name, "INCR") || name_is(&name, "RPUSH")
        || name_is(&name, "LPUSH") || name_is(&name, "LPOP") || name_is(&name, "XADD");
    proof {
        reveal(plain_spec);
    }
    if matches!(state.config.role, Role::Master) && wr && !is_err {
        let copy = clone_range(commands, 0);
        proof {
            assert(copy.deep_view() =~~= cmdv);
        }
        let frame = bulks_of(copy).encode();
        let room = u64::MAX - state.replication.offset;
        let b = if frame.len() as u64 <= room {
            frame.len() as u64
        } else {
            room
        };
        state.replication.increment_offset(b);
        Outcome { reply, effect: Effect::Propagate(frame) }
    } else {
        Outcome { reply, effect: Effect::Nothing }
    }
}

/// The resolved blocking plan of a tail read whose first pass found
/// nothing: each stream's key with its lower bound.
#[verifier::loop_isolation(false)]
fn xread_block_plan(store: &DataStorage, cmd: &Vec<Vec<u8>>) -> (r: Vec<(Vec<u8>, StreamId)>)
    requires
        cmd.len() >= 2,
        spec_xread_reply(store@, cmd.deep_view()) == RespG::Nil,
        upper(cmd.deep_view()[1]) == ("BLOCK").spec_bytes(),
    ensures
        r.deep_view() == xread_pairs(
            store@,
            cmd.deep_view().skip(4),
            cmd.deep_view().skip(4).len() as int / 2,
        ),
{
    let ghost m = store@;
    let ghost cmdv = cmd.deep_view();
    let ghost rest = cmdv.skip(4);
    let ghost halfi = rest.len() as int / 2;
    proof {
        reveal(spec_xread_reply);
        if cmdv.len() <= 3 || upper(cmdv[3]) != ("STREAMS").spec_bytes() {
            assert(spec_xread_reply(m, cmdv) == msg_wrong_args(("XREAD").spec_bytes()));
            assert(false);
        }
        if rest.len() == 0 || rest.len() % 2 != 0 {
            assert(spec_xread_reply(m, cmdv) == msg_unbalanced());
            assert(false);
        }
        if !xread_ok(m, rest, halfi) {
            assert(spec_xread_reply(m, cmdv) == msg_bad_id());
            assert(false);
        }
    }
    let half = (cmd.len() - 4) / 2;
    let mut out: Vec<(Vec<u8>, StreamId)> = Vec::new();
    let mut i: usize = 0;
    while i < half
        invariant
            i <= half,
            out@.len() == i,
            out.deep_view() =~~= xread_pairs(m, rest, halfi).subrange(0, i as int),
        decreases half - i,
    {
        let keyi = 4 + i;
        let toki = 4 + half + i;
        proof {
            assert(cmdv[keyi as int] == cmd@[keyi as int]@);
            assert(cmdv[toki as int] == cmd@[toki as int]@);
            assert(rest[i as int] == cmdv[keyi as int]);
            assert(rest[halfi + i] == cmdv[toki as int]);
        }
        let tok = &cmd[toki];
        let a: StreamId = if tok.len() == 1 && tok[0] == 36 {
            proof {
                assert(cmdv[toki as int] =~= seq![36u8]);
            }
            match store.get_stream(&cmd[keyi]) {
                Some(es) => {
                    if es.len() > 0 {
                        proof {
                            assert(es.deep_view().last() == es@.last()@);
                        }
                        es[es.len() - 1].id
                    } else {
                        proof {
                            assert(es.deep_view().len() == 0);
                        }
                        StreamId { ms: 0, seq: 0 }
                    }
                },
                None => {
                    proof {
                        assert(stream_at(m, rest[i as int]) =~= Seq::<EntryG>::empty());
                    }
                    StreamId { ms: 0, seq: 0 }
                },
            }
        } else {
            proof {
                if cmdv[toki as int] == seq![36u8] {
                    assert(cmd@[toki as int]@.len() == 1 && cmd@[toki as int]@[0] == 36);
                    assert(false);
                }
                assert(xread_after(m, rest[i as int], rest[halfi + i]) is Some);
            }
            match crate::streams::parse_point(tok) {
                Some(p) => p,
                None => {
                    proof {
                        assert(false);
                    }
                    StreamId { ms: 0, seq: 0 }
                },
            }
        };
        out.push((clone_bytes(&cmd[keyi]), a));
        i = i + 1;
        proof {
            assert(out.deep_view() =~~= xread_pairs(m, rest, halfi).subrange(0, i as int));
        }
    }
    proof {
        assert(xread_pairs(m, rest, halfi).subrange(0, halfi) =~= xread_pairs(m, rest, halfi));
    }
    out
}

} // verus!

// Polling a blocked tail read.

verus! {

/// The per-stream reply items of a blocked read's poll.
pub open spec fn poll_items(
    m: Seq<(Seq<u8>, StoredG)>,
    ps: Seq<(Seq<u8>, StreamId)>,
    i: int,
) -> Seq<RespG>
    decreases ps.len() - i,
{
    if i < 0 || i >= ps.len() {
        Seq::empty()
    } else {
        let sel = spec_xafter(stream_at(m, ps[i].0), ps[i].1);
        (if sel.len() > 0 {
            seq![RespG::Arr(seq![RespG::Bulk(ps[i].0), RespG::Arr(entries_resp(sel))])]
        } else {
            Seq::empty()
        }) + poll_items(m, ps, i + 1)
    }
}

/// One poll of a blocked tail read: the reply once any stream has new
/// entries past its bound, or nothing yet.
#[verifier::loop_isolation(false)]
#[verifier::rlimit(100)]
pub fn xread_attempt(store: &DataStorage, pairs: &Vec<(Vec<u8>, StreamId)>) -> (r: Option<
    RespDataType,
>)
    ensures
        match r {
            Some(v) => v@ == RespG::Arr(poll_items(store@, pairs.deep_view(), 0)) && poll_items(
                store@,
                pairs.deep_view(),
                0,
            ).len() > 0,
            None => poll_items(store@, pairs.deep_view(), 0).len() == 0,
        },
{
    let ghost m = store@;
    let ghost ps = pairs.deep_view();
    let mut items: Vec<RespDataType> = Vec::new();
    let mut i: usize = 0;
    let n = pairs.len();
    while i < n
        invariant
            i <= n,
            n == ps.len(),
            crate::codec::view_list(items@) + poll_items(m, ps, i as int) == poll_items(m, ps, 0),
        decreases n - i,
    {
        proof {
            assert(ps[i as int].0 == pairs@[i as int].0@);
            assert(ps[i as int].1 == pairs@[i as int].1);
        }
        let key = &pairs[i].0;
        let after = pairs[i].1;
        let sel: Vec<crate::store::StreamEntry> = match store.get_stream(key) {
            Some(es) => crate::streams::xafter_entries(es, after),
            None => {
                proof {
                    assert(stream_at(m, ps[i as int].0) =~= Seq::<EntryG>::empty());
                    assert(spec_xafter(Seq::<EntryG>::empty(), after) == Seq::<EntryG>::empty());
                }
                Vec::new()
            },
        };
        proof {
            assert(sel.deep_view() =~~= spec_xafter(stream_at(m, ps[i as int].0), ps[i as int].1));
        }
        let ghost head = poll_items(m, ps, i as int);
        let ghost tailitems = poll_items(m, ps, i as int + 1);
        if sel.len() > 0 {
            let mut sub: Vec<RespDataType> = Vec::new();
            sub.push(RespDataType::BulkString(clone_bytes(key)));
            sub.push(entries_to_resp(&sel));
            proof {
                crate::codec::lemma_view_list(sub@);
                assert(sub@.len() == 2);
                assert(crate::codec::view_list(sub@)[0] == sub@[0]@);
                assert(crate::codec::view_list(sub@)[1] == sub@[1]@);
                assert(crate::codec::view_list(sub@) =~= seq![
                    RespG::Bulk(ps[i as int].0),
                    RespG::Arr(entries_resp(sel.deep_view())),
                ]);
            }
            let ghost olditems = items@;
            items.push(RespDataType::Array(sub));
            proof {
                crate::codec::lemma_view_list_push(olditems, RespDataType::Array(sub));
                assert(head == seq![
                    RespG::Arr(
                        seq![
                            RespG::Bulk(ps[i as int].0),
                            RespG::Arr(
                                entries_resp(
                                    spec_xafter(stream_at(m, ps[i as int].0), ps[i as int].1),
                                ),
                            ),
                        ],
                    ),
                ] + tailitems);
                assert(crate::codec::view_list(items@) + tailitems =~= poll_items(m, ps, 0));
            }
        } else {
            proof {
                assert(head == tailitems);
            }
        }
        i = i + 1;
    }
    proof {
        assert(poll_items(m, ps, n as int) == Seq::<RespG>::empty());
        assert(crate::codec::view_list(items@) + Seq::<RespG>::empty()
            =~= crate::codec::view_list(items@));
        assert(crate::codec::view_list(items@) == poll_items(m, ps, 0));
        crate::codec::lemma_view_list(items@);
    }
    if items.len() == 0 {
        None
    } else {
        Some(RespDataType::Array(items))
    }
}

} // verus!

// The frame loop: one step of the per-connection state machine.

verus! {

/// What one look at the pending buffer produced: a dispatched command, a
/// consumed non-command frame, a wait for more bytes, or corruption that
/// ends the connection.
pub enum FeedResult {
    Dispatched(Outcome),
    Skipped,
    NeedMore,
    Corrupt,
}

impl CommandExecutor {
    /// One step of the connection loop: when the buffer starts with a
    /// complete frame, drains it and dispatches its command; a frame
    /// without bulk-string arguments (a reply line) is only drained. The
    /// caller reads more bytes on `NeedMore` and drops the connection on
    /// `Corrupt`.
    #[verifier::loop_isolation(false)]
    #[verifier::rlimit(100)]
    pub fn feed(
        &mut self,
        pending: &mut Vec<u8>,
        state: &mut State,
        session: &mut Session,
        link: Option<u64>,
        quiet: bool,
        now: u64,
    ) -> (r: FeedResult)
        requires
            old(state).replication.wf(),
        ensures
            final(state).replication.wf(),
            final(state).config == old(state).config,
            ({
                match crate::frame::scan_frame(old(pending)@) {
                    crate::frame::ScanG::Complete(n) => {
                        let frame = old(pending)@.subrange(0, n);
                        &&& final(pending)@ == old(pending)@.skip(n)
                        &&& (match crate::parser::parse_args(frame, 0) {
                            Some(args) => {
                                if args.len() == 0 {
                                    r is Skipped && *final(state) == *old(state)
                                        && *final(session) == *old(session)
                                } else {
                                    match r {
                                        FeedResult::Dispatched(o) => {
                                            let out = exec_spec(
                                                old(state)@,
                                                old(session).in_multi,
                                                old(session).queued.deep_view(),
                                                args,
                                                now,
                                                quiet,
                                                n as u64,
                                                link,
                                            );
                                            &&& final(state).store@ == out.store
                                            &&& final(state).replication.offset == out.offset
                                            &&& final(state).replication.replicas@ == out.replicas
                                            &&& final(state).replication.next_id == out.next_id
                                            &&& final(session).in_multi == out.in_multi
                                            &&& final(session).queued.deep_view() == out.queued
                                            &&& (match o.reply {
                                                Some(b) => out.reply == Some(b@),
                                                None => out.reply is None,
                                            })
                                            &&& o.effect@ == out.effect
                                        },
                                        _ => false,
                                    }
                                }
                            },
                            None => r is Corrupt,
                        })
                    },
                    crate::frame::ScanG::Incomplete => r is NeedMore
                        && final(pending)@ == old(pending)@ && *final(state) == *old(state)
                        && *final(session) == *old(session),
                    crate::frame::ScanG::Malformed => r is Corrupt
                        && final(pending)@ == old(pending)@ && *final(state) == *old(state)
                        && *final(session) == *old(session),
                }
            }),
    {
        let n = match crate::frame::find_complete_frame(pending) {
            crate::frame::FrameScan::Complete(n) => n,
            crate::frame::FrameScan::Incomplete => {
                return FeedResult::NeedMore;
            },
            crate::frame::FrameScan::Malformed => {
                return FeedResult::Corrupt;
            },
        };
        let frame = crate::bytes::sub_bytes(pending, 0, n);
        let rest = crate::bytes::sub_bytes(pending, n, pending.len());
        *pending = rest;
        let mut parser = crate::parser::Parser {};
        match parser.parse(&frame) {
            Some(commands) => {
                if commands.len() == 0 {
                    FeedResult::Skipped
                } else {
                    proof {
                        assert(commands.deep_view()
                            == crate::parser::parse_args(frame@, 0)->0);
                    }
                    let o = self.execute(&commands, state, session, link, quiet, n as u64, now);
                    FeedResult::Dispatched(o)
                }
            },
            None => FeedResult::Corrupt,
        }
    }
}

} // verus!
