use vstd::prelude::*;
use vstd::string::StringSliceAdditionalSpecFns;

use crate::bytes::lit_bytes;

verus! {

/// One live replica connection, as the registry sees it: its handle and the
/// largest propagation offset it has confirmed.
#[derive(Clone, Copy, PartialEq, Eq, Structural)]
pub struct Replica {
    pub id: u64,
    pub last_ack: u64,
}

/// The primary's replication ledger: the live replicas and the number of
/// command-stream bytes broadcast so far.
pub struct ReplicationState {
    pub replicas: Vec<Replica>,
    pub offset: u64,
    pub next_id: u64,
}

/// The index of the first replica with identifier `id`, or `-1`.
pub open spec fn rep_index(rs: Seq<Replica>, id: u64) -> int
    decreases rs.len(),
{
    if rs.len() == 0 {
        -1
    } else if rs[0].id == id {
        0
    } else {
        let r = rep_index(rs.drop_first(), id);
        if r < 0 {
            -1
        } else {
            r + 1
        }
    }
}

/// How many replicas have confirmed at least `target`.
pub open spec fn spec_count_acked(rs: Seq<Replica>, target: u64) -> int
    decreases rs.len(),
{
    if rs.len() == 0 {
        0int
    } else {
        (if rs[0].last_ack >= target {
            1int
        } else {
            0int
        }) + spec_count_acked(rs.drop_first(), target)
    }
}

/// Counting a longer prefix counts at most one more.
pub proof fn lemma_count_acked_snoc(rs: Seq<Replica>, r: Replica, target: u64)
    ensures
        spec_count_acked(rs.push(r), target) == spec_count_acked(rs, target) + (
        if r.last_ack >= target {
            1int
        } else {
            0int
        }),
    decreases rs.len(),
{
    if rs.len() == 0 {
        assert(rs.push(r)[0] == r);
        assert(rs.push(r).drop_first() =~= Seq::<Replica>::empty());
        assert(spec_count_acked(Seq::<Replica>::empty(), target) == 0);
    } else {
        lemma_count_acked_snoc(rs.drop_first(), r, target);
        assert(rs.push(r).drop_first() =~= rs.drop_first().push(r));
        assert(rs.push(r)[0] == rs[0]);
    }
}

impl ReplicationState {
    /// Every live replica's confirmed offset stays within what was
    /// broadcast, and identifiers are fresh and distinct.
    pub open spec fn wf(self) -> bool {
        &&& forall|i: int|
            0 <= i < self.replicas@.len() ==> (#[trigger] self.replicas@[i]).last_ack
                <= self.offset
        &&& forall|i: int|
            0 <= i < self.replicas@.len() ==> (#[trigger] self.replicas@[i]).id < self.next_id
        &&& forall|i: int, j: int|
            0 <= i < j < self.replicas@.len() ==> (#[trigger] self.replicas@[i]).id != (
            #[trigger] self.replicas@[j]).id
    }

    /// A fresh ledger: no replicas, nothing broadcast.
    pub fn new() -> (r: ReplicationState)
        ensures
            r.wf(),
            r.replicas@ == Seq::<Replica>::empty(),
            r.offset == 0,
    {
        let r = ReplicationState { replicas: Vec::new(), offset: 0, next_id: 0 };
        proof {
            assert(r.replicas@ =~= Seq::<Replica>::empty());
        }
        r
    }

    /// Registers a new replica with nothing confirmed; returns its handle.
    pub fn add_replica(&mut self) -> (r: u64)
        requires
            old(self).wf(),
            old(self).next_id < u64::MAX,
        ensures
            final(self).wf(),
            final(self).replicas@ == old(self).replicas@.push(Replica { id: r, last_ack: 0 }),
            final(self).offset == old(self).offset,
            final(self).next_id == old(self).next_id + 1,
            r == old(self).next_id,
    {
        let id = self.next_id;
        self.next_id = self.next_id + 1;
        self.replicas.push(Replica { id, last_ack: 0 });
        id
    }

    /// Drops the replica behind `id`, if it is still registered.
    #[verifier::loop_isolation(false)]
    pub fn remove_replica(&mut self, id: u64)
        requires
            old(self).wf(),
        ensures
            final(self).wf(),
            final(self).offset == old(self).offset,
            final(self).next_id == old(self).next_id,
            ({
                let i = rep_index(old(self).replicas@, id);
                if i < 0 {
                    final(self).replicas@ == old(self).replicas@
                } else {
                    final(self).replicas@ == old(self).replicas@.remove(i)
                }
            }),
    {
        let ghost rs = self.replicas@;
        let mut j: usize = 0;
        while j < self.replicas.len()
            invariant
                j <= self.replicas@.len(),
                *self == *old(self),
                self.replicas@ == rs,
                forall|t: int| 0 <= t < j ==> (#[trigger] rs[t]).id != id,
            decreases self.replicas.len() - j,
        {
            if self.replicas[j].id == id {
                self.replicas.remove(j);
                proof {
                    lemma_rep_index_at(rs, id, j as int);
                    assert forall|t: int| 0 <= t < self.replicas@.len() implies (
                    #[trigger] self.replicas@[t]).last_ack <= self.offset && self.replicas@[t].id
                        < self.next_id by {
                        if t < j {
                            assert(self.replicas@[t] == rs[t]);
                        } else {
                            assert(self.replicas@[t] == rs[t + 1]);
                        }
                    }
                    assert forall|t: int, u: int|
                        0 <= t < u < self.replicas@.len() implies (
                    #[trigger] self.replicas@[t]).id != (#[trigger] self.replicas@[u]).id by {
                        let t0 = if t < j { t } else { t + 1 };
                        let u0 = if u < j { u } else { u + 1 };
                        assert(self.replicas@[t] == rs[t0]);
                        assert(self.replicas@[u] == rs[u0]);
                    }
                }
                return ;
            }
            j = j + 1;
        }
        proof {
            lemma_rep_index_none(rs, id);
        }
    }

    /// Records that the replica behind `id` confirmed `ack` bytes. A correct
    /// replica never confirms more than was broadcast.
    #[verifier::loop_isolation(false)]
    pub fn update_replica_ack(&mut self, id: u64, ack: u64)
        requires
            old(self).wf(),
            ack <= old(self).offset,
        ensures
            final(self).wf(),
            final(self).offset == old(self).offset,
            final(self).next_id == old(self).next_id,
            ({
                let i = rep_index(old(self).replicas@, id);
                if i < 0 {
                    final(self).replicas@ == old(self).replicas@
                } else {
                    final(self).replicas@ == old(self).replicas@.update(
                        i,
                        Replica { id, last_ack: ack },
                    )
                }
            }),
    {
        let ghost rs = self.replicas@;
        let mut j: usize = 0;
        while j < self.replicas.len()
            invariant
                j <= self.replicas@.len(),
                *self == *old(self),
                self.replicas@ == rs,
                forall|t: int| 0 <= t < j ==> (#[trigger] rs[t]).id != id,
            decreases self.replicas.len() - j,
        {
            if self.replicas[j].id == id {
                self.replicas.remove(j);
                self.replicas.insert(j, Replica { id, last_ack: ack });
                proof {
                    lemma_rep_index_at(rs, id, j as int);
                    assert(self.replicas@ =~= rs.update(j as int, Replica { id, last_ack: ack }));
                }
                return ;
            }
            j = j + 1;
        }
        proof {
            lemma_rep_index_none(rs, id);
        }
    }

    /// Adds the broadcast length of one propagated command, exactly once.
    pub fn increment_offset(&mut self, n: u64)
        requires
            old(self).wf(),
            old(self).offset + n <= u64::MAX,
        ensures
            final(self).wf(),
            final(self).offset == old(self).offset + n,
            final(self).replicas@ == old(self).replicas@,
            final(self).next_id == old(self).next_id,
    {
        self.offset = self.offset + n;
    }

    /// How many replicas have confirmed at least `target` bytes.
    #[verifier::loop_isolation(false)]
    pub fn count_acked(&self, target: u64) -> (r: usize)
        ensures
            r == spec_count_acked(self.replicas@, target),
    {
        let mut c: usize = 0;
        let mut j: usize = 0;
        while j < self.replicas.len()
            invariant
                j <= self.replicas@.len(),
                c == spec_count_acked(self.replicas@.subrange(0, j as int), target),
                c <= j,
            decreases self.replicas.len() - j,
        {
            proof {
                lemma_count_acked_snoc(
                    self.replicas@.subrange(0, j as int),
                    self.replicas@[j as int],
                    target,
                );
                assert(self.replicas@.subrange(0, j as int).push(self.replicas@[j as int])
                    =~= self.replicas@.subrange(0, j as int + 1));
            }
            if self.replicas[j].last_ack >= target {
                c = c + 1;
            }
            j = j + 1;
        }
        proof {
            assert(self.replicas@.subrange(0, self.replicas@.len() as int) =~= self.replicas@);
        }
        c
    }

    /// What `WAIT` should answer right now: with nothing broadcast, every
    /// replica counts and the wait is over; otherwise the count of confirmed
    /// replicas, done once it reaches `needed`.
    pub fn wait_status(&self, needed: usize) -> (r: (usize, bool))
        ensures
            ({
                if self.offset == 0 {
                    r.0 == self.replicas@.len() && r.1
                } else {
                    r.0 == spec_count_acked(self.replicas@, self.offset) && (r.1 <==> r.0 as int
                        >= needed as int)
                }
            }),
    {
        if self.offset == 0 {
            (self.replicas.len(), true)
        } else {
            let c = self.count_acked(self.offset);
            (c, c >= needed)
        }
    }

    /// The identifiers of the replicas still short of `target`, in order.
    #[verifier::loop_isolation(false)]
    pub fn lagging_replicas(&self, target: u64) -> (r: Vec<u64>)
        ensures
            r@ == spec_lagging(self.replicas@, target),
    {
        let mut out: Vec<u64> = Vec::new();
        let mut j: usize = 0;
        while j < self.replicas.len()
            invariant
                j <= self.replicas@.len(),
                out@ == spec_lagging(self.replicas@.subrange(0, j as int), target),
            decreases self.replicas.len() - j,
        {
            proof {
                lemma_lagging_snoc(
                    self.replicas@.subrange(0, j as int),
                    self.replicas@[j as int],
                    target,
                );
                assert(self.replicas@.subrange(0, j as int).push(self.replicas@[j as int])
                    =~= self.replicas@.subrange(0, j as int + 1));
            }
            if self.replicas[j].last_ack < target {
                out.push(self.replicas[j].id);
            }
            j = j + 1;
        }
        proof {
            assert(self.replicas@.subrange(0, self.replicas@.len() as int) =~= self.replicas@);
        }
        out
    }
}

/// The identifiers of the replicas with `last_ack` below `target`, in order.
pub open spec fn spec_lagging(rs: Seq<Replica>, target: u64) -> Seq<u64>
    decreases rs.len(),
{
    if rs.len() == 0 {
        Seq::empty()
    } else {
        (if rs[0].last_ack < target {
            seq![rs[0].id]
        } else {
            Seq::empty()
        }) + spec_lagging(rs.drop_first(), target)
    }
}

/// Extending the registry extends the lagging list.
pub proof fn lemma_lagging_snoc(rs: Seq<Replica>, r: Replica, target: u64)
    ensures
        spec_lagging(rs.push(r), target) == spec_lagging(rs, target) + (if r.last_ack < target {
            seq![r.id]
        } else {
            Seq::<u64>::empty()
        }),
    decreases rs.len(),
{
    let tail = if r.last_ack < target {
        seq![r.id]
    } else {
        Seq::<u64>::empty()
    };
    if rs.len() == 0 {
        assert(rs.push(r)[0] == r);
        assert(rs.push(r).drop_first() =~= Seq::<Replica>::empty());
        assert(spec_lagging(Seq::<Replica>::empty(), target) == Seq::<u64>::empty());
        assert(spec_lagging(rs.push(r), target) =~= spec_lagging(rs, target) + tail);
    } else {
        lemma_lagging_snoc(rs.drop_first(), r, target);
        assert(rs.push(r).drop_first() =~= rs.drop_first().push(r));
        assert(rs.push(r)[0] == rs[0]);
        assert(spec_lagging(rs.push(r), target) =~= spec_lagging(rs, target) + tail);
    }
}

/// A replica position holding `id`, with no earlier match, is `rep_index`.
pub proof fn lemma_rep_index_at(rs: Seq<Replica>, id: u64, i: int)
    requires
        0 <= i < rs.len(),
        rs[i].id == id,
        forall|j: int| 0 <= j < i ==> (#[trigger] rs[j]).id != id,
    ensures
        rep_index(rs, id) == i,
    decreases i,
{
    if i > 0 {
        assert(rs[0].id != id);
        assert(rs.drop_first()[i - 1] == rs[i]);
        assert forall|j: int| 0 <= j < i - 1 implies (#[trigger] rs.drop_first()[j]).id != id by {
            assert(rs.drop_first()[j] == rs[j + 1]);
        }
        lemma_rep_index_at(rs.drop_first(), id, i - 1);
    }
}

/// With no match anywhere, `rep_index` is `-1`.
pub proof fn lemma_rep_index_none(rs: Seq<Replica>, id: u64)
    requires
        forall|j: int| 0 <= j < rs.len() ==> (#[trigger] rs[j]).id != id,
    ensures
        rep_index(rs, id) == -1,
    decreases rs.len(),
{
    if rs.len() > 0 {
        assert forall|j: int| 0 <= j < rs.len() - 1 implies (#[trigger] rs.drop_first()[j]).id
            != id by {
            assert(rs.drop_first()[j] == rs[j + 1]);
        }
        lemma_rep_index_none(rs.drop_first(), id);
    }
}

/// Every live replica's confirmed offset is bounded by the broadcast total.
pub proof fn lemma_ack_bounded(st: ReplicationState, i: int)
    requires
        st.wf(),
        0 <= i < st.replicas@.len(),
    ensures
        st.replicas@[i].last_ack <= st.offset,
{
}

// The replication wire helpers.

/// Whether a byte is a hexadecimal digit.
pub open spec fn is_hex(b: u8) -> bool {
    (48 <= b <= 57) || (97 <= b <= 102) || (65 <= b <= 70)
}

/// The value of one hexadecimal digit.
pub open spec fn hex_val(b: u8) -> u8 {
    if 48 <= b <= 57 {
        (b - 48) as u8
    } else if 97 <= b <= 102 {
        (b - 87) as u8
    } else if 65 <= b <= 70 {
        (b - 55) as u8
    } else {
        0
    }
}

/// Whether every byte of `s` is a hexadecimal digit.
pub open spec fn all_hex(s: Seq<u8>) -> bool {
    forall|i: int| 0 <= i < s.len() ==> is_hex(#[trigger] s[i])
}

/// The bytes a hexadecimal text denotes, two digits each.
pub open spec fn hex_decode_spec(s: Seq<u8>) -> Seq<u8> {
    Seq::new(s.len() / 2, |i: int| (hex_val(s[2 * i]) * 16 + hex_val(s[2 * i + 1])) as u8)
}

/// Relies on hex::decode: an even run of hexadecimal digits decodes to one
/// byte per digit pair, high digit first; anything else is refused.
#[verifier::external_body]
fn hex_decode(s: &Vec<u8>) -> (r: Result<Vec<u8>, ()>)
    ensures
        match r {
            Ok(v) => s@.len() % 2 == 0 && all_hex(s@) && v@ == hex_decode_spec(s@),
            Err(_) => !(s@.len() % 2 == 0 && all_hex(s@)),
        },
{
    match hex::decode(s.as_slice()) {
        Ok(v) => Ok(v),
        Err(_) => Err(()),
    }
}

/// The hexadecimal text of the empty snapshot sent after `FULLRESYNC`.
pub open spec fn spec_empty_rdb_hex() -> Seq<u8> {
    ("524544495330303131fa0972656469732d76657205372e322e30fa0a72656469732d62697473c040fa056374696d65c26d08bc65fa08757365642d6d656dc2b0c41000fa08616f662d62617365c000fff06e3bfec0ff5aa2").spec_bytes()
}

/// The empty snapshot's bytes, when its text is well formed.
pub open spec fn spec_empty_rdb() -> Seq<u8> {
    let h = spec_empty_rdb_hex();
    if h.len() % 2 == 0 && all_hex(h) {
        hex_decode_spec(h)
    } else {
        Seq::empty()
    }
}

/// The raw bytes of the empty snapshot a new replica is sent.
pub fn empty_rdb() -> (r: Vec<u8>)
    ensures
        r@ == spec_empty_rdb(),
{
    let h = lit_bytes(
        "524544495330303131fa0972656469732d76657205372e322e30fa0a72656469732d62697473c040fa056374696d65c26d08bc65fa08757365642d6d656dc2b0c41000fa08616f662d62617365c000fff06e3bfec0ff5aa2",
    );
    match hex_decode(&h) {
        Ok(v) => v,
        Err(_) => Vec::new(),
    }
}

} // verus!
