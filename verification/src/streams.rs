use vstd::prelude::*;

use crate::bytes::{clone_bytes, lemma_bytes_deep};
use crate::num::{all_digits, digits_val, parse_u64};
use crate::store::{
    id_lt, key_index, lookup, upsert, DataStorage, EntryG, ExpiringValue, StoredG, StreamEntry,
    StreamId, Value, ValueG,
};

verus! {

broadcast use lemma_bytes_deep;

/// How `XADD` names the entry to append: a full identifier, a time with the
/// sequence left open, or both left open.
#[derive(Clone, Copy, PartialEq, Eq, Structural)]
pub enum IdReq {
    Explicit(StreamId),
    AutoSeq(u64),
    Auto,
}

/// Why an append was refused.
#[derive(Clone, Copy, PartialEq, Eq, Structural, Debug)]
pub enum XaddError {
    ZeroId,
    NotGreater,
}

/// The position of the first `-` at or after `pos`, or the end.
pub open spec fn dash_pos(p: Seq<u8>, pos: int) -> int
    decreases p.len() - pos,
{
    if pos < 0 || pos >= p.len() {
        pos
    } else if p[pos] == 45 {
        pos
    } else {
        dash_pos(p, pos + 1)
    }
}

/// A stop position free of dashes before it is `dash_pos`.
pub proof fn lemma_dash_pos_stop(p: Seq<u8>, pos: int, k: int)
    requires
        0 <= pos <= k <= p.len(),
        forall|j: int| pos <= j < k ==> p[j] != 45,
        k < p.len() ==> p[k] == 45,
    ensures
        dash_pos(p, pos) == k,
    decreases k - pos,
{
    if pos < k {
        lemma_dash_pos_stop(p, pos + 1, k);
    }
}

/// Whether `s` is a decimal number fitting a `u64`.
pub open spec fn is_u64_digits(s: Seq<u8>) -> bool {
    s.len() >= 1 && all_digits(s) && digits_val(s) <= u64::MAX
}

/// The identifier request named by an `XADD` argument: `*`, `ms-*`, or
/// `ms-seq`.
pub open spec fn spec_parse_xadd_id(s: Seq<u8>) -> Option<IdReq> {
    if s == seq![42u8] {
        Some(IdReq::Auto)
    } else {
        let d = dash_pos(s, 0);
        if d >= s.len() {
            None
        } else {
            let msd = s.subrange(0, d);
            let rest = s.subrange(d + 1, s.len() as int);
            if !is_u64_digits(msd) {
                None
            } else if rest == seq![42u8] {
                Some(IdReq::AutoSeq(digits_val(msd) as u64))
            } else if is_u64_digits(rest) {
                Some(
                    IdReq::Explicit(
                        StreamId { ms: digits_val(msd) as u64, seq: digits_val(rest) as u64 },
                    ),
                )
            } else {
                None
            }
        }
    }
}

/// A range endpoint completed with `-0` when it names no sequence.
pub open spec fn spec_parse_point(s: Seq<u8>) -> Option<StreamId> {
    let d = dash_pos(s, 0);
    if d >= s.len() {
        if is_u64_digits(s) {
            Some(StreamId { ms: digits_val(s) as u64, seq: 0 })
        } else {
            None
        }
    } else {
        let msd = s.subrange(0, d);
        let rest = s.subrange(d + 1, s.len() as int);
        if is_u64_digits(msd) && is_u64_digits(rest) {
            Some(StreamId { ms: digits_val(msd) as u64, seq: digits_val(rest) as u64 })
        } else {
            None
        }
    }
}

/// The identifier the request resolves to against the stream's last entry:
/// `ms-*` continues the same instant or starts it (at one when the instant
/// is zero); `*` takes the clock, bumped to stay above the last entry.
/// `None` when the sequence cannot be bumped further.
pub open spec fn spec_resolve(last: Option<StreamId>, req: IdReq, now: u64) -> Option<StreamId> {
    match req {
        IdReq::Explicit(id) => Some(id),
        IdReq::AutoSeq(ms) => match last {
            Some(l) => if l.ms == ms {
                if l.seq < u64::MAX {
                    Some(StreamId { ms, seq: (l.seq + 1) as u64 })
                } else {
                    None
                }
            } else {
                Some(StreamId { ms, seq: if ms == 0 { 1 } else { 0 } })
            },
            None => Some(StreamId { ms, seq: if ms == 0 { 1 } else { 0 } }),
        },
        IdReq::Auto => match last {
            Some(l) => if now <= l.ms {
                if l.seq < u64::MAX {
                    Some(StreamId { ms: l.ms, seq: (l.seq + 1) as u64 })
                } else {
                    None
                }
            } else {
                Some(StreamId { ms: now, seq: 0 })
            },
            None => Some(StreamId { ms: now, seq: 0 }),
        },
    }
}

/// The check an append must pass: never `0-0`, and strictly above the top.
pub open spec fn spec_validate(last: Option<StreamId>, id: StreamId) -> Option<XaddError> {
    if id.ms == 0 && id.seq == 0 {
        Some(XaddError::ZeroId)
    } else {
        match last {
            Some(l) => if id_lt(l, id) {
                None
            } else {
                Some(XaddError::NotGreater)
            },
            None => None,
        }
    }
}

/// The stream bound to `k`, or the empty stream for any other binding.
pub open spec fn stream_at(m: Seq<(Seq<u8>, StoredG)>, k: Seq<u8>) -> Seq<EntryG> {
    match lookup(m, k) {
        Some(st) => match st.value {
            ValueG::Stream(es) => es,
            _ => Seq::empty(),
        },
        None => Seq::empty(),
    }
}

/// The last identifier of the stream under `k`, or `0-0`.
pub open spec fn last_id_at(m: Seq<(Seq<u8>, StoredG)>, k: Seq<u8>) -> StreamId {
    let es = stream_at(m, k);
    if es.len() > 0 {
        es.last().id
    } else {
        StreamId { ms: 0, seq: 0 }
    }
}

/// Successive entries carry strictly increasing identifiers.
pub open spec fn wf_stream(es: Seq<EntryG>) -> bool {
    forall|i: int| 0 <= i && i + 1 < es.len() ==> id_lt(es[i].id, (#[trigger] es[i + 1]).id)
}

/// Appending above the top preserves the strict order of identifiers.
pub proof fn lemma_stream_monotonic(es: Seq<EntryG>, e: EntryG)
    requires
        wf_stream(es),
        es.len() > 0 ==> id_lt(es.last().id, e.id),
    ensures
        wf_stream(es.push(e)),
{
    let es2 = es.push(e);
    assert forall|i: int| 0 <= i && i + 1 < es2.len() implies id_lt(
        es2[i].id,
        (#[trigger] es2[i + 1]).id,
    ) by {
        if i + 1 < es.len() {
            assert(es2[i] == es[i]);
            assert(es2[i + 1] == es[i + 1]);
        } else {
            assert(es2[i] == es.last());
            assert(es2[i + 1] == e);
        }
    }
}

/// What the store binds to other keys, an upsert leaves alone.
pub proof fn lemma_lookup_upsert(m: Seq<(Seq<u8>, StoredG)>, k: Seq<u8>, v: StoredG, k2: Seq<u8>)
    ensures
        lookup(upsert(m, k, v), k) == Some(v),
        k2 != k ==> lookup(upsert(m, k, v), k2) == lookup(m, k2),
{
    crate::store::lemma_key_index(m, k);
    let m2 = upsert(m, k, v);
    let i = key_index(m, k);
    if i < 0 {
        crate::store::lemma_key_index(m, k2);
        assert(m2 == m.push((k, v)));
        crate::store::lemma_key_index_at(m2, k, m.len() as int);
        if k2 != k {
            crate::store::lemma_key_index(m2, k2);
            let j2 = key_index(m, k2);
            if j2 >= 0 {
                crate::store::lemma_key_index_at(m2, k2, j2);
            } else {
                assert forall|j: int| 0 <= j < m2.len() implies (#[trigger] m2[j]).0 != k2 by {
                    if j < m.len() {
                        assert(m2[j] == m[j]);
                    }
                }
                crate::store::lemma_key_index_none(m2, k2);
            }
        }
    } else {
        assert(m2 == m.update(i, (k, v)));
        assert forall|j: int| 0 <= j < i implies (#[trigger] m2[j]).0 != k by {
            assert(m2[j] == m[j]);
        }
        crate::store::lemma_key_index_at(m2, k, i);
        if k2 != k {
            crate::store::lemma_key_index(m, k2);
            let j2 = key_index(m, k2);
            if j2 >= 0 {
                assert(m2[j2] == m[j2]);
                assert forall|j: int| 0 <= j < j2 implies (#[trigger] m2[j]).0 != k2 by {
                    if j == i {
                        assert(m2[j].0 == k);
                    } else {
                        assert(m2[j] == m[j]);
                    }
                }
                crate::store::lemma_key_index_at(m2, k2, j2);
            } else {
                assert forall|j: int| 0 <= j < m2.len() implies (#[trigger] m2[j]).0 != k2 by {
                    if j == i {
                        assert(m2[j].0 == k);
                    } else {
                        assert(m2[j] == m[j]);
                    }
                }
                crate::store::lemma_key_index_none(m2, k2);
            }
        }
    }
}

/// Parses an `XADD` identifier argument.
pub fn parse_xadd_id(s: &Vec<u8>) -> (r: Option<IdReq>)
    ensures
        r == spec_parse_xadd_id(s@),
{
    if s.len() == 1 && s[0] == 42 {
        proof {
            assert(s@ =~= seq![42u8]);
        }
        return Some(IdReq::Auto);
    }
    proof {
        if s@ == seq![42u8] {
            assert(s@.len() == 1 && s@[0] == 42);
            assert(false);
        }
    }
    let mut d: usize = 0;
    while d < s.len() && s[d] != 45
        invariant
            d <= s.len(),
            forall|j: int| 0 <= j < d ==> s@[j] != 45,
        decreases s.len() - d,
    {
        d = d + 1;
    }
    proof {
        lemma_dash_pos_stop(s@, 0, d as int);
    }
    if d == s.len() {
        return None;
    }
    let msd = crate::bytes::sub_bytes(s, 0, d);
    let rest = crate::bytes::sub_bytes(s, d + 1, s.len());
    match parse_u64(&msd) {
        Some(ms) => {
            if rest.len() == 1 && rest[0] == 42 {
                proof {
                    assert(rest@ =~= seq![42u8]);
                }
                Some(IdReq::AutoSeq(ms))
            } else {
                proof {
                    if rest@ == seq![42u8] {
                        assert(rest@.len() == 1 && rest@[0] == 42);
                        assert(false);
                    }
                }
                match parse_u64(&rest) {
                    Some(sq) => Some(IdReq::Explicit(StreamId { ms, seq: sq })),
                    None => None,
                }
            }
        },
        None => None,
    }
}

/// Parses a range endpoint, completing a bare time with sequence zero.
pub fn parse_point(s: &Vec<u8>) -> (r: Option<StreamId>)
    ensures
        r == spec_parse_point(s@),
{
    let mut d: usize = 0;
    while d < s.len() && s[d] != 45
        invariant
            d <= s.len(),
            forall|j: int| 0 <= j < d ==> s@[j] != 45,
        decreases s.len() - d,
    {
        d = d + 1;
    }
    proof {
        lemma_dash_pos_stop(s@, 0, d as int);
    }
    if d == s.len() {
        match parse_u64(s) {
            Some(ms) => Some(StreamId { ms, seq: 0 }),
            None => None,
        }
    } else {
        let msd = crate::bytes::sub_bytes(s, 0, d);
        let rest = crate::bytes::sub_bytes(s, d + 1, s.len());
        match (parse_u64(&msd), parse_u64(&rest)) {
            (Some(ms), Some(sq)) => Some(StreamId { ms, seq: sq }),
            _ => None,
        }
    }
}

/// Resolves an identifier request against the stream's last entry.
pub fn resolve_id(last: Option<StreamId>, req: IdReq, now: u64) -> (r: Option<StreamId>)
    ensures
        r == spec_resolve(last, req, now),
{
    match req {
        IdReq::Explicit(id) => Some(id),
        IdReq::AutoSeq(ms) => match last {
            Some(l) => {
                if l.ms == ms {
                    if l.seq < u64::MAX {
                        Some(StreamId { ms, seq: l.seq + 1 })
                    } else {
                        None
                    }
                } else {
                    Some(StreamId { ms, seq: if ms == 0 { 1 } else { 0 } })
                }
            },
            None => Some(StreamId { ms, seq: if ms == 0 { 1 } else { 0 } }),
        },
        IdReq::Auto => match last {
            Some(l) => {
                if now <= l.ms {
                    if l.seq < u64::MAX {
                        Some(StreamId { ms: l.ms, seq: l.seq + 1 })
                    } else {
                        None
                    }
                } else {
                    Some(StreamId { ms: now, seq: 0 })
                }
            },
            None => Some(StreamId { ms: now, seq: 0 }),
        },
    }
}

/// Checks an append against the stream's top.
pub fn validate_id(last: Option<StreamId>, id: StreamId) -> (r: Option<XaddError>)
    ensures
        r == spec_validate(last, id),
{
    if id.ms == 0 && id.seq == 0 {
        Some(XaddError::ZeroId)
    } else {
        match last {
            Some(l) => {
                if l.ms < id.ms || (l.ms == id.ms && l.seq < id.seq) {
                    None
                } else {
                    Some(XaddError::NotGreater)
                }
            },
            None => None,
        }
    }
}

impl DataStorage {
    /// Appends an entry to the stream under `key`, resolving and checking
    /// the requested identifier against the stream's last entry. A key
    /// holding another kind of value is started over as a fresh stream.
    /// On failure, nothing changes.
    pub fn xadd(
        &mut self,
        key: &Vec<u8>,
        req: IdReq,
        fields: Vec<(Vec<u8>, Vec<u8>)>,
        now: u64,
    ) -> (r: Result<StreamId, XaddError>)
        ensures
            ({
                let es = stream_at(old(self)@, key@);
                let last = if es.len() > 0 {
                    Some(es.last().id)
                } else {
                    None::<StreamId>
                };
                match spec_resolve(last, req, now) {
                    None => r == Err::<StreamId, XaddError>(XaddError::NotGreater) && final(self)@
                        == old(self)@,
                    Some(id) => match spec_validate(last, id) {
                        Some(e) => r == Err::<StreamId, XaddError>(e) && final(self)@ == old(
                            self,
                        )@,
                        None => r == Ok::<StreamId, XaddError>(id) && final(self)@ == upsert(
                            old(self)@,
                            key@,
                            StoredG {
                                value: ValueG::Stream(
                                    es.push(EntryG { id, fields: fields.deep_view() }),
                                ),
                                expiry: None,
                            },
                        ),
                    },
                }
            }),
    {
        let ghost m = self@;
        let ghost esg = stream_at(m, key@);
        match self.index_of(key) {
            Some(i) => {
                let pair = self.data.remove(i);
                let k0 = pair.0;
                let ev = pair.1;
                match ev.value {
                    Value::Stream(mut es) => {
                        proof {
                            assert(esg == es.deep_view());
                        }
                        let last: Option<StreamId> = if es.len() > 0 {
                            Some(es[es.len() - 1].id)
                        } else {
                            None
                        };
                        proof {
                            if es.len() > 0 {
                                assert(es.deep_view().last() == es@.last()@);
                            }
                        }
                        match resolve_id(last, req, now) {
                            Some(id) => {
                                match validate_id(last, id) {
                                    None => {
                                        let ghost es0 = es.deep_view();
                                        es.push(StreamEntry { id, fields });
                                        proof {
                                            assert(es.deep_view() =~~= es0.push(
                                                EntryG { id, fields: fields.deep_view() },
                                            ));
                                        }
                                        self.data.insert(
                                            i,
                                            (
                                                k0,
                                                ExpiringValue {
                                                    value: Value::Stream(es),
                                                    expiration_timestamp: None,
                                                },
                                            ),
                                        );
                                        proof {
                                            assert(self@ =~~= upsert(
                                                m,
                                                key@,
                                                StoredG {
                                                    value: ValueG::Stream(
                                                        es0.push(
                                                            EntryG {
                                                                id,
                                                                fields: fields.deep_view(),
                                                            },
                                                        ),
                                                    ),
                                                    expiry: None,
                                                },
                                            ));
                                        }
                                        Ok(id)
                                    },
                                    Some(e) => {
                                        self.data.insert(
                                            i,
                                            (
                                                k0,
                                                ExpiringValue {
                                                    value: Value::Stream(es),
                                                    expiration_timestamp:
                                                        ev.expiration_timestamp,
                                                },
                                            ),
                                        );
                                        proof {
                                            assert(self@ =~~= m);
                                        }
                                        Err(e)
                                    },
                                }
                            },
                            None => {
                                self.data.insert(
                                    i,
                                    (
                                        k0,
                                        ExpiringValue {
                                            value: Value::Stream(es),
                                            expiration_timestamp: ev.expiration_timestamp,
                                        },
                                    ),
                                );
                                proof {
                                    assert(self@ =~~= m);
                                }
                                Err(XaddError::NotGreater)
                            },
                        }
                    },
                    other => {
                        proof {
                            assert(esg =~= Seq::<EntryG>::empty());
                        }
                        match resolve_id(None, req, now) {
                            Some(id) => {
                                match validate_id(None, id) {
                                    None => {
                                        let mut es: Vec<StreamEntry> = Vec::new();
                                        es.push(StreamEntry { id, fields });
                                        proof {
                                            assert(es.deep_view() =~~= esg.push(
                                                EntryG { id, fields: fields.deep_view() },
                                            ));
                                        }
                                        self.data.insert(
                                            i,
                                            (
                                                k0,
                                                ExpiringValue {
                                                    value: Value::Stream(es),
                                                    expiration_timestamp: None,
                                                },
                                            ),
                                        );
                                        proof {
                                            assert(self@ =~~= upsert(
                                                m,
                                                key@,
                                                StoredG {
                                                    value: ValueG::Stream(
                                                        esg.push(
                                                            EntryG {
                                                                id,
                                                                fields: fields.deep_view(),
                                                            },
                                                        ),
                                                    ),
                                                    expiry: None,
                                                },
                                            ));
                                        }
                                        Ok(id)
                                    },
                                    Some(e) => {
                                        self.data.insert(
                                            i,
                                            (
                                                k0,
                                                ExpiringValue {
                                                    value: other,
                                                    expiration_timestamp:
                                                        ev.expiration_timestamp,
                                                },
                                            ),
                                        );
                                        proof {
                                            assert(self@ =~~= m);
                                        }
                                        Err(e)
                                    },
                                }
                            },
                            None => {
                                self.data.insert(
                                    i,
                                    (
                                        k0,
                                        ExpiringValue {
                                            value: other,
                                            expiration_timestamp: ev.expiration_timestamp,
                                        },
                                    ),
                                );
                                proof {
                                    assert(self@ =~~= m);
                                }
                                Err(XaddError::NotGreater)
                            },
                        }
                    },
                }
            },
            None => {
                proof {
                    assert(esg =~= Seq::<EntryG>::empty());
                }
                match resolve_id(None, req, now) {
                    Some(id) => {
                        match validate_id(None, id) {
                            None => {
                                let mut es: Vec<StreamEntry> = Vec::new();
                                es.push(StreamEntry { id, fields });
                                proof {
                                    assert(es.deep_view() =~~= esg.push(
                                        EntryG { id, fields: fields.deep_view() },
                                    ));
                                }
                                let keyc = clone_bytes(key);
                                self.data.push(
                                    (
                                        keyc,
                                        ExpiringValue {
                                            value: Value::Stream(es),
                                            expiration_timestamp: None,
                                        },
                                    ),
                                );
                                proof {
                                    assert(self@ =~~= upsert(
                                        m,
                                        key@,
                                        StoredG {
                                            value: ValueG::Stream(
                                                esg.push(
                                                    EntryG { id, fields: fields.deep_view() },
                                                ),
                                            ),
                                            expiry: None,
                                        },
                                    ));
                                }
                                Ok(id)
                            },
                            Some(e) => Err(e),
                        }
                    },
                    None => Err(XaddError::NotGreater),
                }
            },
        }
    }
}

/// Whether an entry lies in the inclusive range `start..=end`, with `None`
/// as the open upper end.
pub open spec fn in_xrange(e: EntryG, start: StreamId, end: Option<StreamId>) -> bool {
    !id_lt(e.id, start) && (match end {
        Some(en) => !id_lt(en, e.id),
        None => true,
    })
}

/// The entries of `es` inside the range, in order.
pub open spec fn spec_xrange(es: Seq<EntryG>, start: StreamId, end: Option<StreamId>) -> Seq<
    EntryG,
>
    decreases es.len(),
{
    if es.len() == 0 {
        Seq::empty()
    } else {
        (if in_xrange(es[0], start, end) {
            seq![es[0]]
        } else {
            Seq::empty()
        }) + spec_xrange(es.drop_first(), start, end)
    }
}

/// Extending the stream by one entry extends its range selection.
pub proof fn lemma_spec_xrange_snoc(
    es: Seq<EntryG>,
    e: EntryG,
    start: StreamId,
    end: Option<StreamId>,
)
    ensures
        spec_xrange(es.push(e), start, end) == spec_xrange(es, start, end) + (if in_xrange(
            e,
            start,
            end,
        ) {
            seq![e]
        } else {
            Seq::<EntryG>::empty()
        }),
    decreases es.len(),
{
    let tail = if in_xrange(e, start, end) {
        seq![e]
    } else {
        Seq::<EntryG>::empty()
    };
    if es.len() == 0 {
        assert(es.push(e)[0] == e);
        assert(es.push(e).drop_first() =~= Seq::<EntryG>::empty());
        assert(spec_xrange(Seq::<EntryG>::empty(), start, end) == Seq::<EntryG>::empty());
        assert(spec_xrange(es.push(e), start, end) =~= spec_xrange(es, start, end) + tail);
    } else {
        lemma_spec_xrange_snoc(es.drop_first(), e, start, end);
        assert(es.push(e).drop_first() =~= es.drop_first().push(e));
        assert(es.push(e)[0] == es[0]);
        assert(spec_xrange(es.push(e), start, end) =~= spec_xrange(es, start, end) + tail);
    }
}

/// The entries strictly above `after`, in order.
pub open spec fn spec_xafter(es: Seq<EntryG>, after: StreamId) -> Seq<EntryG>
    decreases es.len(),
{
    if es.len() == 0 {
        Seq::empty()
    } else {
        (if id_lt(after, es[0].id) {
            seq![es[0]]
        } else {
            Seq::empty()
        }) + spec_xafter(es.drop_first(), after)
    }
}

/// Extending the stream by one entry extends its tail selection.
pub proof fn lemma_spec_xafter_snoc(es: Seq<EntryG>, e: EntryG, after: StreamId)
    ensures
        spec_xafter(es.push(e), after) == spec_xafter(es, after) + (if id_lt(after, e.id) {
            seq![e]
        } else {
            Seq::<EntryG>::empty()
        }),
    decreases es.len(),
{
    let tail = if id_lt(after, e.id) {
        seq![e]
    } else {
        Seq::<EntryG>::empty()
    };
    if es.len() == 0 {
        assert(es.push(e)[0] == e);
        assert(es.push(e).drop_first() =~= Seq::<EntryG>::empty());
        assert(spec_xafter(Seq::<EntryG>::empty(), after) == Seq::<EntryG>::empty());
        assert(spec_xafter(es.push(e), after) =~= spec_xafter(es, after) + tail);
    } else {
        lemma_spec_xafter_snoc(es.drop_first(), e, after);
        assert(es.push(e).drop_first() =~= es.drop_first().push(e));
        assert(es.push(e)[0] == es[0]);
        assert(spec_xafter(es.push(e), after) =~= spec_xafter(es, after) + tail);
    }
}

/// Copies a field list.
pub fn clone_fields(v: &Vec<(Vec<u8>, Vec<u8>)>) -> (r: Vec<(Vec<u8>, Vec<u8>)>)
    ensures
        r.deep_view() == v.deep_view(),
{
    let mut r: Vec<(Vec<u8>, Vec<u8>)> = Vec::new();
    let mut j: usize = 0;
    while j < v.len()
        invariant
            j <= v.len(),
            r@.len() == j,
            r.deep_view() =~~= v.deep_view().subrange(0, j as int),
        decreases v.len() - j,
    {
        let f = clone_bytes(&v[j].0);
        let w = clone_bytes(&v[j].1);
        r.push((f, w));
        j = j + 1;
        proof {
            assert(r.deep_view() =~~= v.deep_view().subrange(0, j as int));
        }
    }
    proof {
        assert(v.deep_view().subrange(0, v@.len() as int) =~= v.deep_view());
    }
    r
}

/// Copies one stream entry.
pub fn clone_entry(e: &StreamEntry) -> (r: StreamEntry)
    ensures
        r@ == e@,
{
    StreamEntry { id: e.id, fields: clone_fields(&e.fields) }
}

/// The entries of the stream inside the inclusive range.
#[verifier::loop_isolation(false)]
pub fn xrange_entries(es: &Vec<StreamEntry>, start: StreamId, end: Option<StreamId>) -> (r: Vec<
    StreamEntry,
>)
    ensures
        r.deep_view() == spec_xrange(es.deep_view(), start, end),
{
    let mut r: Vec<StreamEntry> = Vec::new();
    let mut j: usize = 0;
    while j < es.len()
        invariant
            j <= es.len(),
            r.deep_view() =~~= spec_xrange(es.deep_view().subrange(0, j as int), start, end),
        decreases es.len() - j,
    {
        let ghost pre = es.deep_view().subrange(0, j as int);
        proof {
            lemma_spec_xrange_snoc(pre, es.deep_view()[j as int], start, end);
            assert(pre.push(es.deep_view()[j as int]) =~= es.deep_view().subrange(0, j as int + 1));
        }
        let e = &es[j];
        let ok_low = !(e.id.ms < start.ms || (e.id.ms == start.ms && e.id.seq < start.seq));
        let ok_high = match end {
            Some(en) => !(en.ms < e.id.ms || (en.ms == e.id.ms && en.seq < e.id.seq)),
            None => true,
        };
        if ok_low && ok_high {
            r.push(clone_entry(e));
        }
        j = j + 1;
        proof {
            assert(es.deep_view()[j - 1] == es@[j - 1]@);
            assert(r.deep_view() =~~= spec_xrange(es.deep_view().subrange(0, j as int), start, end));
        }
    }
    proof {
        assert(es.deep_view().subrange(0, es@.len() as int) =~= es.deep_view());
    }
    r
}

/// The entries of the stream strictly above `after`.
#[verifier::loop_isolation(false)]
pub fn xafter_entries(es: &Vec<StreamEntry>, after: StreamId) -> (r: Vec<StreamEntry>)
    ensures
        r.deep_view() == spec_xafter(es.deep_view(), after),
{
    let mut r: Vec<StreamEntry> = Vec::new();
    let mut j: usize = 0;
    while j < es.len()
        invariant
            j <= es.len(),
            r.deep_view() =~~= spec_xafter(es.deep_view().subrange(0, j as int), after),
        decreases es.len() - j,
    {
        let ghost pre = es.deep_view().subrange(0, j as int);
        proof {
            lemma_spec_xafter_snoc(pre, es.deep_view()[j as int], after);
            assert(pre.push(es.deep_view()[j as int]) =~= es.deep_view().subrange(0, j as int + 1));
        }
        let e = &es[j];
        if after.ms < e.id.ms || (after.ms == e.id.ms && after.seq < e.id.seq) {
            r.push(clone_entry(e));
        }
        j = j + 1;
        proof {
            assert(es.deep_view()[j - 1] == es@[j - 1]@);
            assert(r.deep_view() =~~= spec_xafter(es.deep_view().subrange(0, j as int), after));
        }
    }
    proof {
        assert(es.deep_view().subrange(0, es@.len() as int) =~= es.deep_view());
    }
    r
}

} // verus!

// The append-order law.

verus! {

/// An accepted append lands strictly above the stream's top entry, so the
/// identifiers of successive entries stay strictly increasing.
pub proof fn lemma_xadd_monotonic(
    m: Seq<(Seq<u8>, StoredG)>,
    k: Seq<u8>,
    req: IdReq,
    now: u64,
    fields: Seq<(Seq<u8>, Seq<u8>)>,
)
    requires
        wf_stream(stream_at(m, k)),
    ensures
        ({
            let es = stream_at(m, k);
            let last = if es.len() > 0 {
                Some(es.last().id)
            } else {
                None::<StreamId>
            };
            match spec_resolve(last, req, now) {
                Some(id) => spec_validate(last, id) is None ==> wf_stream(
                    stream_at(
                        upsert(
                            m,
                            k,
                            StoredG {
                                value: ValueG::Stream(es.push(EntryG { id, fields })),
                                expiry: None,
                            },
                        ),
                        k,
                    ),
                ),
                None => true,
            }
        }),
{
    let es = stream_at(m, k);
    let last = if es.len() > 0 {
        Some(es.last().id)
    } else {
        None::<StreamId>
    };
    match spec_resolve(last, req, now) {
        Some(id) => {
            if spec_validate(last, id) is None {
                let st2 = StoredG {
                    value: ValueG::Stream(es.push(EntryG { id, fields })),
                    expiry: None,
                };
                lemma_lookup_upsert(m, k, st2, k);
                lemma_stream_monotonic(es, EntryG { id, fields });
            }
        },
        None => {},
    }
}

} // verus!
