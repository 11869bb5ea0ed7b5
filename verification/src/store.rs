use vstd::prelude::*;

use crate::bytes::{clone_bytes, ends_with, lemma_bytes_deep, starts_with};
use crate::num::{dec_rep_i, format_i64, is_i64_rep, i64_val, parse_i64};

verus! {

broadcast use lemma_bytes_deep;

/// A stream entry identifier: the pair `(ms, seq)`, ordered lexicographically.
#[derive(Clone, Copy, PartialEq, Eq, Structural, Debug)]
pub struct StreamId {
    pub ms: u64,
    pub seq: u64,
}

impl View for StreamId {
    type V = StreamId;

    open spec fn view(&self) -> StreamId {
        *self
    }
}

impl DeepView for StreamId {
    type V = StreamId;

    open spec fn deep_view(&self) -> StreamId {
        *self
    }
}

/// The strict lexicographic order on stream identifiers.
pub open spec fn id_lt(a: StreamId, b: StreamId) -> bool {
    a.ms < b.ms || (a.ms == b.ms && a.seq < b.seq)
}

/// One stream entry: its identifier and its field/value pairs in input order.
pub struct StreamEntry {
    pub id: StreamId,
    pub fields: Vec<(Vec<u8>, Vec<u8>)>,
}

/// A stream entry, at the specification level.
#[verifier::ext_equal]
pub struct EntryG {
    pub id: StreamId,
    pub fields: Seq<(Seq<u8>, Seq<u8>)>,
}

impl View for StreamEntry {
    type V = EntryG;

    open spec fn view(&self) -> EntryG {
        EntryG { id: self.id, fields: self.fields.deep_view() }
    }
}

impl DeepView for StreamEntry {
    type V = EntryG;

    open spec fn deep_view(&self) -> EntryG {
        self@
    }
}

/// A stored value: a byte string, a list of byte strings, or a stream.
pub enum Value {
    String(Vec<u8>),
    Stream(Vec<StreamEntry>),
    List(Vec<Vec<u8>>),
}

/// A stored value, at the specification level.
#[verifier::ext_equal]
pub enum ValueG {
    Str(Seq<u8>),
    Stream(Seq<EntryG>),
    List(Seq<Seq<u8>>),
}

impl View for Value {
    type V = ValueG;

    open spec fn view(&self) -> ValueG {
        match self {
            Value::String(s) => ValueG::Str(s@),
            Value::Stream(es) => ValueG::Stream(es.deep_view()),
            Value::List(l) => ValueG::List(l.deep_view()),
        }
    }
}

impl DeepView for Value {
    type V = ValueG;

    open spec fn deep_view(&self) -> ValueG {
        self@
    }
}

impl Value {
    /// The name of the value's variant.
    pub fn get_type(&self) -> (r: &'static str)
        ensures
            r@ == (match self@ {
                ValueG::Str(_) => "string"@,
                ValueG::Stream(_) => "stream"@,
                ValueG::List(_) => "list"@,
            }),
    {
        match self {
            Value::String(_) => "string",
            Value::Stream(_) => "stream",
            Value::List(_) => "list",
        }
    }

    /// The byte string held, if this is a string.
    pub fn as_string(&self) -> (r: Option<&Vec<u8>>)
        ensures
            match r {
                Some(s) => self@ == ValueG::Str(s@),
                None => !(self@ is Str),
            },
    {
        match self {
            Value::String(s) => Some(s),
            _ => None,
        }
    }

    /// The entries held, if this is a stream.
    pub fn as_stream(&self) -> (r: Option<&Vec<StreamEntry>>)
        ensures
            match r {
                Some(es) => self@ == ValueG::Stream(es.deep_view()),
                None => !(self@ is Stream),
            },
    {
        match self {
            Value::Stream(es) => Some(es),
            _ => None,
        }
    }

    /// The items held, if this is a list.
    pub fn as_list(&self) -> (r: Option<&Vec<Vec<u8>>>)
        ensures
            match r {
                Some(l) => self@ == ValueG::List(l.deep_view()),
                None => !(self@ is List),
            },
    {
        match self {
            Value::List(l) => Some(l),
            _ => None,
        }
    }

    /// Mutable access to the items, if this is a list.
    pub fn as_list_mut(&mut self) -> (r: Option<&mut Vec<Vec<u8>>>)
        ensures
            match r {
                Some(l) => old(self)@ == ValueG::List(l.deep_view()) && final(self)@
                    == ValueG::List(final(l).deep_view()),
                None => !(old(self)@ is List) && *final(self) == *old(self),
            },
    {
        match self {
            Value::List(l) => Some(l),
            _ => None,
        }
    }

    /// Mutable access to the entries, if this is a stream.
    pub fn as_stream_mut(&mut self) -> (r: Option<&mut Vec<StreamEntry>>)
        ensures
            match r {
                Some(es) => old(self)@ == ValueG::Stream(es.deep_view()) && final(self)@
                    == ValueG::Stream(final(es).deep_view()),
                None => !(old(self)@ is Stream) && *final(self) == *old(self),
            },
    {
        match self {
            Value::Stream(es) => Some(es),
            _ => None,
        }
    }
}

/// A value together with its optional expiry instant, in milliseconds of
/// server time.
pub struct ExpiringValue<T> {
    pub value: T,
    pub expiration_timestamp: Option<u64>,
}

/// A stored value with its expiry, at the specification level.
#[verifier::ext_equal]
pub struct StoredG {
    pub value: ValueG,
    pub expiry: Option<u64>,
}

impl View for ExpiringValue<Value> {
    type V = StoredG;

    open spec fn view(&self) -> StoredG {
        StoredG { value: self.value@, expiry: self.expiration_timestamp }
    }
}

impl DeepView for ExpiringValue<Value> {
    type V = StoredG;

    open spec fn deep_view(&self) -> StoredG {
        self@
    }
}

/// The keyed store: an association list with pairwise distinct keys.
pub struct DataStorage {
    pub data: Vec<(Vec<u8>, ExpiringValue<Value>)>,
}

impl View for DataStorage {
    type V = Seq<(Seq<u8>, StoredG)>;

    open spec fn view(&self) -> Seq<(Seq<u8>, StoredG)> {
        self.data.deep_view()
    }
}

/// The index of the first pair keyed `k`, or `-1`.
pub open spec fn key_index(m: Seq<(Seq<u8>, StoredG)>, k: Seq<u8>) -> int
    decreases m.len(),
{
    if m.len() == 0 {
        -1
    } else if m[0].0 == k {
        0
    } else {
        let r = key_index(m.drop_first(), k);
        if r < 0 {
            -1
        } else {
            r + 1
        }
    }
}

/// What the store holds under `k`.
pub open spec fn lookup(m: Seq<(Seq<u8>, StoredG)>, k: Seq<u8>) -> Option<StoredG> {
    let i = key_index(m, k);
    if i < 0 {
        None
    } else {
        Some(m[i].1)
    }
}

/// The store with `k` bound to `v`: replaced in place, or appended.
pub open spec fn upsert(m: Seq<(Seq<u8>, StoredG)>, k: Seq<u8>, v: StoredG) -> Seq<
    (Seq<u8>, StoredG),
> {
    let i = key_index(m, k);
    if i < 0 {
        m.push((k, v))
    } else {
        m.update(i, (k, v))
    }
}

/// `key_index` finds the first match, and `-1` means no match.
pub proof fn lemma_key_index(m: Seq<(Seq<u8>, StoredG)>, k: Seq<u8>)
    ensures
        key_index(m, k) == -1 ==> forall|j: int| 0 <= j < m.len() ==> (#[trigger] m[j]).0 != k,
        key_index(m, k) >= 0 ==> key_index(m, k) < m.len() && m[key_index(m, k)].0 == k
            && forall|j: int| 0 <= j < key_index(m, k) ==> (#[trigger] m[j]).0 != k,
    decreases m.len(),
{
    if m.len() > 0 && m[0].0 != k {
        lemma_key_index(m.drop_first(), k);
        assert forall|j: int| 1 <= j < m.len() implies m.drop_first()[j - 1] == m[j] by {}
    }
}

/// A position holding `k`, with no earlier match, is `key_index`.
pub proof fn lemma_key_index_at(m: Seq<(Seq<u8>, StoredG)>, k: Seq<u8>, i: int)
    requires
        0 <= i < m.len(),
        m[i].0 == k,
        forall|j: int| 0 <= j < i ==> (#[trigger] m[j]).0 != k,
    ensures
        key_index(m, k) == i,
    decreases i,
{
    if i > 0 {
        assert(m[0].0 != k);
        assert(m.drop_first()[i - 1] == m[i]);
        assert forall|j: int| 0 <= j < i - 1 implies (#[trigger] m.drop_first()[j]).0 != k by {
            assert(m.drop_first()[j] == m[j + 1]);
        }
        lemma_key_index_at(m.drop_first(), k, i - 1);
    }
}

/// With no match anywhere, `key_index` is `-1`.
pub proof fn lemma_key_index_none(m: Seq<(Seq<u8>, StoredG)>, k: Seq<u8>)
    requires
        forall|j: int| 0 <= j < m.len() ==> (#[trigger] m[j]).0 != k,
    ensures
        key_index(m, k) == -1,
    decreases m.len(),
{
    if m.len() > 0 {
        assert forall|j: int| 0 <= j < m.len() - 1 implies (#[trigger] m.drop_first()[j]).0
            != k by {
            assert(m.drop_first()[j] == m[j + 1]);
        }
        lemma_key_index_none(m.drop_first(), k);
    }
}

/// Copies a vector of byte vectors.
pub fn clone_list(v: &Vec<Vec<u8>>) -> (r: Vec<Vec<u8>>)
    ensures
        r.deep_view() == v.deep_view(),
{
    let mut r: Vec<Vec<u8>> = Vec::new();
    let mut j: usize = 0;
    while j < v.len()
        invariant
            j <= v.len(),
            r@.len() == j,
            r.deep_view() =~~= v.deep_view().subrange(0, j as int),
        decreases v.len() - j,
    {
        r.push(clone_bytes(&v[j]));
        j = j + 1;
        proof {
            assert(r.deep_view() =~~= v.deep_view().subrange(0, j as int));
        }
    }
    proof {
        assert(v.deep_view().subrange(0, v@.len() as int) =~= v.deep_view());
    }
    r
}

/// Copies a vector of byte vectors in reverse order.
pub fn rev_clone(v: &Vec<Vec<u8>>) -> (r: Vec<Vec<u8>>)
    ensures
        r.deep_view() == v.deep_view().reverse(),
{
    let mut r: Vec<Vec<u8>> = Vec::new();
    let mut j: usize = 0;
    while j < v.len()
        invariant
            j <= v.len(),
            r@.len() == j,
            forall|t: int| 0 <= t < j ==> #[trigger] r.deep_view()[t] == v.deep_view()[v@.len()
                - 1 - t],
        decreases v.len() - j,
    {
        let ghost prev = r.deep_view();
        r.push(clone_bytes(&v[v.len() - 1 - j]));
        j = j + 1;
        proof {
            assert(r.deep_view()[j - 1] =~= v.deep_view()[v@.len() - j]);
            assert forall|t: int| 0 <= t < j - 1 implies #[trigger] r.deep_view()[t]
                == prev[t] by {
                assert(r@[t] == r@.subrange(0, r@.len() - 1)[t]);
            }
        }
    }
    proof {
        assert(r.deep_view() =~~= v.deep_view().reverse());
    }
    r
}

impl DataStorage {
    /// An empty store.
    pub fn new() -> (r: DataStorage)
        ensures
            r@ == Seq::<(Seq<u8>, StoredG)>::empty(),
    {
        let r = DataStorage { data: Vec::new() };
        proof {
            assert(r@ =~= Seq::<(Seq<u8>, StoredG)>::empty());
        }
        r
    }

    /// The position of `key` in the store, if bound.
    pub fn index_of(&self, key: &Vec<u8>) -> (r: Option<usize>)
        ensures
            match r {
                Some(i) => key_index(self@, key@) == i as int && i < self.data.len()
                    && self@[i as int] == (key@, self.data@[i as int].1@),
                None => key_index(self@, key@) == -1,
            },
    {
        let mut j: usize = 0;
        while j < self.data.len()
            invariant
                j <= self.data.len(),
                forall|t: int| 0 <= t < j ==> (#[trigger] self@[t]).0 != key@,
            decreases self.data.len() - j,
        {
            if crate::bytes::bytes_eq(&self.data[j].0, key) {
                proof {
                    assert(self@[j as int].0 == key@);
                    lemma_key_index_at(self@, key@, j as int);
                }
                return Some(j);
            }
            proof {
                assert(self@[j as int].0 == self.data@[j as int].0@);
            }
            j = j + 1;
        }
        proof {
            lemma_key_index_none(self@, key@);
        }
        None
    }

    /// What the store holds under `key`.
    pub fn get_value(&self, key: &Vec<u8>) -> (r: Option<&ExpiringValue<Value>>)
        ensures
            match r {
                Some(v) => lookup(self@, key@) == Some(v@),
                None => lookup(self@, key@) is None,
            },
    {
        match self.index_of(key) {
            Some(i) => Some(&self.data[i].1),
            None => None,
        }
    }

    /// Binds `key` to `v`, replacing any earlier binding. Only strings
    /// carry an expiry instant.
    pub fn set_value(&mut self, key: Vec<u8>, v: ExpiringValue<Value>)
        requires
            v@.expiry is Some ==> v@.value is Str,
        ensures
            final(self)@ == upsert(old(self)@, key@, v@),
    {
        let ghost m = self@;
        match self.index_of(&key) {
            Some(i) => {
                self.data.remove(i);
                self.data.insert(i, (key, v));
                proof {
                    assert(self@ =~~= m.update(key_index(m, key@), (key@, v@)));
                }
            },
            None => {
                self.data.push((key, v));
                proof {
                    assert(self@ =~~= m.push((key@, v@)));
                }
            },
        }
    }

    /// Binds `key` to a byte string with an optional expiry.
    pub fn set_string(&mut self, key: Vec<u8>, value: Vec<u8>, expiration: Option<u64>)
        ensures
            final(self)@ == upsert(
                old(self)@,
                key@,
                StoredG { value: ValueG::Str(value@), expiry: expiration },
            ),
    {
        self.set_value(
            key,
            ExpiringValue { value: Value::String(value), expiration_timestamp: expiration },
        );
    }

    /// Binds `key` to a list; lists carry no expiry.
    pub fn set_list(&mut self, key: Vec<u8>, value: Vec<Vec<u8>>)
        ensures
            final(self)@ == upsert(
                old(self)@,
                key@,
                StoredG { value: ValueG::List(value.deep_view()), expiry: None },
            ),
    {
        self.set_value(key, ExpiringValue { value: Value::List(value), expiration_timestamp: None });
    }

    /// Binds `key` to a stream; streams carry no expiry.
    pub fn set_stream(&mut self, key: Vec<u8>, value: Vec<StreamEntry>)
        ensures
            final(self)@ == upsert(
                old(self)@,
                key@,
                StoredG { value: ValueG::Stream(value.deep_view()), expiry: None },
            ),
    {
        self.set_value(
            key,
            ExpiringValue { value: Value::Stream(value), expiration_timestamp: None },
        );
    }
}

} // verus!

// Expiry, list, counter and key-listing operations.

verus! {

/// Why a store operation was refused.
#[derive(Clone, Copy, PartialEq, Eq, Structural, Debug)]
pub enum StoreError {
    WrongType,
    NotInteger,
}

/// Whether a stored value is past its expiry at `now`.
pub open spec fn expired(st: StoredG, now: u64) -> bool {
    match st.expiry {
        Some(t) => now >= t,
        None => false,
    }
}

/// What the store holds under `k` at `now`: an expired value is absent.
pub open spec fn live(m: Seq<(Seq<u8>, StoredG)>, k: Seq<u8>, now: u64) -> Option<StoredG> {
    match lookup(m, k) {
        Some(st) => if expired(st, now) {
            None
        } else {
            Some(st)
        },
        None => None,
    }
}

/// The name `TYPE` reports for what the store holds under `k` at `now`.
pub open spec fn kind_name(m: Seq<(Seq<u8>, StoredG)>, k: Seq<u8>, now: u64) -> Seq<char> {
    match live(m, k, now) {
        None => "none"@,
        Some(st) => match st.value {
            ValueG::Str(_) => "string"@,
            ValueG::Stream(_) => "stream"@,
            ValueG::List(_) => "list"@,
        },
    }
}

/// The list bound to `k`, or the empty list for any other binding.
pub open spec fn list_at(m: Seq<(Seq<u8>, StoredG)>, k: Seq<u8>) -> Seq<Seq<u8>> {
    match lookup(m, k) {
        Some(st) => match st.value {
            ValueG::List(l) => l,
            _ => Seq::empty(),
        },
        None => Seq::empty(),
    }
}

/// The list range reply: inclusive bounds, negative indices from the end,
/// the upper bound clamped, and the empty reply on a crossed or high start.
pub open spec fn spec_lrange(l: Seq<Seq<u8>>, start: int, stop: int) -> Seq<Seq<u8>> {
    let len = l.len() as int;
    let s0 = if start < 0 {
        if len + start < 0 {
            0
        } else {
            len + start
        }
    } else {
        start
    };
    let e0 = if stop < 0 {
        len + stop
    } else {
        if stop >= len {
            len - 1
        } else {
            stop
        }
    };
    if s0 >= len || s0 > e0 {
        Seq::empty()
    } else {
        l.subrange(s0, e0 + 1)
    }
}

impl DataStorage {
    /// Appends `elements` to the list under `key`, creating the list when the
    /// key is unbound; refuses a key holding another kind of value. Returns
    /// the new length.
    #[verifier::loop_isolation(false)]
    pub fn rpush(&mut self, key: Vec<u8>, elements: Vec<Vec<u8>>) -> (r: Result<usize, StoreError>)
        ensures
            match lookup(old(self)@, key@) {
                Some(st) => match st.value {
                    ValueG::List(l) => final(self)@ == upsert(
                        old(self)@,
                        key@,
                        StoredG { value: ValueG::List(l + elements.deep_view()), expiry: st.expiry },
                    ) && r == Ok::<usize, StoreError>((l.len() + elements@.len()) as usize),
                    _ => r == Err::<usize, StoreError>(StoreError::WrongType) && final(self)@
                        == old(self)@,
                },
                None => final(self)@ == upsert(
                    old(self)@,
                    key@,
                    StoredG { value: ValueG::List(elements.deep_view()), expiry: None },
                ) && r == Ok::<usize, StoreError>(elements.len()),
            },
    {
        let ghost m = self@;
        match self.index_of(&key) {
            Some(i) => {
                let pair = self.data.remove(i);
                let k0 = pair.0;
                let ev = pair.1;
                let ghost st = ev@;
                match ev.value {
                    Value::List(mut l) => {
                        let ghost l0 = l.deep_view();
                        let mut tail = clone_list(&elements);
                        l.append(&mut tail);
                        proof {
                            assert(l.deep_view() =~~= l0 + elements.deep_view());
                        }
                        let n = l.len();
                        self.data.insert(
                            i,
                            (
                                k0,
                                ExpiringValue {
                                    value: Value::List(l),
                                    expiration_timestamp: ev.expiration_timestamp,
                                },
                            ),
                        );
                        proof {
                            assert(self@ =~~= upsert(
                                m,
                                key@,
                                StoredG {
                                    value: ValueG::List(l0 + elements.deep_view()),
                                    expiry: st.expiry,
                                },
                            ));
                        }
                        Ok(n)
                    },
                    other => {
                        self.data.insert(
                            i,
                            (
                                k0,
                                ExpiringValue {
                                    value: other,
                                    expiration_timestamp: ev.expiration_timestamp,
                                },
                            ),
                        );
                        proof {
                            assert(self@ =~~= m);
                        }
                        Err(StoreError::WrongType)
                    },
                }
            },
            None => {
                let l = clone_list(&elements);
                let n = l.len();
                self.data.push(
                    (key, ExpiringValue { value: Value::List(l), expiration_timestamp: None }),
                );
                proof {
                    assert(self@ =~~= upsert(
                        m,
                        key@,
                        StoredG { value: ValueG::List(elements.deep_view()), expiry: None },
                    ));
                }
                Ok(n)
            },
        }
    }

    /// Prepends each element in command order, so the last argument ends up
    /// leftmost; otherwise as `rpush`.
    #[verifier::loop_isolation(false)]
    pub fn lpush(&mut self, key: Vec<u8>, elements: Vec<Vec<u8>>) -> (r: Result<usize, StoreError>)
        ensures
            match lookup(old(self)@, key@) {
                Some(st) => match st.value {
                    ValueG::List(l) => final(self)@ == upsert(
                        old(self)@,
                        key@,
                        StoredG {
                            value: ValueG::List(elements.deep_view().reverse() + l),
                            expiry: st.expiry,
                        },
                    ) && r == Ok::<usize, StoreError>((l.len() + elements@.len()) as usize),
                    _ => r == Err::<usize, StoreError>(StoreError::WrongType) && final(self)@
                        == old(self)@,
                },
                None => final(self)@ == upsert(
                    old(self)@,
                    key@,
                    StoredG { value: ValueG::List(elements.deep_view().reverse()), expiry: None },
                ) && r == Ok::<usize, StoreError>(elements.len()),
            },
    {
        let ghost m = self@;
        match self.index_of(&key) {
            Some(i) => {
                let pair = self.data.remove(i);
                let k0 = pair.0;
                let ev = pair.1;
                let ghost st = ev@;
                match ev.value {
                    Value::List(mut l) => {
                        let ghost l0 = l.deep_view();
                        let mut nl = rev_clone(&elements);
                        nl.append(&mut l);
                        let l = nl;
                        proof {
                            assert(l.deep_view() =~~= elements.deep_view().reverse() + l0);
                        }
                        let n = l.len();
                        self.data.insert(
                            i,
                            (
                                k0,
                                ExpiringValue {
                                    value: Value::List(l),
                                    expiration_timestamp: ev.expiration_timestamp,
                                },
                            ),
                        );
                        proof {
                            assert(self@ =~~= upsert(
                                m,
                                key@,
                                StoredG {
                                    value: ValueG::List(elements.deep_view().reverse() + l0),
                                    expiry: st.expiry,
                                },
                            ));
                        }
                        Ok(n)
                    },
                    other => {
                        self.data.insert(
                            i,
                            (
                                k0,
                                ExpiringValue {
                                    value: other,
                                    expiration_timestamp: ev.expiration_timestamp,
                                },
                            ),
                        );
                        proof {
                            assert(self@ =~~= m);
                        }
                        Err(StoreError::WrongType)
                    },
                }
            },
            None => {
                let l = rev_clone(&elements);
                let n = l.len();
                self.data.push(
                    (key, ExpiringValue { value: Value::List(l), expiration_timestamp: None }),
                );
                proof {
                    assert(self@ =~~= upsert(
                        m,
                        key@,
                        StoredG { value: ValueG::List(elements.deep_view().reverse()), expiry: None },
                    ));
                }
                Ok(n)
            },
        }
    }

    /// Pops the head of the list under `key`, if there is one.
    pub fn lpop(&mut self, key: &Vec<u8>) -> (r: Option<Vec<u8>>)
        ensures
            match lookup(old(self)@, key@) {
                Some(st) => match st.value {
                    ValueG::List(l) => if l.len() > 0 {
                        r matches Some(v) && v@ == l[0] && final(self)@ == upsert(
                            old(self)@,
                            key@,
                            StoredG { value: ValueG::List(l.drop_first()), expiry: st.expiry },
                        )
                    } else {
                        r is None && final(self)@ == old(self)@
                    },
                    _ => r is None && final(self)@ == old(self)@,
                },
                None => r is None && final(self)@ == old(self)@,
            },
    {
        let ghost m = self@;
        match self.index_of(key) {
            Some(i) => {
                let pair = self.data.remove(i);
                let k0 = pair.0;
                let ev = pair.1;
                let ghost st = ev@;
                match ev.value {
                    Value::List(mut l) => {
                        if l.len() > 0 {
                            let ghost l0 = l.deep_view();
                            let v = l.remove(0);
                            proof {
                                assert(l.deep_view() =~~= l0.drop_first());
                            }
                            self.data.insert(
                                i,
                                (
                                    k0,
                                    ExpiringValue {
                                        value: Value::List(l),
                                        expiration_timestamp: ev.expiration_timestamp,
                                    },
                                ),
                            );
                            proof {
                                assert(self@ =~~= upsert(
                                    m,
                                    key@,
                                    StoredG {
                                        value: ValueG::List(l0.drop_first()),
                                        expiry: st.expiry,
                                    },
                                ));
                            }
                            Some(v)
                        } else {
                            self.data.insert(
                                i,
                                (
                                    k0,
                                    ExpiringValue {
                                        value: Value::List(l),
                                        expiration_timestamp: ev.expiration_timestamp,
                                    },
                                ),
                            );
                            proof {
                                assert(self@ =~~= m);
                            }
                            None
                        }
                    },
                    other => {
                        self.data.insert(
                            i,
                            (
                                k0,
                                ExpiringValue {
                                    value: other,
                                    expiration_timestamp: ev.expiration_timestamp,
                                },
                            ),
                        );
                        proof {
                            assert(self@ =~~= m);
                        }
                        None
                    },
                }
            },
            None => None,
        }
    }

    /// Pops up to `count` items from the head of the list under `key`.
    #[verifier::loop_isolation(false)]
    pub fn lpop_multiple(&mut self, key: &Vec<u8>, count: usize) -> (r: Vec<Vec<u8>>)
        ensures
            ({
                let l = list_at(old(self)@, key@);
                let n = if count <= l.len() {
                    count as int
                } else {
                    l.len() as int
                };
                r.deep_view() == l.subrange(0, n) && (match lookup(old(self)@, key@) {
                    Some(st) => match st.value {
                        ValueG::List(l2) => final(self)@ == upsert(
                            old(self)@,
                            key@,
                            StoredG { value: ValueG::List(l2.skip(n)), expiry: st.expiry },
                        ),
                        _ => final(self)@ == old(self)@,
                    },
                    None => final(self)@ == old(self)@,
                })
            }),
    {
        let ghost m = self@;
        match self.index_of(key) {
            Some(i) => {
                let pair = self.data.remove(i);
                let k0 = pair.0;
                let ev = pair.1;
                let ghost st = ev@;
                match ev.value {
                    Value::List(l) => {
                        let ghost l0 = l.deep_view();
                        let n = if count <= l.len() {
                            count
                        } else {
                            l.len()
                        };
                        let mut out: Vec<Vec<u8>> = Vec::new();
                        let mut j: usize = 0;
                        while j < n
                            invariant
                                j <= n <= l@.len(),
                                l0 == l.deep_view(),
                                out@.len() == j,
                                out.deep_view() =~~= l0.subrange(0, j as int),
                            decreases n - j,
                        {
                            out.push(clone_bytes(&l[j]));
                            j = j + 1;
                            proof {
                                assert(out.deep_view() =~~= l0.subrange(0, j as int));
                            }
                        }
                        let mut rest: Vec<Vec<u8>> = Vec::new();
                        let mut t: usize = n;
                        while t < l.len()
                            invariant
                                n <= t <= l@.len(),
                                l0 == l.deep_view(),
                                rest@.len() == t - n,
                                rest.deep_view() =~~= l0.subrange(n as int, t as int),
                            decreases l.len() - t,
                        {
                            rest.push(clone_bytes(&l[t]));
                            t = t + 1;
                            proof {
                                assert(rest.deep_view() =~~= l0.subrange(n as int, t as int));
                            }
                        }
                        proof {
                            assert(rest.deep_view() =~~= l0.skip(n as int));
                        }
                        let l = rest;
                        self.data.insert(
                            i,
                            (
                                k0,
                                ExpiringValue {
                                    value: Value::List(l),
                                    expiration_timestamp: ev.expiration_timestamp,
                                },
                            ),
                        );
                        proof {
                            assert(self@ =~~= upsert(
                                m,
                                key@,
                                StoredG {
                                    value: ValueG::List(l0.skip(n as int)),
                                    expiry: st.expiry,
                                },
                            ));
                        }
                        out
                    },
                    other => {
                        self.data.insert(
                            i,
                            (
                                k0,
                                ExpiringValue {
                                    value: other,
                                    expiration_timestamp: ev.expiration_timestamp,
                                },
                            ),
                        );
                        proof {
                            assert(self@ =~~= m);
                            assert(list_at(m, key@) == Seq::<Seq<u8>>::empty());
                        }
                        let out: Vec<Vec<u8>> = Vec::new();
                        proof {
                            assert(out.deep_view() =~~= list_at(m, key@).subrange(0, 0));
                        }
                        out
                    },
                }
            },
            None => {
                let out: Vec<Vec<u8>> = Vec::new();
                proof {
                    assert(out.deep_view() =~~= list_at(m, key@).subrange(0, 0));
                }
                out
            },
        }
    }

    /// The length of the list under `key`, or zero.
    pub fn llen(&self, key: &Vec<u8>) -> (r: usize)
        ensures
            r == list_at(self@, key@).len(),
    {
        match self.index_of(key) {
            Some(i) => {
                match &self.data[i].1.value {
                    Value::List(l) => l.len(),
                    _ => 0,
                }
            },
            None => 0,
        }
    }

    /// The inclusive range `start..=stop` of the list under `key`, with
    /// negative indices counted from the end.
    #[verifier::loop_isolation(false)]
    pub fn lrange(&self, key: &Vec<u8>, start: i64, stop: i64) -> (r: Vec<Vec<u8>>)
        ensures
            r.deep_view() == spec_lrange(list_at(self@, key@), start as int, stop as int),
    {
        let ghost lg = list_at(self@, key@);
        match self.index_of(key) {
            Some(i) => {
                match &self.data[i].1.value {
                    Value::List(l) => {
                        proof {
                            assert(lg == l.deep_view());
                        }
                        let len128: i128 = l.len() as i128;
                        let start128: i128 = start as i128;
                        let stop128: i128 = stop as i128;
                        let s0: i128 = if start128 < 0 {
                            if len128 + start128 < 0 {
                                0
                            } else {
                                len128 + start128
                            }
                        } else {
                            start128
                        };
                        let e0: i128 = if stop128 < 0 {
                            len128 + stop128
                        } else {
                            if stop128 >= len128 {
                                len128 - 1
                            } else {
                                stop128
                            }
                        };
                        if s0 >= len128 || s0 > e0 {
                            let out: Vec<Vec<u8>> = Vec::new();
                            proof {
                                assert(out.deep_view() =~~= spec_lrange(
                                    lg,
                                    start as int,
                                    stop as int,
                                ));
                            }
                            out
                        } else {
                            let a: usize = s0 as usize;
                            let b: usize = e0 as usize;
                            let mut out: Vec<Vec<u8>> = Vec::new();
                            let mut j: usize = a;
                            while j <= b
                                invariant
                                    a <= j <= b + 1,
                                    b < l.len(),
                                    out@.len() == j - a,
                                    out.deep_view() =~~= lg.subrange(a as int, j as int),
                                decreases b + 1 - j,
                            {
                                out.push(clone_bytes(&l[j]));
                                j = j + 1;
                                proof {
                                    assert(out.deep_view() =~~= lg.subrange(a as int, j as int));
                                }
                            }
                            proof {
                                assert(out.deep_view() =~~= spec_lrange(
                                    lg,
                                    start as int,
                                    stop as int,
                                ));
                            }
                            out
                        }
                    },
                    _ => {
                        let out: Vec<Vec<u8>> = Vec::new();
                        proof {
                            assert(lg == Seq::<Seq<u8>>::empty());
                            assert(out.deep_view() =~~= spec_lrange(lg, start as int, stop as int));
                        }
                        out
                    },
                }
            },
            None => {
                let out: Vec<Vec<u8>> = Vec::new();
                proof {
                    assert(lg == Seq::<Seq<u8>>::empty());
                    assert(out.deep_view() =~~= spec_lrange(lg, start as int, stop as int));
                }
                out
            },
        }
    }
}

} // verus!

// The counter, type and key-listing operations.

verus! {

/// The position of the first `*` at or after `pos`, or the end.
pub open spec fn star_pos(p: Seq<u8>, pos: int) -> int
    decreases p.len() - pos,
{
    if pos < 0 || pos >= p.len() {
        pos
    } else if p[pos] == 42 {
        pos
    } else {
        star_pos(p, pos + 1)
    }
}

/// A stop position free of stars before it is `star_pos`.
pub proof fn lemma_star_pos_stop(p: Seq<u8>, pos: int, k: int)
    requires
        0 <= pos <= k <= p.len(),
        forall|j: int| pos <= j < k ==> p[j] != 42,
        k < p.len() ==> p[k] == 42,
    ensures
        star_pos(p, pos) == k,
    decreases k - pos,
{
    if pos < k {
        lemma_star_pos_stop(p, pos + 1, k);
    }
}

/// Whether key `k` matches pattern `p`: the first `*` is a wildcard, the
/// rest of the pattern is a literal suffix; with no `*`, an exact match.
pub open spec fn pat_match(k: Seq<u8>, p: Seq<u8>) -> bool {
    let i = star_pos(p, 0);
    if i >= p.len() {
        k == p
    } else {
        starts_with(k, p.subrange(0, i)) && ends_with(k, p.subrange(i + 1, p.len() as int))
    }
}

/// The keys of `m`, in order, that match `p`.
pub open spec fn spec_keys(m: Seq<(Seq<u8>, StoredG)>, p: Seq<u8>) -> Seq<Seq<u8>>
    decreases m.len(),
{
    if m.len() == 0 {
        Seq::empty()
    } else {
        (if pat_match(m[0].0, p) {
            seq![m[0].0]
        } else {
            Seq::empty()
        }) + spec_keys(m.drop_first(), p)
    }
}

/// Extending the store by one pair extends its matching keys.
pub proof fn lemma_spec_keys_snoc(m: Seq<(Seq<u8>, StoredG)>, pair: (Seq<u8>, StoredG), p: Seq<u8>)
    ensures
        spec_keys(m.push(pair), p) == spec_keys(m, p) + (if pat_match(pair.0, p) {
            seq![pair.0]
        } else {
            Seq::<Seq<u8>>::empty()
        }),
    decreases m.len(),
{
    let tail = if pat_match(pair.0, p) {
        seq![pair.0]
    } else {
        Seq::<Seq<u8>>::empty()
    };
    if m.len() == 0 {
        assert(m.push(pair)[0] == pair);
        assert(m.push(pair).drop_first() =~= Seq::<(Seq<u8>, StoredG)>::empty());
        assert(spec_keys(Seq::<(Seq<u8>, StoredG)>::empty(), p) == Seq::<Seq<u8>>::empty());
        assert(spec_keys(m.push(pair), p) =~= spec_keys(m, p) + tail);
    } else {
        lemma_spec_keys_snoc(m.drop_first(), pair, p);
        assert(m.push(pair).drop_first() =~= m.drop_first().push(pair));
        assert(m.push(pair)[0] == m[0]);
        assert(spec_keys(m.push(pair), p) =~= spec_keys(m, p) + tail);
    }
}

/// Whether the byte vector `k` matches the pattern `p`.
pub fn pat_match_exec(k: &Vec<u8>, p: &Vec<u8>) -> (r: bool)
    ensures
        r == pat_match(k@, p@),
{
    let mut i: usize = 0;
    while i < p.len() && p[i] != 42
        invariant
            i <= p.len(),
            forall|j: int| 0 <= j < i ==> p@[j] != 42,
        decreases p.len() - i,
    {
        i = i + 1;
    }
    proof {
        lemma_star_pos_stop(p@, 0, i as int);
    }
    if i == p.len() {
        crate::bytes::bytes_eq(k, p)
    } else {
        let prefix = crate::bytes::sub_bytes(p, 0, i);
        let suffix = crate::bytes::sub_bytes(p, i + 1, p.len());
        let a = crate::bytes::bytes_start_with(k, &prefix);
        let b = crate::bytes::bytes_end_with(k, &suffix);
        a && b
    }
}

impl DataStorage {
    /// Adds one to the integer string under `key`, treating an absent or
    /// expired value as zero; keeps any expiry; refuses values that are not
    /// decimal integers, and the largest integer. Returns the new value.
    pub fn incr(&mut self, key: &Vec<u8>, now: u64) -> (r: Result<i64, StoreError>)
        ensures
            match live(old(self)@, key@, now) {
                None => final(self)@ == upsert(
                    old(self)@,
                    key@,
                    StoredG { value: ValueG::Str(crate::num::dec_rep(1)), expiry: None },
                ) && r == Ok::<i64, StoreError>(1),
                Some(st) => match st.value {
                    ValueG::Str(s) => if is_i64_rep(s) && i64_val(s) < i64::MAX {
                        final(self)@ == upsert(
                            old(self)@,
                            key@,
                            StoredG {
                                value: ValueG::Str(dec_rep_i(i64_val(s) + 1)),
                                expiry: st.expiry,
                            },
                        ) && r == Ok::<i64, StoreError>((i64_val(s) + 1) as i64)
                    } else {
                        r == Err::<i64, StoreError>(StoreError::NotInteger) && final(self)@
                            == old(self)@
                    },
                    _ => r == Err::<i64, StoreError>(StoreError::NotInteger) && final(self)@
                        == old(self)@,
                },
            },
    {
        let fresh = match self.index_of(key) {
            Some(i) => {
                match self.data[i].1.expiration_timestamp {
                    Some(t) => now >= t,
                    None => false,
                }
            },
            None => true,
        };
        if fresh {
            self.set_string(clone_bytes(key), format_i64(1), None);
            proof {
                assert(crate::num::dec_rep_i(1int) == crate::num::dec_rep(1nat));
            }
            return Ok(1);
        }
        let parsed: Option<(Option<i64>, Option<u64>)> = match self.index_of(key) {
            Some(i) => {
                match &self.data[i].1.value {
                    Value::String(s) => Some((parse_i64(s), self.data[i].1.expiration_timestamp)),
                    _ => None,
                }
            },
            None => None,
        };
        match parsed {
            Some((Some(v), exp)) => {
                if v < i64::MAX {
                    self.set_string(clone_bytes(key), format_i64(v + 1), exp);
                    Ok(v + 1)
                } else {
                    Err(StoreError::NotInteger)
                }
            },
            Some((None, _)) => Err(StoreError::NotInteger),
            None => Err(StoreError::NotInteger),
        }
    }

    /// The name of what `key` holds at `now`: honours expiry.
    pub fn type_of(&self, key: &Vec<u8>, now: u64) -> (r: &'static str)
        ensures
            r@ == kind_name(self@, key@, now),
    {
        match self.index_of(key) {
            Some(i) => {
                let gone = match self.data[i].1.expiration_timestamp {
                    Some(t) => now >= t,
                    None => false,
                };
                if gone {
                    "none"
                } else {
                    self.data[i].1.value.get_type()
                }
            },
            None => "none",
        }
    }

    /// The string under `key` with its expiry, ignoring freshness.
    pub fn get_string(&self, key: &Vec<u8>) -> (r: Option<ExpiringValue<Vec<u8>>>)
        ensures
            match r {
                Some(ev) => lookup(self@, key@) == Some(
                    StoredG { value: ValueG::Str(ev.value@), expiry: ev.expiration_timestamp },
                ),
                None => match lookup(self@, key@) {
                    Some(st) => !(st.value is Str),
                    None => true,
                },
            },
    {
        match self.index_of(key) {
            Some(i) => {
                match &self.data[i].1.value {
                    Value::String(s) => Some(
                        ExpiringValue {
                            value: clone_bytes(s),
                            expiration_timestamp: self.data[i].1.expiration_timestamp,
                        },
                    ),
                    _ => None,
                }
            },
            None => None,
        }
    }

    /// The list under `key`, copied, ignoring other bindings.
    pub fn get_list(&self, key: &Vec<u8>) -> (r: Option<Vec<Vec<u8>>>)
        ensures
            match r {
                Some(l) => match lookup(self@, key@) {
                    Some(st) => st.value == ValueG::List(l.deep_view()),
                    None => false,
                },
                None => match lookup(self@, key@) {
                    Some(st) => !(st.value is List),
                    None => true,
                },
            },
    {
        match self.index_of(key) {
            Some(i) => {
                match &self.data[i].1.value {
                    Value::List(l) => Some(clone_list(l)),
                    _ => None,
                }
            },
            None => None,
        }
    }

    /// The stream under `key`, by reference.
    pub fn get_stream(&self, key: &Vec<u8>) -> (r: Option<&Vec<StreamEntry>>)
        ensures
            match r {
                Some(es) => match lookup(self@, key@) {
                    Some(st) => st.value == ValueG::Stream(es.deep_view()),
                    None => false,
                },
                None => match lookup(self@, key@) {
                    Some(st) => !(st.value is Stream),
                    None => true,
                },
            },
    {
        match self.index_of(key) {
            Some(i) => {
                match &self.data[i].1.value {
                    Value::Stream(es) => Some(es),
                    _ => None,
                }
            },
            None => None,
        }
    }

    /// Every key, in insertion order.
    #[verifier::loop_isolation(false)]
    pub fn get_all_keys(&self) -> (r: Vec<Vec<u8>>)
        ensures
            r.deep_view() == Seq::new(self@.len(), |i: int| self@[i].0),
    {
        let mut r: Vec<Vec<u8>> = Vec::new();
        let mut j: usize = 0;
        while j < self.data.len()
            invariant
                j <= self.data.len(),
                r@.len() == j,
                r.deep_view() =~~= Seq::new(self@.len(), |i: int| self@[i].0).subrange(
                    0,
                    j as int,
                ),
            decreases self.data.len() - j,
        {
            r.push(clone_bytes(&self.data[j].0));
            j = j + 1;
            proof {
                assert(r.deep_view() =~~= Seq::new(self@.len(), |i: int| self@[i].0).subrange(
                    0,
                    j as int,
                ));
            }
        }
        proof {
            assert(r.deep_view() =~~= Seq::new(self@.len(), |i: int| self@[i].0));
        }
        r
    }

    /// The keys matching `pattern`, in insertion order.
    #[verifier::loop_isolation(false)]
    pub fn keys_matching(&self, pattern: &Vec<u8>) -> (r: Vec<Vec<u8>>)
        ensures
            r.deep_view() == spec_keys(self@, pattern@),
    {
        let mut r: Vec<Vec<u8>> = Vec::new();
        let mut j: usize = 0;
        while j < self.data.len()
            invariant
                j <= self.data.len(),
                r.deep_view() =~~= spec_keys(self@.subrange(0, j as int), pattern@),
            decreases self.data.len() - j,
        {
            let ghost pre = self@.subrange(0, j as int);
            proof {
                lemma_spec_keys_snoc(pre, self@[j as int], pattern@);
                assert(pre.push(self@[j as int]) =~= self@.subrange(0, j as int + 1));
            }
            if pat_match_exec(&self.data[j].0, pattern) {
                r.push(clone_bytes(&self.data[j].0));
                proof {
                    assert(self@[j as int].0 == self.data@[j as int].0@);
                }
            } else {
                proof {
                    assert(self@[j as int].0 == self.data@[j as int].0@);
                }
            }
            j = j + 1;
            proof {
                assert(r.deep_view() =~~= spec_keys(self@.subrange(0, j as int), pattern@));
            }
        }
        proof {
            assert(self@.subrange(0, self@.len() as int) =~= self@);
        }
        r
    }
}

} // verus!

// The expiry laws.

verus! {

/// `TYPE` answers `none` exactly when the key is absent at `now`: unbound,
/// or bound to a value past its expiry.
pub proof fn lemma_type_none(m: Seq<(Seq<u8>, StoredG)>, k: Seq<u8>, now: u64)
    ensures
        (kind_name(m, k, now) == "none"@) <==> (live(m, k, now) is None),
        (live(m, k, now) is None) <==> (match lookup(m, k) {
            Some(st) => expired(st, now),
            None => true,
        }),
{
    reveal_strlit("none");
    reveal_strlit("string");
    reveal_strlit("stream");
    reveal_strlit("list");
    match live(m, k, now) {
        None => {},
        Some(st) => {
            match st.value {
                ValueG::Str(_) => {
                    assert("string"@.len() == 6);
                    assert("none"@.len() == 4);
                },
                ValueG::Stream(_) => {
                    assert("stream"@.len() == 6);
                },
                ValueG::List(_) => {
                    assert("list"@[0] == 'l');
                    assert("none"@[0] == 'n');
                },
            }
        },
    }
}

/// A bound string reads back unchanged while it lives, and is gone from
/// the first instant at or past its expiry.
pub proof fn lemma_set_then_get(
    m: Seq<(Seq<u8>, StoredG)>,
    k: Seq<u8>,
    v: Seq<u8>,
    e: Option<u64>,
    now: u64,
)
    ensures
        ({
            let m2 = upsert(m, k, StoredG { value: ValueG::Str(v), expiry: e });
            &&& (match e {
                Some(t) => now < t,
                None => true,
            }) ==> live(m2, k, now) == Some(StoredG { value: ValueG::Str(v), expiry: e })
            &&& (match e {
                Some(t) => now >= t,
                None => false,
            }) ==> live(m2, k, now) is None
        }),
{
    let st = StoredG { value: ValueG::Str(v), expiry: e };
    crate::streams::lemma_lookup_upsert(m, k, st, k);
}

} // verus!

// The expiry discipline of the data model.

verus! {

/// Only string bindings carry an expiry instant; lists and streams never do.
pub open spec fn expiry_only_strings(m: Seq<(Seq<u8>, StoredG)>) -> bool {
    forall|i: int|
        0 <= i < m.len() ==> ((#[trigger] m[i]).1.expiry is Some ==> m[i].1.value is Str)
}

/// Binding a conforming value keeps the expiry discipline.
pub proof fn lemma_expiry_only_strings_upsert(
    m: Seq<(Seq<u8>, StoredG)>,
    k: Seq<u8>,
    v: StoredG,
)
    requires
        expiry_only_strings(m),
        v.expiry is Some ==> v.value is Str,
    ensures
        expiry_only_strings(upsert(m, k, v)),
{
    lemma_key_index(m, k);
    let m2 = upsert(m, k, v);
    let i = key_index(m, k);
    assert forall|j: int|
        0 <= j < m2.len() && (#[trigger] m2[j]).1.expiry is Some implies m2[j].1.value
        is Str by {
        if i < 0 {
            if j < m.len() {
                assert(m2[j] == m[j]);
            }
        } else {
            if j != i {
                assert(m2[j] == m[j]);
            }
        }
    }
}

/// Under the expiry discipline, `TYPE` answers `none` exactly for a key
/// that is unbound or holds an expired string.
pub proof fn lemma_type_none_strings(m: Seq<(Seq<u8>, StoredG)>, k: Seq<u8>, now: u64)
    requires
        expiry_only_strings(m),
    ensures
        (kind_name(m, k, now) == "none"@) <==> (match lookup(m, k) {
            Some(st) => st.value is Str && expired(st, now),
            None => true,
        }),
{
    lemma_type_none(m, k, now);
    lemma_expiry_only_strings_lookup(m, k);
}

/// What a store under the expiry discipline binds, conforms.
pub proof fn lemma_expiry_only_strings_lookup(m: Seq<(Seq<u8>, StoredG)>, k: Seq<u8>)
    requires
        expiry_only_strings(m),
    ensures
        match lookup(m, k) {
            Some(st) => st.expiry is Some ==> st.value is Str,
            None => true,
        },
{
    lemma_key_index(m, k);
}

} // verus!
