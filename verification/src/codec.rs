use vstd::prelude::*;

use crate::bytes::clone_bytes;
use crate::num::{dec_rep, dec_rep_i, format_i64, format_u64};

verus! {

/// A RESP value, at the specification level.
#[verifier::ext_equal]
pub enum RespG {
    Simple(Seq<u8>),
    Error(Seq<u8>),
    Int(i64),
    Bulk(Seq<u8>),
    Arr(Seq<RespG>),
    Nil,
}

/// A RESP value: simple string, simple error, integer, bulk string
/// (including the null bulk), or array.
pub enum RespDataType {
    SimpleString(Vec<u8>),
    SimpleError(Vec<u8>),
    Integer(i64),
    BulkString(Vec<u8>),
    Array(Vec<RespDataType>),
    Nil,
}

impl View for RespDataType {
    type V = RespG;

    open spec fn view(&self) -> RespG
        decreases self, 0nat,
    {
        match self {
            RespDataType::SimpleString(s) => RespG::Simple(s@),
            RespDataType::SimpleError(s) => RespG::Error(s@),
            RespDataType::Integer(i) => RespG::Int(*i),
            RespDataType::BulkString(s) => RespG::Bulk(s@),
            RespDataType::Array(elems) => RespG::Arr(view_list(elems@)),
            RespDataType::Nil => RespG::Nil,
        }
    }
}

/// The views of a sequence of RESP values.
pub open spec fn view_list(ts: Seq<RespDataType>) -> Seq<RespG>
    decreases ts, ts.len(),
{
    if ts.len() == 0 {
        Seq::empty()
    } else {
        seq![ts[0]@] + view_list(ts.drop_first())
    }
}

/// `view_list` maps the view over the sequence, index by index.
pub proof fn lemma_view_list(ts: Seq<RespDataType>)
    ensures
        view_list(ts).len() == ts.len(),
        forall|i: int| 0 <= i < ts.len() ==> view_list(ts)[i] == #[trigger] ts[i]@,
    decreases ts.len(),
{
    if ts.len() > 0 {
        lemma_view_list(ts.drop_first());
        assert(view_list(ts) == seq![ts[0]@] + view_list(ts.drop_first()));
        assert forall|i: int| 0 <= i < ts.len() implies view_list(ts)[i] == #[trigger] ts[i]@ by {
            if i > 0 {
                assert(ts.drop_first()[i - 1] == ts[i]);
                assert(view_list(ts)[i] == view_list(ts.drop_first())[i - 1]);
            } else {
                assert(view_list(ts)[0] == seq![ts[0]@][0]);
            }
        }
    } else {
        assert(view_list(ts) == Seq::<RespG>::empty());
    }
}

/// Pushing one value appends one view.
pub proof fn lemma_view_list_push(ts: Seq<RespDataType>, t: RespDataType)
    ensures
        view_list(ts.push(t)) == view_list(ts) + seq![t@],
{
    lemma_view_list(ts);
    lemma_view_list(ts.push(t));
    assert forall|i: int| 0 <= i < ts.len() + 1 implies view_list(ts.push(t))[i] == (view_list(ts)
        + seq![t@])[i] by {
        assert(view_list(ts.push(t))[i] == ts.push(t)[i]@);
        if i < ts.len() {
            assert(ts.push(t)[i] == ts[i]);
            assert(view_list(ts)[i] == ts[i]@);
        } else {
            assert(ts.push(t)[i] == t);
        }
    }
    assert(view_list(ts.push(t)) =~= view_list(ts) + seq![t@]);
}

/// Bulk strings, one per byte string.
pub open spec fn bulk_list(ss: Seq<Seq<u8>>) -> Seq<RespG> {
    Seq::new(ss.len(), |i: int| RespG::Bulk(ss[i]))
}

/// The two bytes that end every RESP line.
pub open spec fn crlf() -> Seq<u8> {
    seq![13u8, 10u8]
}

/// The wire encoding of a RESP value.
pub open spec fn encode_spec(g: RespG) -> Seq<u8>
    decreases g, 0nat,
{
    match g {
        RespG::Simple(s) => seq![43u8] + s + crlf(),
        RespG::Error(s) => seq![45u8] + s + crlf(),
        RespG::Int(i) => seq![58u8] + dec_rep_i(i as int) + crlf(),
        RespG::Bulk(s) => seq![36u8] + dec_rep(s.len()) + crlf() + s + crlf(),
        RespG::Arr(gs) => seq![42u8] + dec_rep(gs.len()) + crlf() + encode_list(gs),
        RespG::Nil => seq![36u8, 45u8, 49u8] + crlf(),
    }
}

/// The concatenated encodings of a sequence of RESP values.
pub open spec fn encode_list(gs: Seq<RespG>) -> Seq<u8>
    decreases gs, gs.len(),
{
    if gs.len() == 0 {
        Seq::empty()
    } else {
        encode_spec(gs[0]) + encode_list(gs.drop_first())
    }
}

/// Appending one value to a list appends its encoding.
pub proof fn lemma_encode_list_snoc(gs: Seq<RespG>, g: RespG)
    ensures
        encode_list(gs.push(g)) == encode_list(gs) + encode_spec(g),
    decreases gs.len(),
{
    if gs.len() == 0 {
        assert(gs.push(g)[0] == g);
        assert(gs.push(g).drop_first() =~= Seq::<RespG>::empty());
        assert(encode_list(Seq::<RespG>::empty()) == Seq::<u8>::empty());
        assert(encode_list(gs.push(g)) =~= encode_list(gs) + encode_spec(g));
    } else {
        lemma_encode_list_snoc(gs.drop_first(), g);
        assert(gs.push(g).drop_first() =~= gs.drop_first().push(g));
        assert(gs.push(g)[0] == gs[0]);
        assert(encode_list(gs.push(g)) == encode_spec(gs[0]) + encode_list(
            gs.drop_first().push(g),
        ));
        assert(encode_list(gs.push(g)) =~= encode_list(gs) + encode_spec(g));
    }
}

impl RespDataType {
    /// Encodes the value for the wire.
    #[verifier::loop_isolation(false)]
    pub fn encode(&self) -> (r: Vec<u8>)
        ensures
            r@ == encode_spec(self@),
        decreases self, 1nat,
    {
        match self {
            RespDataType::SimpleString(s) => {
                let mut r: Vec<u8> = Vec::new();
                r.push(43);
                let mut body = clone_bytes(s);
                r.append(&mut body);
                r.push(13);
                r.push(10);
                proof {
                    assert(r@ =~= encode_spec(self@));
                }
                r
            },
            RespDataType::SimpleError(s) => {
                let mut r: Vec<u8> = Vec::new();
                r.push(45);
                let mut body = clone_bytes(s);
                r.append(&mut body);
                r.push(13);
                r.push(10);
                proof {
                    assert(r@ =~= encode_spec(self@));
                }
                r
            },
            RespDataType::Integer(i) => {
                let mut r: Vec<u8> = Vec::new();
                r.push(58);
                let mut body = format_i64(*i);
                r.append(&mut body);
                r.push(13);
                r.push(10);
                proof {
                    assert(r@ =~= encode_spec(self@));
                }
                r
            },
            RespDataType::BulkString(s) => {
                let mut r: Vec<u8> = Vec::new();
                r.push(36);
                let mut len = format_u64(s.len() as u64);
                r.append(&mut len);
                r.push(13);
                r.push(10);
                let mut body = clone_bytes(s);
                r.append(&mut body);
                r.push(13);
                r.push(10);
                proof {
                    assert(r@ =~= encode_spec(self@));
                }
                r
            },
            RespDataType::Array(elems) => {
                let ghost gsv = view_list(elems@);
                proof {
                    lemma_view_list(elems@);
                }
                let mut r: Vec<u8> = Vec::new();
                r.push(42);
                let mut len = format_u64(elems.len() as u64);
                r.append(&mut len);
                r.push(13);
                r.push(10);
                let ghost header = r@;
                let mut k: usize = 0;
                while k < elems.len()
                    invariant
                        k <= elems.len(),
                        r@ == header + encode_list(gsv.subrange(0, k as int)),
                    decreases elems.len() - k,
                {
                    let e = &elems[k];
                    let mut enc = e.encode();
                    proof {
                        lemma_encode_list_snoc(gsv.subrange(0, k as int), gsv[k as int]);
                        assert(gsv.subrange(0, k as int).push(gsv[k as int]) =~= gsv.subrange(
                            0,
                            k as int + 1,
                        ));
                    }
                    r.append(&mut enc);
                    k = k + 1;
                }
                proof {
                    assert(gsv.subrange(0, elems@.len() as int) =~= gsv);
                    assert(r@ =~= encode_spec(self@));
                }
                r
            },
            RespDataType::Nil => {
                let mut r: Vec<u8> = Vec::new();
                r.push(36);
                r.push(45);
                r.push(49);
                r.push(13);
                r.push(10);
                proof {
                    assert(r@ =~= encode_spec(self@));
                }
                r
            },
        }
    }
}

} // verus!
// The decoding specification and the round-trip law.

use crate::num::{all_digits, digits_val, is_i64_rep, i64_val};

verus! {

/// Position of the first CRLF pair in `s`.
pub open spec fn find_crlf(s: Seq<u8>) -> Option<int>
    decreases s.len(),
{
    if s.len() < 2 {
        None
    } else if s[0] == 13 && s[1] == 10 {
        Some(0)
    } else {
        match find_crlf(s.drop_first()) {
            Some(i) => Some(i + 1),
            None => None,
        }
    }
}

/// A found CRLF lies within the sequence, and is a CRLF.
pub proof fn lemma_find_crlf_bounds(s: Seq<u8>)
    ensures
        match find_crlf(s) {
            Some(i) => 0 <= i && i + 2 <= s.len() && s[i] == 13 && s[i + 1] == 10,
            None => true,
        },
    decreases s.len(),
{
    if s.len() >= 2 && !(s[0] == 13 && s[1] == 10) {
        lemma_find_crlf_bounds(s.drop_first());
        match find_crlf(s.drop_first()) {
            Some(i) => {
                assert(s.drop_first()[i] == s[i + 1]);
                assert(s.drop_first()[i + 1] == s[i + 2]);
            },
            None => {},
        }
    }
}

/// In a line free of carriage returns followed by CRLF, the first CRLF
/// stands exactly at the end of the line.
pub proof fn lemma_find_crlf_at(l: Seq<u8>, rest: Seq<u8>)
    requires
        forall|i: int| 0 <= i < l.len() ==> l[i] != 13,
    ensures
        find_crlf(l + crlf() + rest) == Some(l.len() as int),
    decreases l.len(),
{
    let s = l + crlf() + rest;
    if l.len() == 0 {
        assert(s[0] == 13 && s[1] == 10);
    } else {
        lemma_find_crlf_at(l.drop_first(), rest);
        assert(s[0] == l[0]);
        assert(s[0] != 13);
        assert(s.drop_first() =~= l.drop_first() + crlf() + rest);
        assert(s.len() >= 2);
    }
}

/// The decoding of one RESP value from the head of `s`: the value and the
/// number of bytes it occupies.
pub open spec fn decode_spec(s: Seq<u8>) -> Option<(RespG, int)>
    decreases s.len(), 0nat,
{
    if s.len() == 0 {
        None
    } else if s[0] == 43 || s[0] == 45 {
        match find_crlf(s.skip(1)) {
            Some(i) => {
                let body = s.subrange(1, 1 + i);
                if s[0] == 43 {
                    Some((RespG::Simple(body), 1 + i + 2))
                } else {
                    Some((RespG::Error(body), 1 + i + 2))
                }
            },
            None => None,
        }
    } else if s[0] == 58 {
        match find_crlf(s.skip(1)) {
            Some(i) => {
                let d = s.subrange(1, 1 + i);
                if is_i64_rep(d) {
                    Some((RespG::Int(i64_val(d) as i64), 1 + i + 2))
                } else {
                    None
                }
            },
            None => None,
        }
    } else if s[0] == 36 {
        match find_crlf(s.skip(1)) {
            Some(i) => {
                let d = s.subrange(1, 1 + i);
                if d == seq![45u8, 49u8] {
                    Some((RespG::Nil, 5))
                } else if d.len() >= 1 && all_digits(d) {
                    let n = digits_val(d) as int;
                    if s.len() >= 1 + i + 2 + n + 2 && s[1 + i + 2 + n] == 13 && s[1 + i + 2 + n
                        + 1] == 10 {
                        Some((RespG::Bulk(s.subrange(1 + i + 2, 1 + i + 2 + n)), 1 + i + 2 + n + 2))
                    } else {
                        None
                    }
                } else {
                    None
                }
            },
            None => None,
        }
    } else if s[0] == 42 {
        match find_crlf(s.skip(1)) {
            Some(i) => {
                let d = s.subrange(1, 1 + i);
                if d.len() >= 1 && all_digits(d) {
                    proof {
                        lemma_find_crlf_bounds(s.skip(1));
                    }
                    let k = digits_val(d);
                    match decode_list(s.skip(1 + i + 2), k) {
                        Some((gs, m)) => Some((RespG::Arr(gs), 1 + i + 2 + m)),
                        None => None,
                    }
                } else {
                    None
                }
            },
            None => None,
        }
    } else {
        None
    }
}

/// The decoding of `k` consecutive RESP values from the head of `s`.
pub open spec fn decode_list(s: Seq<u8>, k: nat) -> Option<(Seq<RespG>, int)>
    decreases s.len(), k,
{
    if k == 0 {
        Some((Seq::empty(), 0))
    } else {
        match decode_spec(s) {
            Some((g, n)) => {
                if 1 <= n <= s.len() {
                    match decode_list(s.skip(n), (k - 1) as nat) {
                        Some((gs, m)) => Some((seq![g] + gs, n + m)),
                        None => None,
                    }
                } else {
                    None
                }
            },
            None => None,
        }
    }
}

/// Whether a value can be re-read from its own encoding: simple strings and
/// errors must not contain CR or LF bytes.
pub open spec fn wf_resp(g: RespG) -> bool
    decreases g, 0nat,
{
    match g {
        RespG::Simple(s) => forall|i: int| 0 <= i < s.len() ==> s[i] != 13 && s[i] != 10,
        RespG::Error(s) => forall|i: int| 0 <= i < s.len() ==> s[i] != 13 && s[i] != 10,
        RespG::Int(_) => true,
        RespG::Bulk(_) => true,
        RespG::Arr(gs) => wf_list(gs),
        RespG::Nil => true,
    }
}

/// Whether every value of a sequence is well formed.
pub open spec fn wf_list(gs: Seq<RespG>) -> bool
    decreases gs, gs.len(),
{
    if gs.len() == 0 {
        true
    } else {
        wf_resp(gs[0]) && wf_list(gs.drop_first())
    }
}

/// Every encoding is at least one byte long.
pub proof fn lemma_encode_len(g: RespG)
    ensures
        encode_spec(g).len() >= 1,
{
    match g {
        RespG::Simple(s) => {},
        RespG::Error(s) => {},
        RespG::Int(i) => {},
        RespG::Bulk(s) => {},
        RespG::Arr(gs) => {},
        RespG::Nil => {},
    }
}

/// The round-trip law: a well-formed value, encoded and followed by anything,
/// decodes back to itself, consuming exactly its encoding.
#[verifier::rlimit(100)]
pub proof fn lemma_round_trip(g: RespG, tail: Seq<u8>)
    requires
        wf_resp(g),
    ensures
        decode_spec(encode_spec(g) + tail) == Some((g, encode_spec(g).len() as int)),
    decreases g, 0nat,
{
    let e = encode_spec(g);
    let s = e + tail;
    match g {
        RespG::Simple(b) => {
            assert(s[0] == 43);
            assert(s.skip(1) =~= b + crlf() + tail);
            lemma_find_crlf_at(b, tail);
            assert(s.subrange(1, 1 + b.len() as int) =~= b);
        },
        RespG::Error(b) => {
            assert(s[0] == 45);
            assert(s.skip(1) =~= b + crlf() + tail);
            lemma_find_crlf_at(b, tail);
            assert(s.subrange(1, 1 + b.len() as int) =~= b);
        },
        RespG::Int(v) => {
            let d = crate::num::dec_rep_i(v as int);
            crate::num::lemma_dec_rep_i(v as int);
            if v < 0 {
                crate::num::lemma_dec_rep((-(v as int)) as nat);
                assert(forall|i: int| 0 <= i < d.len() ==> d[i] != 13 && d[i] != 10);
            } else {
                crate::num::lemma_dec_rep(v as nat);
                assert(forall|i: int| 0 <= i < d.len() ==> d[i] != 13 && d[i] != 10);
            }
            assert(s[0] == 58);
            assert(s.skip(1) =~= d + crlf() + tail);
            lemma_find_crlf_at(d, tail);
            assert(s.subrange(1, 1 + d.len() as int) =~= d);
            assert(i64_val(d) == v as int);
        },
        RespG::Bulk(b) => {
            let d = crate::num::dec_rep(b.len());
            crate::num::lemma_dec_rep(b.len());
            assert(forall|i: int| 0 <= i < d.len() ==> d[i] != 13 && d[i] != 10);
            assert(s[0] == 36);
            assert(s.skip(1) =~= d + crlf() + (b + crlf() + tail));
            lemma_find_crlf_at(d, b + crlf() + tail);
            let i = d.len() as int;
            assert(s.subrange(1, 1 + i) =~= d);
            assert(crate::num::is_digit(d[0]));
            assert(d != seq![45u8, 49u8]) by {
                if d == seq![45u8, 49u8] {
                    assert(d[0] == 45);
                }
            }
            let n = b.len() as int;
            assert(digits_val(d) == b.len());
            assert(s.len() >= 1 + i + 2 + n + 2);
            assert forall|j: int| 0 <= j < n implies s[1 + i + 2 + j] == b[j] by {
                assert(e[1 + i + 2 + j] == b[j]);
            }
            assert(s[1 + i + 2 + n] == 13);
            assert(s[1 + i + 2 + n + 1] == 10);
            assert(s.subrange(1 + i + 2, 1 + i + 2 + n) =~= b);
            assert(e.len() == 1 + i + 2 + n + 2);
        },
        RespG::Arr(gs) => {
            let d = crate::num::dec_rep(gs.len());
            crate::num::lemma_dec_rep(gs.len());
            assert(forall|i: int| 0 <= i < d.len() ==> d[i] != 13 && d[i] != 10);
            assert(s[0] == 42);
            assert(s.skip(1) =~= d + crlf() + (encode_list(gs) + tail));
            lemma_find_crlf_at(d, encode_list(gs) + tail);
            let i = d.len() as int;
            assert(s.subrange(1, 1 + i) =~= d);
            assert(digits_val(d) == gs.len());
            assert(s.skip(1 + i + 2) =~= encode_list(gs) + tail);
            lemma_round_trip_list(gs, tail);
            assert(e.len() == 1 + i + 2 + encode_list(gs).len());
        },
        RespG::Nil => {
            assert(s[0] == 36);
            let d = seq![45u8, 49u8];
            assert(s.skip(1) =~= d + crlf() + tail);
            lemma_find_crlf_at(d, tail);
            assert(s.subrange(1, 3) =~= d);
            assert(e.len() == 5);
        },
    }
}

/// The round-trip law for a sequence of values read in order.
pub proof fn lemma_round_trip_list(gs: Seq<RespG>, tail: Seq<u8>)
    requires
        wf_list(gs),
    ensures
        decode_list(encode_list(gs) + tail, gs.len()) == Some(
            (gs, encode_list(gs).len() as int),
        ),
    decreases gs, gs.len(),
{
    let e = encode_list(gs);
    let s = e + tail;
    if gs.len() == 0 {
        assert(e == Seq::<u8>::empty());
        assert(decode_list(s, 0) == Some((Seq::<RespG>::empty(), 0int)));
        assert(gs =~= Seq::<RespG>::empty());
    } else {
        let g0 = gs[0];
        let rest = gs.drop_first();
        let e0 = encode_spec(g0);
        assert(e == e0 + encode_list(rest));
        assert(s =~= e0 + (encode_list(rest) + tail));
        lemma_round_trip(g0, encode_list(rest) + tail);
        lemma_encode_len(g0);
        let n0 = e0.len() as int;
        assert(decode_spec(s) == Some((g0, n0)));
        assert(n0 <= s.len());
        assert(s.skip(n0) =~= encode_list(rest) + tail);
        lemma_round_trip_list(rest, tail);
        assert(seq![g0] + rest =~= gs);
        assert(e.len() == n0 + encode_list(rest).len());
    }
}

} // verus!

// The executable decoder.

use crate::bytes::sub_bytes;
use crate::num::{parse_i64, parse_u64};

verus! {

/// If the first CRLF of `s` stands at `i`, no pair before `i` is a CRLF.
pub proof fn lemma_find_crlf_first(s: Seq<u8>)
    ensures
        match find_crlf(s) {
            Some(i) => forall|j: int| 0 <= j < i ==> !(#[trigger] s[j] == 13 && s[j + 1] == 10),
            None => forall|j: int| 0 <= j && j + 2 <= s.len() ==> !(#[trigger] s[j] == 13 && s[j + 1] == 10),
        },
    decreases s.len(),
{
    if s.len() >= 2 && !(s[0] == 13 && s[1] == 10) {
        lemma_find_crlf_first(s.drop_first());
        lemma_find_crlf_bounds(s.drop_first());
        match find_crlf(s.drop_first()) {
            Some(i) => {
                assert forall|j: int| 0 <= j < i + 1 implies !(#[trigger] s[j] == 13 && s[j + 1] == 10) by {
                    if j > 0 {
                        assert(s.drop_first()[j - 1] == s[j]);
                        assert(s.drop_first()[j] == s[j + 1]);
                    }
                }
            },
            None => {
                assert forall|j: int| 0 <= j && j + 2 <= s.len() implies !(#[trigger] s[j] == 13 && s[
                    j + 1] == 10) by {
                    if j > 0 {
                        assert(s.drop_first()[j - 1] == s[j]);
                        assert(s.drop_first()[j] == s[j + 1]);
                    }
                }
            },
        }
    }
}

/// A CRLF at `i` with none before it is the first CRLF.
pub proof fn lemma_find_crlf_exists(s: Seq<u8>, i: int)
    requires
        0 <= i,
        i + 2 <= s.len(),
        s[i] == 13,
        s[i + 1] == 10,
        forall|j: int| 0 <= j < i ==> !(#[trigger] s[j] == 13 && s[j + 1] == 10),
    ensures
        find_crlf(s) == Some(i),
    decreases i,
{
    if i > 0 {
        assert(!(s[0] == 13 && s[1] == 10));
        assert(s.drop_first()[i - 1] == s[i]);
        assert(s.drop_first()[i] == s[i + 1]);
        assert forall|j: int| 0 <= j < i - 1 implies !(#[trigger] s.drop_first()[j] == 13
            && s.drop_first()[j + 1] == 10) by {
            assert(s.drop_first()[j] == s[j + 1]);
            assert(s.drop_first()[j + 1] == s[j + 2]);
        }
        lemma_find_crlf_exists(s.drop_first(), i - 1);
    }
}

/// More values never decode from a buffer than it has bytes.
pub proof fn lemma_decode_list_short(s: Seq<u8>, k: nat)
    requires
        k > s.len(),
    ensures
        decode_list(s, k) is None,
    decreases k,
{
    match decode_spec(s) {
        Some((g, n)) => {
            if 1 <= n <= s.len() {
                lemma_decode_list_short(s.skip(n), (k - 1) as nat);
            }
        },
        None => {},
    }
}

/// A decoded value occupies at least three bytes and at most the whole buffer.
pub proof fn lemma_decode_bounds(s: Seq<u8>)
    ensures
        match decode_spec(s) {
            Some((g, n)) => 3 <= n <= s.len(),
            None => true,
        },
    decreases s.len(), 0nat,
{
    if s.len() > 0 && (s[0] == 43 || s[0] == 45 || s[0] == 58 || s[0] == 36 || s[0] == 42) {
        lemma_find_crlf_bounds(s.skip(1));
        match find_crlf(s.skip(1)) {
            Some(i) => {
                if s[0] == 42 {
                    let d = s.subrange(1, 1 + i);
                    if d.len() >= 1 && all_digits(d) {
                        lemma_decode_list_bounds(s.skip(1 + i + 2), digits_val(d));
                    }
                }
            },
            None => {},
        }
    }
}

/// A decoded list occupies at most the whole buffer.
pub proof fn lemma_decode_list_bounds(s: Seq<u8>, k: nat)
    ensures
        match decode_list(s, k) {
            Some((gs, m)) => 0 <= m <= s.len() && gs.len() == k,
            None => true,
        },
    decreases s.len(), k,
{
    if k > 0 {
        match decode_spec(s) {
            Some((g, n)) => {
                if 1 <= n <= s.len() {
                    lemma_decode_list_bounds(s.skip(n), (k - 1) as nat);
                }
            },
            None => {},
        }
    }
}

/// Finds the first CRLF in `buf` at or after `pos`.
pub fn find_crlf_from(buf: &Vec<u8>, pos: usize) -> (r: Option<usize>)
    requires
        pos <= buf.len(),
    ensures
        match r {
            Some(i) => find_crlf(buf@.skip(pos as int)) == Some(i as int) && pos + i + 2
                <= buf.len(),
            None => find_crlf(buf@.skip(pos as int)) is None,
        },
{
    let ghost s = buf@.skip(pos as int);
    let mut k: usize = pos;
    while buf.len() > 0 && k < buf.len() - 1
        invariant
            pos <= k <= buf.len(),
            s == buf@.skip(pos as int),
            forall|j: int| 0 <= j < k - pos ==> !(#[trigger] s[j] == 13 && s[j + 1] == 10),
        decreases buf.len() - k,
    {
        if buf[k] == 13 && buf[k + 1] == 10 {
            proof {
                assert(s[k - pos] == buf@[k as int]);
                assert(s[k - pos + 1] == buf@[k as int + 1]);
                lemma_find_crlf_exists(s, k - pos);
            }
            return Some(k - pos);
        }
        proof {
            assert(s[k - pos] == buf@[k as int]);
            assert(s[k - pos + 1] == buf@[k as int + 1]);
        }
        k = k + 1;
    }
    proof {
        lemma_find_crlf_first(s);
        if find_crlf(s) is Some {
            lemma_find_crlf_bounds(s);
            let i = find_crlf(s)->0;
            assert(!(s[i] == 13 && s[i + 1] == 10));
        }
    }
    None
}

impl RespDataType {
    /// Decodes one RESP value starting at `pos`, returning it with the
    /// number of bytes it occupied.
    #[verifier::rlimit(60)]
    pub fn decode(buf: &Vec<u8>, pos: usize) -> (r: Option<(RespDataType, usize)>)
        requires
            pos <= buf.len(),
        ensures
            match r {
                Some(p) => pos + p.1 <= buf.len() && decode_spec(buf@.skip(pos as int)) == Some(
                    (p.0@, p.1 as int),
                ),
                None => decode_spec(buf@.skip(pos as int)) is None,
            },
        decreases buf.len() - pos, 0nat,
    {
        let ghost s = buf@.skip(pos as int);
        if pos == buf.len() {
            return None;
        }
        let b0 = buf[pos];
        proof {
            assert(s[0] == b0);
        }
        if b0 == 43 || b0 == 45 {
            match find_crlf_from(buf, pos + 1) {
                Some(i) => {
                    proof {
                        assert(buf@.skip(pos as int + 1) =~= s.skip(1));
                    }
                    let body = sub_bytes(buf, pos + 1, pos + 1 + i);
                    proof {
                        assert(body@ =~= s.subrange(1, 1 + i as int));
                    }
                    if b0 == 43 {
                        Some((RespDataType::SimpleString(body), i + 3))
                    } else {
                        Some((RespDataType::SimpleError(body), i + 3))
                    }
                },
                None => {
                    proof {
                        assert(buf@.skip(pos as int + 1) =~= s.skip(1));
                    }
                    None
                },
            }
        } else if b0 == 58 {
            match find_crlf_from(buf, pos + 1) {
                Some(i) => {
                    proof {
                        assert(buf@.skip(pos as int + 1) =~= s.skip(1));
                    }
                    let d = sub_bytes(buf, pos + 1, pos + 1 + i);
                    proof {
                        assert(d@ =~= s.subrange(1, 1 + i as int));
                    }
                    match parse_i64(&d) {
                        Some(v) => Some((RespDataType::Integer(v), i + 3)),
                        None => None,
                    }
                },
                None => {
                    proof {
                        assert(buf@.skip(pos as int + 1) =~= s.skip(1));
                    }
                    None
                },
            }
        } else if b0 == 36 {
            match find_crlf_from(buf, pos + 1) {
                Some(i) => {
                    proof {
                        assert(buf@.skip(pos as int + 1) =~= s.skip(1));
                    }
                    let d = sub_bytes(buf, pos + 1, pos + 1 + i);
                    proof {
                        assert(d@ =~= s.subrange(1, 1 + i as int));
                    }
                    if d.len() == 2 && d[0] == 45 && d[1] == 49 {
                        proof {
                            assert(d@ =~= seq![45u8, 49u8]);
                        }
                        Some((RespDataType::Nil, 5))
                    } else {
                        proof {
                            if d@ == seq![45u8, 49u8] {
                                assert(d@.len() == 2 && d@[0] == 45 && d@[1] == 49);
                                assert(false);
                            }
                        }
                        match parse_u64(&d) {
                            Some(n64) => {
                                let start = pos + i + 3;
                                let avail: u64 = (buf.len() - start) as u64;
                                if avail < 2 || n64 > avail - 2 {
                                    proof {
                                        assert(s.len() < 1 + i as int + 2 + digits_val(d@) + 2);
                                    }
                                    None
                                } else {
                                    let n = n64 as usize;
                                    if buf[start + n] == 13 && buf[start + n + 1] == 10 {
                                        let body = sub_bytes(buf, start, start + n);
                                        proof {
                                            assert(s[1 + i as int + 2 + n as int] == buf@[start
                                                as int + n as int]);
                                            assert(s[1 + i as int + 2 + n as int + 1] == buf@[
                                                start as int + n as int + 1]);
                                            assert(body@ =~= s.subrange(
                                                1 + i as int + 2,
                                                1 + i as int + 2 + n as int,
                                            ));
                                        }
                                        Some((RespDataType::BulkString(body), i + 3 + n + 2))
                                    } else {
                                        proof {
                                            assert(s[1 + i as int + 2 + n as int] == buf@[start
                                                as int + n as int]);
                                            assert(s[1 + i as int + 2 + n as int + 1] == buf@[
                                                start as int + n as int + 1]);
                                        }
                                        None
                                    }
                                }
                            },
                            None => {
                                proof {
                                    if d@.len() >= 1 && all_digits(d@) {
                                        assert(digits_val(d@) > u64::MAX);
                                        assert(s.len() <= buf@.len() <= usize::MAX);
                                        assert(s.len() < 1 + i as int + 2 + digits_val(d@) + 2);
                                    }
                                }
                                None
                            },
                        }
                    }
                },
                None => {
                    proof {
                        assert(buf@.skip(pos as int + 1) =~= s.skip(1));
                    }
                    None
                },
            }
        } else if b0 == 42 {
            match find_crlf_from(buf, pos + 1) {
                Some(i) => {
                    proof {
                        assert(buf@.skip(pos as int + 1) =~= s.skip(1));
                    }
                    let d = sub_bytes(buf, pos + 1, pos + 1 + i);
                    proof {
                        assert(d@ =~= s.subrange(1, 1 + i as int));
                    }
                    match parse_u64(&d) {
                        Some(k64) => {
                            let start = pos + i + 3;
                            proof {
                                assert(buf@.skip(start as int) =~= s.skip(1 + i as int + 2));
                            }
                            match Self::decode_many(buf, start, k64) {
                                Some((items, m)) => Some((RespDataType::Array(items), i + 3 + m)),
                                None => None,
                            }
                        },
                        None => {
                            proof {
                                if d@.len() >= 1 && all_digits(d@) {
                                    assert(digits_val(d@) > u64::MAX);
                                    assert(s.skip(1 + i as int + 2).len() <= usize::MAX);
                                    lemma_decode_list_short(
                                        s.skip(1 + i as int + 2),
                                        digits_val(d@),
                                    );
                                }
                            }
                            None
                        },
                    }
                },
                None => {
                    proof {
                        assert(buf@.skip(pos as int + 1) =~= s.skip(1));
                    }
                    None
                },
            }
        } else {
            None
        }
    }

    /// Decodes `k` consecutive RESP values starting at `pos`.
    pub fn decode_many(buf: &Vec<u8>, pos: usize, k: u64) -> (r: Option<(Vec<RespDataType>, usize)>)
        requires
            pos <= buf.len(),
        ensures
            match r {
                Some(p) => pos + p.1 <= buf.len() && decode_list(buf@.skip(pos as int), k as nat)
                    == Some((view_list(p.0@), p.1 as int)),
                None => decode_list(buf@.skip(pos as int), k as nat) is None,
            },
        decreases buf.len() - pos, k,
    {
        let ghost s = buf@.skip(pos as int);
        if k == 0 {
            let items: Vec<RespDataType> = Vec::new();
            proof {
                assert(view_list(items@) =~= Seq::<RespG>::empty());
            }
            return Some((items, 0));
        }
        match Self::decode(buf, pos) {
            Some((g, n)) => {
                proof {
                    lemma_decode_bounds(s);
                    assert(buf@.skip(pos as int + n as int) =~= s.skip(n as int));
                }
                match Self::decode_many(buf, pos + n, k - 1) {
                    Some((mut items, m)) => {
                        let ghost olditems = items@;
                        items.insert(0, g);
                        proof {
                            assert(items@ == olditems.insert(0, g));
                            assert(items@.drop_first() =~= olditems);
                            assert(items@[0] == g);
                            assert(view_list(items@) == seq![g@] + view_list(olditems));
                            match decode_list(s.skip(n as int), (k - 1) as nat) {
                                Some(pp) => {
                                    assert(view_list(items@) =~= seq![g@] + pp.0);
                                },
                                None => {
                                    assert(false);
                                },
                            }
                        }
                        Some((items, n + m))
                    },
                    None => None,
                }
            },
            None => None,
        }
    }
}

} // verus!
