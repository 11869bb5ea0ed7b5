use vstd::prelude::*;

use crate::bytes::sub_bytes;
use crate::num::dec_rep;

verus! {

/// One string binding read from a snapshot file: the key, the value, and
/// the absolute expiry in milliseconds since the epoch, if any.
pub struct RdbRecord {
    pub key: Vec<u8>,
    pub value: Vec<u8>,
    pub expiry_ms: Option<u64>,
}

/// A snapshot binding, at the specification level.
#[verifier::ext_equal]
pub struct RecordG {
    pub key: Seq<u8>,
    pub value: Seq<u8>,
    pub expiry_ms: Option<u64>,
}

impl View for RdbRecord {
    type V = RecordG;

    open spec fn view(&self) -> RecordG {
        RecordG { key: self.key@, value: self.value@, expiry_ms: self.expiry_ms }
    }
}

impl DeepView for RdbRecord {
    type V = RecordG;

    open spec fn deep_view(&self) -> RecordG {
        self@
    }
}

/// Why a snapshot could not be read.
#[derive(Clone, Copy, PartialEq, Eq, Structural, Debug)]
pub enum RdbError {
    Malformed,
}

/// A little-endian 16-bit number at `pos`.
pub open spec fn le16(b: Seq<u8>, pos: int) -> u64 {
    (b[pos] + b[pos + 1] * 0x100) as u64
}

/// A little-endian 32-bit number at `pos`.
pub open spec fn le32(b: Seq<u8>, pos: int) -> u64 {
    (b[pos] + b[pos + 1] * 0x100 + b[pos + 2] * 0x1_0000 + b[pos + 3] * 0x100_0000) as u64
}

/// A little-endian 64-bit number at `pos`.
pub open spec fn le64(b: Seq<u8>, pos: int) -> u64 {
    (b[pos] + b[pos + 1] * 0x100 + b[pos + 2] * 0x1_0000 + b[pos + 3] * 0x100_0000 + b[pos + 4]
        * 0x1_0000_0000 + b[pos + 5] * 0x100_0000_0000 + b[pos + 6] * 0x1_0000_0000_0000 + b[pos
        + 7] * 0x100_0000_0000_0000) as u64
}

/// A size-encoded number at `pos`: its value, the position after it, and
/// whether it is the integer-string subtype. The first byte's top two bits
/// pick the encoding: six inline bits; fourteen bits over two bytes; a
/// 32-bit little-endian word; or an integer of one, two or four bytes.
#[verifier::opaque]
pub open spec fn spec_size(b: Seq<u8>, pos: int) -> Option<(u64, int, bool)> {
    if pos < 0 || pos >= b.len() {
        None
    } else {
        let x = b[pos];
        let tag = x / 64;
        if tag == 0 {
            Some(((x % 64) as u64, pos + 1, false))
        } else if tag == 1 {
            if b.len() - pos >= 2 {
                Some((((x % 64) * 0x100 + b[pos + 1]) as u64, pos + 2, false))
            } else {
                None
            }
        } else if tag == 2 {
            if b.len() - pos >= 5 {
                Some((le32(b, pos + 1), pos + 5, false))
            } else {
                None
            }
        } else {
            if x == 0xC0 {
                if b.len() - pos >= 2 {
                    Some((b[pos + 1] as u64, pos + 2, true))
                } else {
                    None
                }
            } else if x == 0xC1 {
                if b.len() - pos >= 3 {
                    Some((le16(b, pos + 1), pos + 3, true))
                } else {
                    None
                }
            } else if x == 0xC2 {
                if b.len() - pos >= 5 {
                    Some((le32(b, pos + 1), pos + 5, true))
                } else {
                    None
                }
            } else {
                None
            }
        }
    }
}

/// A size-prefixed string at `pos`: raw bytes of the given length, or the
/// decimal text of an integer subtype.
pub open spec fn spec_rdb_string(b: Seq<u8>, pos: int) -> Option<(Seq<u8>, int)> {
    match spec_size(b, pos) {
        Some((v, p, int_sub)) => {
            if int_sub {
                Some((dec_rep(v as nat), p))
            } else {
                if p + v <= b.len() {
                    Some((b.subrange(p, p + v), p + v))
                } else {
                    None
                }
            }
        },
        None => None,
    }
}

/// `cnt` records read from `pos`: a plain binding, one with a millisecond
/// or second expiry, or a skipped unknown opcode byte.
#[verifier::opaque]
pub open spec fn spec_records(b: Seq<u8>, pos: int, cnt: nat) -> Option<Seq<RecordG>>
    decreases cnt,
{
    if cnt == 0 {
        Some(Seq::empty())
    } else if pos < 0 || pos >= b.len() {
        None
    } else {
        let op = b[pos];
        if op == 0x00 {
            match spec_rdb_string(b, pos + 1) {
                Some((k, p1)) => match spec_rdb_string(b, p1) {
                    Some((v, p2)) => match spec_records(b, p2, (cnt - 1) as nat) {
                        Some(rest) => Some(
                            seq![RecordG { key: k, value: v, expiry_ms: None }] + rest,
                        ),
                        None => None,
                    },
                    None => None,
                },
                None => None,
            }
        } else if op == 0xFC {
            if pos + 10 <= b.len() {
                let ms = le64(b, pos + 1);
                match spec_rdb_string(b, pos + 10) {
                    Some((k, p1)) => match spec_rdb_string(b, p1) {
                        Some((v, p2)) => match spec_records(b, p2, (cnt - 1) as nat) {
                            Some(rest) => Some(
                                seq![RecordG { key: k, value: v, expiry_ms: Some(ms) }] + rest,
                            ),
                            None => None,
                        },
                        None => None,
                    },
                    None => None,
                }
            } else {
                None
            }
        } else if op == 0xFD {
            if pos + 6 <= b.len() {
                let secs = le32(b, pos + 1);
                match spec_rdb_string(b, pos + 6) {
                    Some((k, p1)) => match spec_rdb_string(b, p1) {
                        Some((v, p2)) => match spec_records(b, p2, (cnt - 1) as nat) {
                            Some(rest) => Some(
                                seq![
                                    RecordG {
                                        key: k,
                                        value: v,
                                        expiry_ms: Some((secs * 1000) as u64),
                                    },
                                ] + rest,
                            ),
                            None => None,
                        },
                        None => None,
                    },
                    None => None,
                }
            } else {
                None
            }
        } else {
            spec_records(b, pos + 1, (cnt - 1) as nat)
        }
    }
}

/// The position just past the first `0xFE` byte, or past the end.
pub open spec fn fe_pos(b: Seq<u8>, pos: int) -> int
    decreases b.len() - pos,
{
    if pos < 0 || pos >= b.len() {
        pos
    } else if b[pos] == 0xFE {
        pos
    } else {
        fe_pos(b, pos + 1)
    }
}

/// A stop position free of section marks before it is `fe_pos`.
pub proof fn lemma_fe_pos_stop(b: Seq<u8>, pos: int, k: int)
    requires
        0 <= pos <= k <= b.len(),
        forall|j: int| pos <= j < k ==> b[j] != 0xFE,
        k < b.len() ==> b[k] == 0xFE,
    ensures
        fe_pos(b, pos) == k,
    decreases k - pos,
{
    if pos < k {
        lemma_fe_pos_stop(b, pos + 1, k);
    }
}

/// What a whole snapshot holds: after the first database mark, its index,
/// the table-size byte and the two size fields, the records.
pub open spec fn spec_rdb_load(b: Seq<u8>) -> Option<Seq<RecordG>> {
    let f = fe_pos(b, 0);
    if f >= b.len() {
        None
    } else {
        match spec_size(b, f + 1) {
            Some((_idx, p1, _)) => {
                match spec_size(b, p1 + 1) {
                    Some((cnt, p2, _)) => {
                        match spec_size(b, p2) {
                            Some((_exp, p3, _)) => spec_records(b, p3, cnt as nat),
                            None => None,
                        }
                    },
                    None => None,
                }
            },
            None => None,
        }
    }
}

/// Reads the snapshot format.
pub struct Db {}

impl Db {
    /// Reads one size-encoded number at `pos`.
    pub fn size_encoded_bytes(&mut self, b: &Vec<u8>, pos: usize) -> (r: Option<(u64, usize, bool)>)
        ensures
            match r {
                Some(t) => spec_size(b@, pos as int) == Some((t.0, t.1 as int, t.2)) && pos < t.1
                    <= b.len(),
                None => spec_size(b@, pos as int) is None,
            },
    {
        proof {
            reveal(spec_size);
        }
        if pos >= b.len() {
            return None;
        }
        let x = b[pos];
        let tag = x / 64;
        if tag == 0 {
            Some(((x % 64) as u64, pos + 1, false))
        } else if tag == 1 {
            if b.len() - pos >= 2 {
                Some(((x % 64) as u64 * 0x100 + b[pos + 1] as u64, pos + 2, false))
            } else {
                None
            }
        } else if tag == 2 {
            if b.len() - pos >= 5 {
                let v = b[pos + 1] as u64 + b[pos + 2] as u64 * 0x100 + b[pos + 3] as u64
                    * 0x1_0000 + b[pos + 4] as u64 * 0x100_0000;
                Some((v, pos + 5, false))
            } else {
                None
            }
        } else {
            if x == 0xC0 {
                if b.len() - pos >= 2 {
                    Some((b[pos + 1] as u64, pos + 2, true))
                } else {
                    None
                }
            } else if x == 0xC1 {
                if b.len() - pos >= 3 {
                    Some((b[pos + 1] as u64 + b[pos + 2] as u64 * 0x100, pos + 3, true))
                } else {
                    None
                }
            } else if x == 0xC2 {
                if b.len() - pos >= 5 {
                    let v = b[pos + 1] as u64 + b[pos + 2] as u64 * 0x100 + b[pos + 3] as u64
                        * 0x1_0000 + b[pos + 4] as u64 * 0x100_0000;
                    Some((v, pos + 5, true))
                } else {
                    None
                }
            } else {
                None
            }
        }
    }

    /// Reads one size-prefixed string at `pos`.
    pub fn string_encoded(&mut self, b: &Vec<u8>, pos: usize) -> (r: Option<(Vec<u8>, usize)>)
        ensures
            match r {
                Some(t) => spec_rdb_string(b@, pos as int) == Some((t.0@, t.1 as int)) && pos < t.1
                    <= b.len(),
                None => spec_rdb_string(b@, pos as int) is None,
            },
    {
        proof {
            reveal(spec_rdb_string);
        }
        match self.size_encoded_bytes(b, pos) {
            Some((v, p, int_sub)) => {
                if int_sub {
                    Some((crate::num::format_u64(v), p))
                } else {
                    if v <= (b.len() - p) as u64 {
                        let n = v as usize;
                        Some((sub_bytes(b, p, p + n), p + n))
                    } else {
                        None
                    }
                }
            },
            None => None,
        }
    }

    /// Reads a whole snapshot into its string bindings, with absolute
    /// millisecond expiries.
    #[verifier::loop_isolation(false)]
    #[verifier::rlimit(100)]
    pub fn load(&mut self, b: &Vec<u8>) -> (r: Result<Vec<RdbRecord>, RdbError>)
        ensures
            match r {
                Ok(recs) => spec_rdb_load(b@) == Some(recs.deep_view()),
                Err(_) => spec_rdb_load(b@) is None,
            },
    {
        let mut f: usize = 0;
        while f < b.len() && b[f] != 0xFE
            invariant
                f <= b.len(),
                forall|j: int| 0 <= j < f ==> b@[j] != 0xFE,
            decreases b.len() - f,
        {
            f = f + 1;
        }
        proof {
            lemma_fe_pos_stop(b@, 0, f as int);
        }
        if f >= b.len() {
            return Err(RdbError::Malformed);
        }
        let s1 = match self.size_encoded_bytes(b, f + 1) {
            Some(t) => t,
            None => {
                return Err(RdbError::Malformed);
            },
        };
        if s1.1 >= b.len() {
            proof {
                reveal(spec_size);
            }
            return Err(RdbError::Malformed);
        }
        let s2 = match self.size_encoded_bytes(b, s1.1 + 1) {
            Some(t) => t,
            None => {
                return Err(RdbError::Malformed);
            },
        };
        let cnt = s2.0;
        let s3 = match self.size_encoded_bytes(b, s2.1) {
            Some(t) => t,
            None => {
                return Err(RdbError::Malformed);
            },
        };
        self.load_records(b, s3.1, cnt)
    }

    /// Reads `cnt` records from `pos`.
    #[verifier::loop_isolation(false)]
    #[verifier::rlimit(100)]
    fn load_records(&mut self, b: &Vec<u8>, start: usize, cnt: u64) -> (r: Result<
        Vec<RdbRecord>,
        RdbError,
    >)
        requires
            start <= b.len(),
        ensures
            match r {
                Ok(recs) => spec_records(b@, start as int, cnt as nat) == Some(recs.deep_view()),
                Err(_) => spec_records(b@, start as int, cnt as nat) is None,
            },
    {
        proof {
            reveal(spec_records);
        }
        let mut pos: usize = start;
        let mut rem: u64 = cnt;
        let mut acc: Vec<RdbRecord> = Vec::new();
        while rem > 0
            invariant
                pos <= b.len(),
                rem <= cnt,
                spec_records(b@, start as int, cnt as nat) == (match spec_records(
                    b@,
                    pos as int,
                    rem as nat,
                ) {
                    Some(rest) => Some(acc.deep_view() + rest),
                    None => None::<Seq<RecordG>>,
                }),
            decreases rem,
        {
            if pos >= b.len() {
                proof {
                    reveal(spec_records);
                }
                return Err(RdbError::Malformed);
            }
            let op = b[pos];
            if op == 0x00 {
                let k = match self.string_encoded(b, pos + 1) {
                    Some(t) => t,
                    None => {
                        proof {
                    reveal(spec_records);
                }
                return Err(RdbError::Malformed);
                    },
                };
                let v = match self.string_encoded(b, k.1) {
                    Some(t) => t,
                    None => {
                        proof {
                    reveal(spec_records);
                }
                return Err(RdbError::Malformed);
                    },
                };
                let ghost oldacc = acc.deep_view();
                acc.push(RdbRecord { key: k.0, value: v.0, expiry_ms: None });
                pos = v.1;
                rem = rem - 1;
                proof {
                    reveal(spec_records);
                    assert(acc.deep_view() =~~= oldacc.push(acc@.last()@));
                }
            } else if op == 0xFC {
                if b.len() - pos < 10 {
                    proof {
                    reveal(spec_records);
                }
                return Err(RdbError::Malformed);
                }
                let ms: u64 = b[pos + 1] as u64 + b[pos + 2] as u64 * 0x100 + b[pos + 3] as u64
                    * 0x1_0000 + b[pos + 4] as u64 * 0x100_0000 + b[pos + 5] as u64
                    * 0x1_0000_0000 + b[pos + 6] as u64 * 0x100_0000_0000 + b[pos + 7] as u64
                    * 0x1_0000_0000_0000 + b[pos + 8] as u64 * 0x100_0000_0000_0000;
                let k = match self.string_encoded(b, pos + 10) {
                    Some(t) => t,
                    None => {
                        proof {
                    reveal(spec_records);
                }
                return Err(RdbError::Malformed);
                    },
                };
                let v = match self.string_encoded(b, k.1) {
                    Some(t) => t,
                    None => {
                        proof {
                    reveal(spec_records);
                }
                return Err(RdbError::Malformed);
                    },
                };
                let ghost oldacc = acc.deep_view();
                acc.push(RdbRecord { key: k.0, value: v.0, expiry_ms: Some(ms) });
                pos = v.1;
                rem = rem - 1;
                proof {
                    reveal(spec_records);
                    assert(acc.deep_view() =~~= oldacc.push(acc@.last()@));
                }
            } else if op == 0xFD {
                if b.len() - pos < 6 {
                    proof {
                    reveal(spec_records);
                }
                return Err(RdbError::Malformed);
                }
                let secs: u64 = b[pos + 1] as u64 + b[pos + 2] as u64 * 0x100 + b[pos + 3] as u64
                    * 0x1_0000 + b[pos + 4] as u64 * 0x100_0000;
                proof {
                    assert(secs <= 0xFFFF_FFFF);
                }
                let k = match self.string_encoded(b, pos + 6) {
                    Some(t) => t,
                    None => {
                        proof {
                    reveal(spec_records);
                }
                return Err(RdbError::Malformed);
                    },
                };
                let v = match self.string_encoded(b, k.1) {
                    Some(t) => t,
                    None => {
                        proof {
                    reveal(spec_records);
                }
                return Err(RdbError::Malformed);
                    },
                };
                let ghost oldacc = acc.deep_view();
                acc.push(RdbRecord { key: k.0, value: v.0, expiry_ms: Some(secs * 1000) });
                pos = v.1;
                rem = rem - 1;
                proof {
                    reveal(spec_records);
                    assert(acc.deep_view() =~~= oldacc.push(acc@.last()@));
                }
            } else {
                pos = pos + 1;
                rem = rem - 1;
                proof {
                    reveal(spec_records);
                }
            }
        }
        proof {
            reveal(spec_records);
            assert(spec_records(b@, pos as int, 0) == Some(Seq::<RecordG>::empty()));
            assert(acc.deep_view() + Seq::<RecordG>::empty() =~= acc.deep_view());
        }
        Ok(acc)
    }
}

} // verus!
