use vstd::prelude::*;

use crate::bytes::sub_bytes;
use crate::codec::{find_crlf, find_crlf_from};
use crate::num::{all_digits, digits_val, parse_u64};

verus! {

/// The outcome of scanning a buffer for one complete frame: the frame's
/// byte length, or a request for more bytes, or corruption.
pub enum FrameScan {
    Complete(usize),
    Incomplete,
    Malformed,
}

/// The same outcome at the specification level, with an unbounded length.
pub enum ScanG {
    Complete(int),
    Incomplete,
    Malformed,
}

/// Scan of one bulk string (`$<n>`, CRLF, `n` bytes, CRLF) at the head of `s`.
pub open spec fn scan_bulk(s: Seq<u8>) -> ScanG {
    if s.len() == 0 {
        ScanG::Incomplete
    } else if s[0] != 36 {
        ScanG::Malformed
    } else {
        match find_crlf(s.skip(1)) {
            None => ScanG::Incomplete,
            Some(i) => {
                let d = s.subrange(1, 1 + i);
                if d.len() >= 1 && all_digits(d) {
                    if s.len() >= 1 + i + 2 + digits_val(d) + 2 {
                        ScanG::Complete(1 + i + 2 + digits_val(d) + 2)
                    } else {
                        ScanG::Incomplete
                    }
                } else {
                    ScanG::Malformed
                }
            },
        }
    }
}

/// Scan of `k` consecutive bulk strings at the head of `s`.
pub open spec fn scan_elems(s: Seq<u8>, k: nat) -> ScanG
    decreases k,
{
    if k == 0 {
        ScanG::Complete(0)
    } else {
        match scan_bulk(s) {
            ScanG::Complete(n) => {
                if 1 <= n <= s.len() {
                    match scan_elems(s.skip(n), (k - 1) as nat) {
                        ScanG::Complete(m) => ScanG::Complete(n + m),
                        ScanG::Incomplete => ScanG::Incomplete,
                        ScanG::Malformed => ScanG::Malformed,
                    }
                } else {
                    ScanG::Malformed
                }
            },
            ScanG::Incomplete => ScanG::Incomplete,
            ScanG::Malformed => ScanG::Malformed,
        }
    }
}

/// Scan of one frame at the head of `s`: a line frame (`+`, `-`, `:`),
/// a bulk string, or an array of bulk strings.
pub open spec fn scan_frame(s: Seq<u8>) -> ScanG {
    if s.len() == 0 {
        ScanG::Incomplete
    } else if s[0] == 43 || s[0] == 45 || s[0] == 58 {
        match find_crlf(s) {
            Some(i) => ScanG::Complete(i + 2),
            None => ScanG::Incomplete,
        }
    } else if s[0] == 36 {
        scan_bulk(s)
    } else if s[0] == 42 {
        match find_crlf(s.skip(1)) {
            None => ScanG::Incomplete,
            Some(i) => {
                let d = s.subrange(1, 1 + i);
                if d.len() >= 1 && all_digits(d) {
                    if digits_val(d) > s.skip(1 + i + 2).len() {
                        ScanG::Incomplete
                    } else {
                    match scan_elems(s.skip(1 + i + 2), digits_val(d)) {
                        ScanG::Complete(m) => ScanG::Complete(1 + i + 2 + m),
                        ScanG::Incomplete => ScanG::Incomplete,
                        ScanG::Malformed => ScanG::Malformed,
                    }
                    }
                } else {
                    ScanG::Malformed
                }
            },
        }
    } else {
        ScanG::Malformed
    }
}

/// A complete scan never runs past the end of the buffer.
pub proof fn lemma_scan_elems_bounds(s: Seq<u8>, k: nat)
    ensures
        match scan_elems(s, k) {
            ScanG::Complete(m) => 0 <= m <= s.len(),
            _ => true,
        },
    decreases k,
{
    if k > 0 {
        match scan_bulk(s) {
            ScanG::Complete(n) => {
                if 1 <= n <= s.len() {
                    lemma_scan_elems_bounds(s.skip(n), (k - 1) as nat);
                }
            },
            _ => {},
        }
    }
}

/// Scans one bulk string at `pos`.
#[verifier::loop_isolation(false)]
fn scan_bulk_at(buf: &Vec<u8>, pos: usize) -> (r: FrameScan)
    requires
        pos <= buf.len(),
    ensures
        match r {
            FrameScan::Complete(n) => scan_bulk(buf@.skip(pos as int)) == ScanG::Complete(
                n as int,
            ) && 5 <= n <= buf.len() - pos,
            FrameScan::Incomplete => scan_bulk(buf@.skip(pos as int)) == ScanG::Incomplete,
            FrameScan::Malformed => scan_bulk(buf@.skip(pos as int)) == ScanG::Malformed,
        },
{
    let ghost s = buf@.skip(pos as int);
    if pos == buf.len() {
        return FrameScan::Incomplete;
    }
    if buf[pos] != 36 {
        proof {
            assert(s[0] == buf@[pos as int]);
        }
        return FrameScan::Malformed;
    }
    proof {
        assert(s[0] == buf@[pos as int]);
        assert(buf@.skip(pos as int + 1) =~= s.skip(1));
    }
    match find_crlf_from(buf, pos + 1) {
        None => FrameScan::Incomplete,
        Some(i) => {
            let d = sub_bytes(buf, pos + 1, pos + 1 + i);
            proof {
                assert(d@ =~= s.subrange(1, 1 + i as int));
            }
            match parse_u64(&d) {
                None => {
                    if d.len() == 0 {
                        FrameScan::Malformed
                    } else {
                        let mut k: usize = 0;
                        while k < d.len()
                            invariant
                                k <= d.len(),
                                all_digits(d@.subrange(0, k as int)),
                            decreases d.len() - k,
                        {
                            if d[k] < 48 || d[k] > 57 {
                                proof {
                                    assert(!crate::num::is_digit(d@[k as int]));
                                }
                                return FrameScan::Malformed;
                            }
                            k = k + 1;
                            proof {
                                assert(all_digits(d@.subrange(0, k as int)));
                            }
                        }
                        // every digit checked, so the value overflowed:
                        // the frame cannot fit in any buffer
                        proof {
                            assert(d@.subrange(0, d@.len() as int) =~= d@);
                            assert(digits_val(d@) > u64::MAX);
                            assert(s.len() <= usize::MAX);
                        }
                        FrameScan::Incomplete
                    }
                },
                Some(n64) => {
                    let total128: u128 = 1 + d.len() as u128 + 2 + n64 as u128 + 2;
                    let avail128: u128 = (buf.len() - pos) as u128;
                    if total128 <= avail128 {
                        let total: usize = total128 as usize;
                        FrameScan::Complete(total)
                    } else {
                        FrameScan::Incomplete
                    }
                },
            }
        },
    }
}

/// Scans the head of the buffer for one complete RESP frame, as the
/// connection loop needs it: the frame's total length if it is all here,
/// a request for more bytes, or a corruption verdict.
#[verifier::loop_isolation(false)]
pub fn find_complete_frame(buf: &Vec<u8>) -> (r: FrameScan)
    ensures
        match r {
            FrameScan::Complete(n) => scan_frame(buf@) == ScanG::Complete(n as int) && 1 <= n
                <= buf.len(),
            FrameScan::Incomplete => scan_frame(buf@) == ScanG::Incomplete,
            FrameScan::Malformed => scan_frame(buf@) == ScanG::Malformed,
        },
{
    let ghost s = buf@;
    proof {
        assert(buf@.skip(0) =~= buf@);
    }
    if buf.len() == 0 {
        return FrameScan::Incomplete;
    }
    let b0 = buf[0];
    if b0 == 43 || b0 == 45 || b0 == 58 {
        match find_crlf_from(buf, 0) {
            Some(i) => FrameScan::Complete(i + 2),
            None => FrameScan::Incomplete,
        }
    } else if b0 == 36 {
        scan_bulk_at(buf, 0)
    } else if b0 == 42 {
        proof {
            assert(buf@.skip(1) =~= s.skip(1));
        }
        match find_crlf_from(buf, 1) {
            None => FrameScan::Incomplete,
            Some(i) => {
                let d = sub_bytes(buf, 1, 1 + i);
                proof {
                    assert(d@ =~= s.subrange(1, 1 + i as int));
                }
                match parse_u64(&d) {
                    None => {
                        if d.len() == 0 {
                            FrameScan::Malformed
                        } else {
                            let mut k: usize = 0;
                            while k < d.len()
                                invariant
                                    k <= d.len(),
                                    all_digits(d@.subrange(0, k as int)),
                                decreases d.len() - k,
                            {
                                if d[k] < 48 || d[k] > 57 {
                                    proof {
                                        assert(!crate::num::is_digit(d@[k as int]));
                                    }
                                    return FrameScan::Malformed;
                                }
                                k = k + 1;
                                proof {
                                    assert(all_digits(d@.subrange(0, k as int)));
                                }
                            }
                            // all digits, yet too large for a u64: more
                            // elements than any buffer can hold
                            proof {
                                assert(d@.subrange(0, d@.len() as int) =~= d@);
                                assert(digits_val(d@) > u64::MAX);
                                assert(s.skip(1 + i as int + 2).len() <= usize::MAX);
                            }
                            FrameScan::Incomplete
                        }
                    },
                    Some(k64) => {
                        let start: usize = 1 + i + 2;
                        let ghost s2 = s.skip(start as int);
                        if k64 > (buf.len() - start) as u64 {
                            return FrameScan::Incomplete;
                        }
                        let mut off: usize = start;
                        let mut j: u64 = 0;
                        while j < k64
                            invariant
                                start <= off <= buf.len(),
                                j <= k64,
                                s2 == s.skip(start as int),
                                scan_elems(s2, k64 as nat) == (match scan_elems(
                                    s.skip(off as int),
                                    (k64 - j) as nat,
                                ) {
                                    ScanG::Complete(m) => ScanG::Complete(off - start + m),
                                    ScanG::Incomplete => ScanG::Incomplete,
                                    ScanG::Malformed => ScanG::Malformed,
                                }),
                            decreases k64 - j,
                        {
                            match scan_bulk_at(buf, off) {
                                FrameScan::Complete(n) => {
                                    proof {
                                        lemma_scan_elems_bounds(
                                            s.skip(off as int).skip(n as int),
                                            (k64 - j - 1) as nat,
                                        );
                                        assert(s.skip(off as int).skip(n as int) =~= s.skip(
                                            off as int + n as int,
                                        ));
                                    }
                                    off = off + n;
                                    j = j + 1;
                                },
                                FrameScan::Incomplete => {
                                    proof {
                                        assert(scan_elems(s.skip(off as int), (k64 - j) as nat)
                                            == ScanG::Incomplete);
                                    }
                                    return FrameScan::Incomplete;
                                },
                                FrameScan::Malformed => {
                                    proof {
                                        assert(scan_elems(s.skip(off as int), (k64 - j) as nat)
                                            == ScanG::Malformed);
                                    }
                                    return FrameScan::Malformed;
                                },
                            }
                        }
                        proof {
                            assert(scan_elems(s.skip(off as int), 0) == ScanG::Complete(0));
                        }
                        FrameScan::Complete(off)
                    },
                }
            },
        }
    } else {
        FrameScan::Malformed
    }
}

} // verus!

// The one non-framed payload: the snapshot a primary sends after the
// resynchronisation line.

verus! {

/// Scan of the snapshot payload at the head of `s`: a bulk-length header
/// and exactly that many raw bytes, with no trailing line end.
pub open spec fn scan_rdb_payload(s: Seq<u8>) -> ScanG {
    if s.len() == 0 {
        ScanG::Incomplete
    } else if s[0] != 36 {
        ScanG::Malformed
    } else {
        match find_crlf(s.skip(1)) {
            None => ScanG::Incomplete,
            Some(i) => {
                let d = s.subrange(1, 1 + i);
                if d.len() >= 1 && all_digits(d) {
                    if s.len() >= 1 + i + 2 + digits_val(d) {
                        ScanG::Complete(1 + i + 2 + digits_val(d))
                    } else {
                        ScanG::Incomplete
                    }
                } else {
                    ScanG::Malformed
                }
            },
        }
    }
}

/// Scans the head of the buffer for the snapshot payload a replica must
/// strip before the command stream begins: the number of bytes to drop,
/// a request for more bytes, or corruption.
#[verifier::loop_isolation(false)]
pub fn find_rdb_payload(buf: &Vec<u8>) -> (r: FrameScan)
    ensures
        match r {
            FrameScan::Complete(n) => scan_rdb_payload(buf@) == ScanG::Complete(n as int) && 4 <= n
                <= buf.len(),
            FrameScan::Incomplete => scan_rdb_payload(buf@) == ScanG::Incomplete,
            FrameScan::Malformed => scan_rdb_payload(buf@) == ScanG::Malformed,
        },
{
    let ghost s = buf@;
    if buf.len() == 0 {
        return FrameScan::Incomplete;
    }
    if buf[0] != 36 {
        return FrameScan::Malformed;
    }
    proof {
        assert(buf@.skip(1) =~= s.skip(1));
    }
    match find_crlf_from(buf, 1) {
        None => FrameScan::Incomplete,
        Some(i) => {
            let d = sub_bytes(buf, 1, 1 + i);
            proof {
                assert(d@ =~= s.subrange(1, 1 + i as int));
            }
            match parse_u64(&d) {
                None => {
                    if d.len() == 0 {
                        FrameScan::Malformed
                    } else {
                        let mut k: usize = 0;
                        while k < d.len()
                            invariant
                                k <= d.len(),
                                all_digits(d@.subrange(0, k as int)),
                            decreases d.len() - k,
                        {
                            if d[k] < 48 || d[k] > 57 {
                                proof {
                                    assert(!crate::num::is_digit(d@[k as int]));
                                }
                                return FrameScan::Malformed;
                            }
                            k = k + 1;
                            proof {
                                assert(all_digits(d@.subrange(0, k as int)));
                            }
                        }
                        // every digit checked, so the length overflowed:
                        // the payload cannot fit in any buffer
                        proof {
                            assert(d@.subrange(0, d@.len() as int) =~= d@);
                            assert(digits_val(d@) > u64::MAX);
                            assert(s.len() <= usize::MAX);
                        }
                        FrameScan::Incomplete
                    }
                },
                Some(n64) => {
                    let total128: u128 = 1 + d.len() as u128 + 2 + n64 as u128;
                    let avail128: u128 = buf.len() as u128;
                    if total128 <= avail128 {
                        FrameScan::Complete(total128 as usize)
                    } else {
                        FrameScan::Incomplete
                    }
                },
            }
        },
    }
}

} // verus!
