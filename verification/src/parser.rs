use vstd::prelude::*;

use crate::bytes::sub_bytes;
use crate::num::{all_digits, digits_val, is_digit, parse_u64};

verus! {

/// The position of the first carriage return at or after `pos`, or the end
/// of the sequence.
pub open spec fn cr_end(s: Seq<u8>, pos: int) -> int
    decreases s.len() - pos,
{
    if pos < 0 || pos >= s.len() {
        pos
    } else if s[pos] == 13 {
        pos
    } else {
        cr_end(s, pos + 1)
    }
}

/// Bounds and character facts of `cr_end`.
pub proof fn lemma_cr_end(s: Seq<u8>, pos: int)
    requires
        0 <= pos <= s.len(),
    ensures
        pos <= cr_end(s, pos) <= s.len(),
        forall|j: int| pos <= j < cr_end(s, pos) ==> s[j] != 13,
        cr_end(s, pos) < s.len() ==> s[cr_end(s, pos)] == 13,
    decreases s.len() - pos,
{
    if pos < s.len() && s[pos] != 13 {
        lemma_cr_end(s, pos + 1);
    }
}

/// A stop position free of carriage returns before it is `cr_end`.
pub proof fn lemma_cr_end_stop(s: Seq<u8>, pos: int, k: int)
    requires
        0 <= pos <= k <= s.len(),
        forall|j: int| pos <= j < k ==> s[j] != 13,
        k < s.len() ==> s[k] == 13,
    ensures
        cr_end(s, pos) == k,
    decreases k - pos,
{
    if pos < k {
        lemma_cr_end_stop(s, pos + 1, k);
    }
}

/// The arguments read from `pos` on: every bulk string's content, in order,
/// with all other bytes passed over. `None` on a bulk string whose length
/// line or framing is broken.
pub open spec fn parse_args(s: Seq<u8>, pos: int) -> Option<Seq<Seq<u8>>>
    decreases s.len() - pos,
{
    if pos < 0 || pos >= s.len() {
        Some(Seq::empty())
    } else if s[pos] == 36 {
        let e = cr_end(s, pos + 1);
        proof {
            lemma_cr_end(s, pos + 1);
        }
        let d = s.subrange(pos + 1, e);
        if e < s.len() && d.len() >= 1 && all_digits(d) {
            let n = digits_val(d) as int;
            if e + 2 + n + 2 <= s.len() && s[e] == 13 && s[e + 1] == 10 && s[e + 2 + n] == 13 && s[e
                + 2 + n + 1] == 10 {
                match parse_args(s, e + 2 + n + 2) {
                    Some(rest) => Some(seq![s.subrange(e + 2, e + 2 + n)] + rest),
                    None => None,
                }
            } else {
                None
            }
        } else {
            None
        }
    } else {
        parse_args(s, pos + 1)
    }
}

/// Decodes RESP frames into their bulk-string arguments.
pub struct Parser {}

impl Parser {
    /// The bytes from `pos` up to the next carriage return (or the end).
    pub fn read_until_next_line(&mut self, buf: &Vec<u8>, pos: usize) -> (r: Vec<u8>)
        requires
            pos <= buf.len(),
        ensures
            r@ == buf@.subrange(pos as int, cr_end(buf@, pos as int)),
    {
        let mut k: usize = pos;
        while k < buf.len() && buf[k] != 13
            invariant
                pos <= k <= buf.len(),
                forall|j: int| pos <= j < k ==> buf@[j] != 13,
            decreases buf.len() - k,
        {
            k = k + 1;
        }
        proof {
            lemma_cr_end_stop(buf@, pos as int, k as int);
        }
        sub_bytes(buf, pos, k)
    }

    /// Exactly `n` bytes starting at `pos`.
    pub fn read_n_characters(&mut self, buf: &Vec<u8>, pos: usize, n: usize) -> (r: Vec<u8>)
        requires
            pos + n <= buf.len(),
        ensures
            r@ == buf@.subrange(pos as int, pos as int + n as int),
    {
        sub_bytes(buf, pos, pos + n)
    }

    /// Reads every bulk-string argument out of the buffer, in order.
    /// Returns `None` when a bulk string is framed incorrectly.
    #[verifier::loop_isolation(false)]
    pub fn parse(&mut self, input: &Vec<u8>) -> (r: Option<Vec<Vec<u8>>>)
        ensures
            match r {
                Some(args) => parse_args(input@, 0) == Some(args.deep_view()),
                None => parse_args(input@, 0) is None,
            },
    {
        let ghost s = input@;
        let mut acc: Vec<Vec<u8>> = Vec::new();
        let mut pos: usize = 0;
        while pos < input.len()
            invariant
                pos <= input.len(),
                parse_args(s, 0) == (match parse_args(s, pos as int) {
                    Some(rest) => Some(acc.deep_view() + rest),
                    None => None::<Seq<Seq<u8>>>,
                }),
            decreases input.len() - pos,
        {
            if input[pos] == 36 {
                let line = self.read_until_next_line(input, pos + 1);
                let ghost e = cr_end(s, pos as int + 1);
                proof {
                    lemma_cr_end(s, pos as int + 1);
                }
                let e_exec = pos + 1 + line.len();
                match parse_u64(&line) {
                    Some(n64) => {
                        let rem128: u128 = (input.len() - e_exec) as u128;
                        if (n64 as u128) + 4 <= rem128 {
                            let n = n64 as usize;
                            proof {
                                assert(e == e_exec);
                            }
                            if input[e_exec] == 13 && input[e_exec + 1] == 10 && input[e_exec + 2
                                + n] == 13 && input[e_exec + 2 + n + 1] == 10 {
                                let content = self.read_n_characters(input, e_exec + 2, n);
                                let ghost oldpos = pos as int;
                                let ghost oldacc = acc.deep_view();
                                acc.push(content);
                                proof {
                                    assert(acc.deep_view() =~~= oldacc.push(content@));
                                }
                                pos = e_exec + 2 + n + 2;
                                proof {
                                    assert(e == e_exec);
                                    assert(content@ =~= s.subrange(e + 2, e + 2 + n as int));
                                    match parse_args(s, pos as int) {
                                        Some(rest) => {
                                            assert(parse_args(s, oldpos) == Some(
                                                seq![s.subrange(e + 2, e + 2 + n as int)] + rest,
                                            ));
                                            assert(oldacc.push(content@) + rest =~~= oldacc + (
                                            seq![s.subrange(e + 2, e + 2 + n as int)] + rest));
                                        },
                                        None => {},
                                    }
                                }
                            } else {
                                return None;
                            }
                        } else {
                            // the declared length cannot fit in the buffer
                            proof {
                                assert(e == e_exec);
                                if e + 2 + digits_val(line@) + 2 <= s.len() {
                                    assert(false);
                                }
                            }
                            return None;
                        }
                    },
                    None => {
                        proof {
                            if line@.len() >= 1 && all_digits(line@) {
                                assert(digits_val(line@) > u64::MAX);
                                assert(s.len() <= usize::MAX);
                            }
                        }
                        return None;
                    },
                }
            } else {
                pos = pos + 1;
            }
        }
        proof {
            assert(parse_args(s, pos as int) == Some(Seq::<Seq<u8>>::empty()));
            assert(acc.deep_view() + Seq::<Seq<u8>>::empty() =~= acc.deep_view());
        }
        Some(acc)
    }
}

} // verus!

// The round trip of an encoded command frame.

verus! {

use crate::codec::{bulk_list, crlf, encode_list, encode_spec, RespG};
use crate::num::{dec_rep, lemma_dec_rep};

/// The first carriage return shifts with the buffer.
pub proof fn lemma_cr_end_shift(s: Seq<u8>, pos: int, d: int)
    requires
        0 <= pos <= s.len(),
        0 <= d,
    ensures
        cr_end(s.skip(pos), d) == cr_end(s, pos + d) - pos,
    decreases s.len() - pos - d,
{
    let t = s.skip(pos);
    if pos + d < s.len() {
        assert(t[d] == s[pos + d]);
        if s[pos + d] != 13 {
            lemma_cr_end_shift(s, pos, d + 1);
        }
    }
}

/// Reading the arguments from `pos` is reading them from the start of the
/// buffer's tail.
pub proof fn lemma_parse_args_skip(s: Seq<u8>, pos: int)
    requires
        0 <= pos <= s.len(),
    ensures
        parse_args(s, pos) == parse_args(s.skip(pos), 0),
    decreases s.len() - pos,
{
    let t = s.skip(pos);
    if pos >= s.len() {
        assert(t.len() == 0);
    } else if s[pos] == 36 {
        assert(t[0] == s[pos]);
        let e = cr_end(s, pos + 1);
        lemma_cr_end(s, pos + 1);
        lemma_cr_end_shift(s, pos, 1);
        let et = e - pos;
        let d = s.subrange(pos + 1, e);
        assert(t.subrange(1, et) =~= d);
        if e < s.len() && d.len() >= 1 && all_digits(d) {
            let n = digits_val(d) as int;
            assert((e + 2 + n + 2 <= s.len()) == (et + 2 + n + 2 <= t.len()));
            if e + 2 + n + 2 <= s.len() {
                assert(t[et] == s[e]);
                assert(t[et + 1] == s[e + 1]);
                assert(t[et + 2 + n] == s[e + 2 + n]);
                assert(t[et + 2 + n + 1] == s[e + 2 + n + 1]);
                if s[e] == 13 && s[e + 1] == 10 && s[e + 2 + n] == 13 && s[e + 2 + n + 1] == 10 {
                    assert(t.subrange(et + 2, et + 2 + n) =~= s.subrange(e + 2, e + 2 + n));
                    lemma_parse_args_skip(s, e + 2 + n + 2);
                    lemma_parse_args_skip(t, et + 2 + n + 2);
                    assert(t.skip(et + 2 + n + 2) =~= s.skip(e + 2 + n + 2));
                }
            }
        }
    } else {
        assert(t[0] == s[pos]);
        lemma_parse_args_skip(s, pos + 1);
        lemma_parse_args_skip(t, 1);
        assert(t.skip(1) =~= s.skip(pos + 1));
    }
}

/// Bytes other than `$` at the front are passed over.
pub proof fn lemma_parse_skip_front(s: Seq<u8>, k: int)
    requires
        0 <= k <= s.len(),
        forall|j: int| 0 <= j < k ==> s[j] != 36,
    ensures
        parse_args(s, 0) == parse_args(s.skip(k), 0),
    decreases k,
{
    if k > 0 {
        assert(s[0] != 36);
        lemma_parse_args_skip(s, 1);
        let t = s.skip(1);
        assert forall|j: int| 0 <= j < k - 1 implies t[j] != 36 by {
            assert(t[j] == s[j + 1]);
        }
        lemma_parse_skip_front(t, k - 1);
        assert(t.skip(k - 1) =~= s.skip(k));
    } else {
        assert(s.skip(0) =~= s);
    }
}

/// A run of encoded bulk strings parses to its contents, whatever follows.
pub proof fn lemma_parse_bulks(args: Seq<Seq<u8>>, tail: Seq<u8>)
    ensures
        parse_args(encode_list(bulk_list(args)) + tail, 0) == (match parse_args(tail, 0) {
            Some(r) => Some(args + r),
            None => None::<Seq<Seq<u8>>>,
        }),
    decreases args.len(),
{
    if args.len() == 0 {
        assert(bulk_list(args).len() == 0);
        assert(encode_list(bulk_list(args)) == Seq::<u8>::empty());
        assert(Seq::<u8>::empty() + tail =~= tail);
        match parse_args(tail, 0) {
            Some(r) => {
                assert(args + r =~= r);
            },
            None => {},
        }
    } else {
        let b0 = args[0];
        let n = b0.len() as int;
        let e0 = encode_spec(RespG::Bulk(b0));
        assert(bulk_list(args)[0] == RespG::Bulk(b0));
        assert(bulk_list(args).drop_first() =~= bulk_list(args.drop_first()));
        assert(encode_list(bulk_list(args)) == e0 + encode_list(bulk_list(args.drop_first())));
        let s = encode_list(bulk_list(args)) + tail;
        let rest_bytes = encode_list(bulk_list(args.drop_first())) + tail;
        assert(s =~= e0 + rest_bytes);
        lemma_dec_rep(b0.len());
        let dlen = dec_rep(b0.len()).len() as int;
        assert(s[0] == 36);
        assert forall|j: int| 1 <= j < 1 + dlen implies s[j] != 13 by {
            assert(s[j] == dec_rep(b0.len())[j - 1]);
            assert(crate::num::is_digit(dec_rep(b0.len())[j - 1]));
        }
        assert(s[1 + dlen] == 13);
        lemma_cr_end_stop(s, 1, 1 + dlen);
        let e = 1 + dlen;
        let d = s.subrange(1, e);
        assert(d =~= dec_rep(b0.len()));
        assert(digits_val(d) == b0.len());
        assert(e + 2 + n + 2 <= s.len());
        assert(s[e] == 13);
        assert(s[e + 1] == 10);
        assert(s[e + 2 + n] == 13);
        assert(s[e + 2 + n + 1] == 10);
        assert(s.subrange(e + 2, e + 2 + n) =~= b0);
        lemma_parse_args_skip(s, e + 2 + n + 2);
        assert(s.skip(e + 2 + n + 2) =~= rest_bytes);
        lemma_parse_bulks(args.drop_first(), tail);
        match parse_args(tail, 0) {
            Some(r) => {
                assert(parse_args(rest_bytes, 0) == Some(args.drop_first() + r));
                assert(seq![b0] + (args.drop_first() + r) =~= args + r);
            },
            None => {},
        }
    }
}

/// The round trip of a command frame: every array of bulk strings the
/// encoder produces re-parses to exactly its arguments, in order.
pub proof fn lemma_parse_encoded_command(args: Seq<Seq<u8>>)
    ensures
        parse_args(encode_spec(RespG::Arr(bulk_list(args))), 0) == Some(args),
{
    let k = bulk_list(args).len();
    let s = encode_spec(RespG::Arr(bulk_list(args)));
    lemma_dec_rep(k);
    let dlen = dec_rep(k).len() as int;
    assert(s =~= seq![42u8] + dec_rep(k) + crlf() + encode_list(bulk_list(args)));
    assert forall|j: int| 0 <= j < 3 + dlen implies s[j] != 36 by {
        if 1 <= j < 1 + dlen {
            assert(s[j] == dec_rep(k)[j - 1]);
            assert(crate::num::is_digit(dec_rep(k)[j - 1]));
        }
    }
    lemma_parse_skip_front(s, 3 + dlen);
    assert(s.skip(3 + dlen) =~= encode_list(bulk_list(args)) + Seq::<u8>::empty());
    lemma_parse_bulks(args, Seq::empty());
    assert(parse_args(Seq::<u8>::empty(), 0) == Some(Seq::<Seq<u8>>::empty()));
    assert(args + Seq::<Seq<u8>>::empty() =~= args);
}

} // verus!
