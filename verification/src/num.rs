use vstd::prelude::*;

verus! {

/// Whether a byte is an ASCII decimal digit.
pub open spec fn is_digit(b: u8) -> bool {
    48 <= b <= 57
}

/// Whether every byte of `s` is a decimal digit.
pub open spec fn all_digits(s: Seq<u8>) -> bool {
    forall|i: int| 0 <= i < s.len() ==> is_digit(#[trigger] s[i])
}

/// The number a digit sequence denotes in base ten.
pub open spec fn digits_val(s: Seq<u8>) -> nat
    decreases s.len(),
{
    if s.len() == 0 {
        0
    } else {
        digits_val(s.drop_last()) * 10 + (s.last() - 48) as nat
    }
}

/// The canonical decimal representation of `n`, without leading zeroes.
pub open spec fn dec_rep(n: nat) -> Seq<u8>
    decreases n,
{
    if n < 10 {
        seq![(n + 48) as u8]
    } else {
        dec_rep(n / 10).push((n % 10 + 48) as u8)
    }
}

/// The decimal representation of an integer, with a leading minus sign when negative.
pub open spec fn dec_rep_i(i: int) -> Seq<u8> {
    if i < 0 {
        seq![45u8] + dec_rep((-i) as nat)
    } else {
        dec_rep(i as nat)
    }
}

/// Whether `s` denotes an `i64`: an optional minus sign, then digits, within range.
pub open spec fn is_i64_rep(s: Seq<u8>) -> bool {
    if s.len() > 0 && s[0] == 45 {
        s.len() >= 2 && all_digits(s.skip(1)) && digits_val(s.skip(1)) <= 0x8000_0000_0000_0000
    } else {
        s.len() >= 1 && all_digits(s) && digits_val(s) < 0x8000_0000_0000_0000
    }
}

/// The `i64` a representation denotes.
pub open spec fn i64_val(s: Seq<u8>) -> int {
    if s.len() > 0 && s[0] == 45 {
        -(digits_val(s.skip(1)) as int)
    } else {
        digits_val(s) as int
    }
}

/// The canonical representation denotes the number it was made from.
pub proof fn lemma_dec_rep(n: nat)
    ensures
        dec_rep(n).len() >= 1,
        all_digits(dec_rep(n)),
        digits_val(dec_rep(n)) == n,
    decreases n,
{
    if n >= 10 {
        lemma_dec_rep(n / 10);
        let s = dec_rep(n);
        assert(s == dec_rep(n / 10).push((n % 10 + 48) as u8));
        assert(s.drop_last() =~= dec_rep(n / 10));
        assert(s.last() == (n % 10 + 48) as u8);
        assert(s.len() >= 1);
        assert(digits_val(s) == digits_val(s.drop_last()) * 10 + (s.last() - 48) as nat);
        assert(digits_val(s) == (n / 10) * 10 + n % 10);
        vstd::arithmetic::div_mod::lemma_fundamental_div_mod(n as int, 10);
        assert((n / 10) * 10 + n % 10 == n);
    } else {
        let s = dec_rep(n);
        assert(s == seq![(n + 48) as u8]);
        assert(s.drop_last() =~= Seq::<u8>::empty());
        assert(digits_val(Seq::<u8>::empty()) == 0);
        assert(digits_val(s) == 0 * 10 + (s.last() - 48) as nat);
    }
}

/// The sign-aware representation denotes the number it was made from.
pub proof fn lemma_dec_rep_i(i: int)
    requires
        -0x8000_0000_0000_0000 <= i < 0x8000_0000_0000_0000,
    ensures
        is_i64_rep(dec_rep_i(i)),
        i64_val(dec_rep_i(i)) == i,
{
    if i < 0 {
        lemma_dec_rep((-i) as nat);
        assert(dec_rep_i(i).skip(1) =~= dec_rep((-i) as nat));
        assert(dec_rep_i(i)[0] == 45);
    } else {
        lemma_dec_rep(i as nat);
        assert(is_digit(dec_rep(i as nat)[0]));
        assert(dec_rep_i(i)[0] != 45);
    }
}

/// A digit prefix never denotes more than the whole digit string.
pub proof fn lemma_digits_prefix_le(s: Seq<u8>, j: int)
    requires
        all_digits(s),
        0 <= j <= s.len(),
    ensures
        digits_val(s.subrange(0, j)) <= digits_val(s),
    decreases s.len() - j,
{
    if j < s.len() {
        lemma_digits_prefix_le(s, j + 1);
        let p = s.subrange(0, j + 1);
        assert(p.drop_last() =~= s.subrange(0, j));
        assert(digits_val(s.subrange(0, j)) <= digits_val(p));
    } else {
        assert(s.subrange(0, j) =~= s);
    }
}

/// Formats `n` in decimal.
pub fn format_u64(n: u64) -> (r: Vec<u8>)
    ensures
        r@ == dec_rep(n as nat),
    decreases n,
{
    if n < 10 {
        let mut r: Vec<u8> = Vec::new();
        r.push(48 + n as u8);
        proof {
            assert(r@ =~= dec_rep(n as nat));
        }
        r
    } else {
        let mut r = format_u64(n / 10);
        r.push(48 + (n % 10) as u8);
        r
    }
}

/// Formats `i` in decimal, with a minus sign when negative.
pub fn format_i64(i: i64) -> (r: Vec<u8>)
    ensures
        r@ == dec_rep_i(i as int),
{
    if i >= 0 {
        format_u64(i as u64)
    } else {
        let mag: u64 = (-(i as i128)) as u64;
        let mut r: Vec<u8> = Vec::new();
        r.push(45);
        let mut digits = format_u64(mag);
        r.append(&mut digits);
        proof {
            assert(r@ =~= dec_rep_i(i as int));
        }
        r
    }
}

/// Parses an unsigned decimal number.
///
/// Returns the value exactly when the input is a nonempty digit string whose
/// value fits in a `u64`.
pub fn parse_u64(s: &Vec<u8>) -> (r: Option<u64>)
    ensures
        match r {
            Some(v) => s@.len() >= 1 && all_digits(s@) && digits_val(s@) == v,
            None => s@.len() == 0 || !all_digits(s@) || digits_val(s@) > u64::MAX,
        },
{
    if s.len() == 0 {
        return None;
    }
    let mut acc: u64 = 0;
    let mut k: usize = 0;
    while k < s.len()
        invariant
            k <= s.len(),
            all_digits(s@.subrange(0, k as int)),
            acc == digits_val(s@.subrange(0, k as int)),
        decreases s.len() - k,
    {
        let b = s[k];
        if b < 48 || b > 57 {
            proof {
                assert(!is_digit(s@[k as int]));
            }
            return None;
        }
        let d: u64 = (b - 48) as u64;
        if acc > (u64::MAX - d) / 10 {
            proof {
                let p = s@.subrange(0, k + 1);
                assert(p.drop_last() =~= s@.subrange(0, k as int));
                assert(p.last() == s@[k as int]);
                assert(digits_val(p) == acc * 10 + d);
                assert(acc * 10 + d > u64::MAX) by (nonlinear_arith)
                    requires
                        acc > (u64::MAX - d) / 10,
                        d <= 9,
                ;
                if all_digits(s@) {
                    lemma_digits_prefix_le(s@, k + 1);
                }
            }
            return None;
        }
        proof {
            let p = s@.subrange(0, k + 1);
            assert(p.drop_last() =~= s@.subrange(0, k as int));
            assert(p.last() == s@[k as int]);
            assert(acc * 10 + d <= u64::MAX) by (nonlinear_arith)
                requires
                    acc <= (u64::MAX - d) / 10,
                    d <= 9,
            ;
        }
        acc = acc * 10 + d;
        k = k + 1;
    }
    proof {
        assert(s@.subrange(0, s@.len() as int) =~= s@);
    }
    Some(acc)
}

/// Parses a signed decimal number.
///
/// Returns the value exactly when the input denotes an integer in `i64` range.
pub fn parse_i64(s: &Vec<u8>) -> (r: Option<i64>)
    ensures
        match r {
            Some(v) => is_i64_rep(s@) && i64_val(s@) == v,
            None => !is_i64_rep(s@),
        },
{
    if s.len() == 0 {
        return None;
    }
    if s[0] == 45 {
        let rest = crate::bytes::sub_bytes(s, 1, s.len());
        proof {
            assert(rest@ =~= s@.skip(1));
        }
        match parse_u64(&rest) {
            Some(mag) => {
                if mag <= 0x8000_0000_0000_0000u64 {
                    Some((-(mag as i128)) as i64)
                } else {
                    None
                }
            },
            None => None,
        }
    } else {
        match parse_u64(s) {
            Some(mag) => {
                if mag < 0x8000_0000_0000_0000u64 {
                    Some(mag as i64)
                } else {
                    None
                }
            },
            None => None,
        }
    }
}

} // verus!
