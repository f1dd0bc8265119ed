//! Telling text logs from binary files.
use vstd::prelude::*;

verus! {

/// Bytes that do not occur in text: control characters other than bell,
/// backspace, tab, line feed, vertical tab, form feed, carriage return and
/// escape.
pub open spec fn non_text_byte(b: u8) -> bool {
    b < 0x07 || (b > 0x0D && b < 0x20 && b != 0x1B)
}

/// Number of bytes of `s` that satisfy `p`.
pub open spec fn count_bytes(s: Seq<u8>, p: spec_fn(u8) -> bool) -> nat
    decreases s.len(),
{
    if s.len() == 0 {
        0
    } else {
        count_bytes(s.drop_last(), p) + if p(s.last()) {
            1nat
        } else {
            0nat
        }
    }
}

/// The binary64 number nearest to 0.30 is `C / 2^54`; a share `k / n`,
/// computed in binary64, exceeds it exactly when `k / n` is at least the
/// midpoint `(2C + 1) / 2^55` (the midpoint itself rounds up, to the even
/// neighbour).
pub open spec fn share_over_030(k: nat, n: nat) -> bool {
    k * 0x80_0000_0000_0000 >= (2 * 5404319552844595 + 1) * n
}

/// The leading bytes of a file look binary: some byte is zero, or more than
/// 30% of them (as `non_text as f64 / n as f64 > 0.30` computes it) are
/// control characters that do not occur in text. An empty prefix is text.
pub open spec fn looks_binary(head: Seq<u8>) -> bool {
    head.len() > 0 && (count_bytes(head, |b: u8| b == 0) > 0 || share_over_030(
        count_bytes(head, |b: u8| non_text_byte(b)),
        head.len(),
    ))
}

/// Decide from the first bytes of a file (the program reads up to 8192)
/// whether it is binary rather than a text log.
pub fn is_likely_binary(head: &[u8]) -> (r: bool)
    ensures
        r == looks_binary(head@),
{
    let n = head.len();
    if n == 0 {
        return false;
    }
    let mut nulls: usize = 0;
    let mut non_text: usize = 0;
    let mut i: usize = 0;
    while i < n
        invariant
            n == head@.len(),
            0 <= i <= n,
            nulls == count_bytes(head@.take(i as int), |b: u8| b == 0),
            non_text == count_bytes(head@.take(i as int), |b: u8| non_text_byte(b)),
            nulls <= i,
            non_text <= i,
        decreases n - i,
    {
        assert(head@.take(i + 1).drop_last() =~= head@.take(i as int));
        let b = head[i];
        if b == 0 {
            nulls = nulls + 1;
        }
        if b < 0x07 || (b > 0x0D && b < 0x20 && b != 0x1B) {
            non_text = non_text + 1;
        }
        i = i + 1;
    }
    assert(head@.take(n as int) =~= head@);
    if nulls > 0 {
        return true;
    }
    let k = non_text as u128;
    let m = n as u128;
    assert(k * 0x80_0000_0000_0000 <= 0xFFFF_FFFF_FFFF_FFFF * 0x80_0000_0000_0000) by (nonlinear_arith)
        requires
            k <= 0xFFFF_FFFF_FFFF_FFFF,
    ;
    assert((2 * 5404319552844595 + 1) * m <= (2 * 5404319552844595 + 1) * 0xFFFF_FFFF_FFFF_FFFF)
        by (nonlinear_arith)
        requires
            m <= 0xFFFF_FFFF_FFFF_FFFF,
    ;
    k * 0x80_0000_0000_0000 >= (2 * 5404319552844595 + 1) * m
}

} // verus!
