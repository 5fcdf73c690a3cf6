//! Decimal renderings as sequences of ASCII bytes, and the conversion of
//! finished ASCII buffers into strings.

use vstd::prelude::*;

verus! {

/// Decimal digits of `n`, most significant first, at least one digit.
pub open spec fn dec_bytes(n: nat) -> Seq<u8>
    decreases n,
{
    if n < 10 {
        seq![(48 + n) as u8]
    } else {
        dec_bytes(n / 10).push((48 + n % 10) as u8)
    }
}

/// Signed decimal rendering: a leading `-` for negatives, no leading zeros.
pub open spec fn dec_bytes_int(v: int) -> Seq<u8> {
    if v >= 0 {
        dec_bytes(v as nat)
    } else {
        seq![45u8] + dec_bytes((-v) as nat)
    }
}

pub proof fn lemma_dec_bytes_ascii(n: nat)
    ensures
        dec_bytes(n).len() >= 1,
        forall|i: int| 0 <= i < dec_bytes(n).len() ==> 48 <= #[trigger] dec_bytes(n)[i] <= 57,
    decreases n,
{
    if n >= 10 {
        lemma_dec_bytes_ascii(n / 10);
    }
}

pub proof fn lemma_dec_bytes_int_ascii(v: int)
    ensures
        dec_bytes_int(v).len() >= 1,
        forall|i: int| 0 <= i < dec_bytes_int(v).len() ==> 45 <= #[trigger] dec_bytes_int(v)[i]
            <= 57,
{
    if v >= 0 {
        lemma_dec_bytes_ascii(v as nat);
    } else {
        lemma_dec_bytes_ascii((-v) as nat);
    }
}

/// Decimal rendering of a machine integer, digit by digit.
pub fn u64_to_dec(n: u64) -> (r: Vec<u8>)
    ensures
        r@ == dec_bytes(n as nat),
{
    let mut digs: Vec<u8> = Vec::new();
    let mut v: u64 = n;
    if v == 0 {
        digs.push(48);
        proof {
            assert(digs@ =~= dec_bytes(0));
        }
        return digs;
    }
    while v > 0
        invariant
            (if v == 0 {
                dec_bytes(n as nat) =~= digs@.reverse()
            } else {
                dec_bytes(n as nat) =~= dec_bytes(v as nat) + digs@.reverse()
            }),
        decreases v,
    {
        let d: u8 = 48 + (v % 10) as u8;
        let ghost pre = digs@;
        digs.push(d);
        proof {
            assert(digs@.reverse() =~= seq![d] + pre.reverse());
            if v >= 10 {
                assert(dec_bytes(v as nat) == dec_bytes(v as nat / 10).push(d));
                assert(dec_bytes((v / 10) as nat) + digs@.reverse() =~= dec_bytes(v as nat)
                    + pre.reverse());
            } else {
                assert(dec_bytes(v as nat) =~= seq![d]);
                assert(digs@.reverse() =~= dec_bytes(v as nat) + pre.reverse());
            }
        }
        v = v / 10;
    }
    let mut r: Vec<u8> = Vec::new();
    let mut i: usize = digs.len();
    while i > 0
        invariant
            i <= digs@.len(),
            r@.len() == digs@.len() - i,
            forall|k: int| 0 <= k < r@.len() ==> r@[k] == digs@[digs@.len() - 1 - k],
        decreases i,
    {
        i -= 1;
        r.push(digs[i]);
    }
    proof {
        assert(r@ =~= digs@.reverse());
    }
    r
}

/// Relies on `String::from_utf8`: bytes below 128 are one-byte UTF-8 code
/// points, so each byte decodes to the character with the same value.
#[verifier::external_body]
pub fn ascii_to_string(v: Vec<u8>) -> (r: String)
    requires
        forall|i: int| 0 <= i < v@.len() ==> v@[i] < 128,
    ensures
        r@ == v@.map_values(|b: u8| b as char),
{
    String::from_utf8(v).unwrap_or_default()
}

} // verus!
