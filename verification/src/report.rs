//! Assembling the benchmark report texts as ASCII bytes.

use vstd::prelude::*;
use vstd::string::StringSliceAdditionalSpecFns;
use vstd::utf8::is_ascii_chars;

use crate::digits::{dec_bytes, lemma_dec_bytes_ascii, u64_to_dec};

verus! {

/// The bytes of an ASCII text, one byte per character.
pub open spec fn ascii_bytes(s: Seq<char>) -> Seq<u8> {
    s.map_values(|c: char| c as u8)
}

/// Every byte of the buffer is ASCII.
pub open spec fn all_bytes_ascii(s: Seq<u8>) -> bool {
    forall|i: int| 0 <= i < s.len() ==> s[i] < 128
}

/// Append the bytes of an ASCII label to the buffer.
pub fn push_ascii(out: &mut Vec<u8>, s: &str)
    requires
        is_ascii_chars(s@),
    ensures
        final(out)@ == old(out)@ + ascii_bytes(s@),
        all_bytes_ascii(old(out)@) ==> all_bytes_ascii(final(out)@),
{
    proof {
        vstd::string::is_ascii_spec_bytes(s);
        assert(vstd::string::is_ascii(s));
        vstd::utf8::is_ascii_chars_nat_bound(s@);
    }
    let bytes = s.as_bytes();
    let ghost start = out@;
    let mut i: usize = 0;
    while i < bytes.len()
        invariant
            i <= bytes@.len(),
            bytes@ == s.spec_bytes(),
            out@ =~= start + bytes@.subrange(0, i as int),
        decreases bytes.len() - i,
    {
        let b = bytes[i];
        out.push(b);
        i += 1;
        proof {
            assert(out@ =~= start + bytes@.subrange(0, i as int));
        }
    }
    proof {
        assert(out@ =~= start + s.spec_bytes());
        vstd::utf8::is_ascii_chars_encode_utf8(s@);
        assert(s.spec_bytes() =~= ascii_bytes(s@));
        assert forall|i2: int| 0 <= i2 < s@.len() implies ascii_bytes(s@)[i2] < 128 by {
            assert((s@[i2] as nat) < 128);
        }
    }
}

/// Append the decimal rendering of `v`.
pub fn push_u64(out: &mut Vec<u8>, v: u64)
    ensures
        final(out)@ == old(out)@ + dec_bytes(v as nat),
        all_bytes_ascii(old(out)@) ==> all_bytes_ascii(final(out)@),
{
    proof {
        lemma_dec_bytes_ascii(v as nat);
    }
    let digs = u64_to_dec(v);
    let ghost start = out@;
    let mut i: usize = 0;
    while i < digs.len()
        invariant
            i <= digs@.len(),
            digs@ == dec_bytes(v as nat),
            out@ =~= start + digs@.subrange(0, i as int),
        decreases digs.len() - i,
    {
        let b = digs[i];
        out.push(b);
        i += 1;
        proof {
            assert(out@ =~= start + digs@.subrange(0, i as int));
        }
    }
    proof {
        assert(out@ =~= start + dec_bytes(v as nat));
    }
}

/// Two fixed digits, for the fractional part of a fixed-point value.
pub open spec fn two_digit_bytes(n: nat) -> Seq<u8> {
    seq![(48 + n / 10) as u8, (48 + n % 10) as u8]
}

/// Rendering of a value held in hundredths: the whole part, a point, and
/// exactly two fractional digits.
pub open spec fn centi_bytes(v: u64) -> Seq<u8> {
    dec_bytes((v / 100) as nat) + seq![46u8] + two_digit_bytes((v % 100) as nat)
}

/// Append the fixed-point rendering of a value held in hundredths.
pub fn push_centi(out: &mut Vec<u8>, v: u64)
    ensures
        final(out)@ == old(out)@ + centi_bytes(v),
        all_bytes_ascii(old(out)@) ==> all_bytes_ascii(final(out)@),
{
    let ghost start = out@;
    push_u64(out, v / 100);
    out.push(46);
    let rem = v % 100;
    out.push(48 + (rem / 10) as u8);
    out.push(48 + (rem % 10) as u8);
    proof {
        assert(out@ =~= start + centi_bytes(v));
    }
}

} // verus!
