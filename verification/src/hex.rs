//! Hexadecimal size fields: the wire encodes transfer sizes (and memory
//! addresses) as ASCII hexadecimal strings of at most eight digits.

use vstd::prelude::*;
use crate::Error;

verus! {

/// Value of one ASCII hexadecimal digit, or `None` for any other byte.
pub open spec fn hex_digit_val(c: u8) -> Option<u8> {
    if 0x30 <= c && c <= 0x39 {
        Some((c - 0x30) as u8)
    } else if 0x41 <= c && c <= 0x46 {
        Some((c - 0x41 + 10) as u8)
    } else if 0x61 <= c && c <= 0x66 {
        Some((c - 0x61 + 10) as u8)
    } else {
        None
    }
}

/// Every byte of `s` is a hexadecimal digit, and there is at least one.
pub open spec fn is_hex_seq(s: Seq<u8>) -> bool {
    s.len() > 0 && forall|i: int| 0 <= i < s.len() ==> hex_digit_val(#[trigger] s[i]) is Some
}

/// Numeric value of a digit string, most significant digit first.
pub open spec fn hex_seq_val(s: Seq<u8>) -> nat
    decreases s.len(),
{
    if s.len() == 0 {
        0
    } else {
        (hex_seq_val(s.drop_last()) * 16 + hex_digit_val(s.last()).unwrap_or(0)) as nat
    }
}

/// What parsing a size field yields: the value of a string of one to eight
/// hexadecimal digits, `None` for anything else.
pub open spec fn spec_parse_hex(s: Seq<u8>) -> Option<u32> {
    if is_hex_seq(s) && s.len() <= 8 {
        Some(hex_seq_val(s) as u32)
    } else {
        None
    }
}

/// A digit string of length n has a value below 16^n.
pub proof fn lemma_hex_seq_val_bound(s: Seq<u8>)
    ensures
        hex_seq_val(s) < pow16(s.len() as nat),
    decreases s.len(),
{
    if s.len() == 0 {
    } else {
        lemma_hex_seq_val_bound(s.drop_last());
        assert(hex_digit_val(s.last()).unwrap_or(0) < 16) by {
            let c = s.last();
            if hex_digit_val(c) is Some {
            }
        };
    }
}

/// 16 to the power n.
pub open spec fn pow16(n: nat) -> nat
    decreases n,
{
    if n == 0 {
        1
    } else {
        16 * pow16((n - 1) as nat)
    }
}

/// Parse a hexadecimal size field. Returns the value exactly when the field
/// is one to eight hexadecimal digits; `InvalidSize` otherwise.
pub fn parse_hex(s: &[u8]) -> (r: Result<u32, Error>)
    ensures
        match r {
            Ok(v) => spec_parse_hex(s@) == Some(v),
            Err(e) => spec_parse_hex(s@) is None && e == Error::InvalidSize,
        },
{
    let n = s.len();
    if n == 0 || n > 8 {
        return Err(Error::InvalidSize);
    }
    let mut v: u32 = 0;
    let mut i: usize = 0;
    while i < n
        invariant
            0 < n <= 8,
            n == s@.len(),
            0 <= i <= n,
            forall|j: int| 0 <= j < i ==> hex_digit_val(#[trigger] s@[j]) is Some,
            v == hex_seq_val(s@.take(i as int)),
            v < pow16(i as nat),
        decreases n - i,
    {
        let c = s[i];
        let d: u8 = if 0x30 <= c && c <= 0x39 {
            c - 0x30
        } else if 0x41 <= c && c <= 0x46 {
            c - 0x41 + 10
        } else if 0x61 <= c && c <= 0x66 {
            c - 0x61 + 10
        } else {
            return Err(Error::InvalidSize);
        };
        proof {
            assert(hex_digit_val(s@[i as int]) == Some(d));
            assert(d < 16);
            lemma_pow16_values();
            assert(pow16(i as nat) <= pow16(7)) by {
                lemma_pow16_mono(i as nat, 7);
            };
            assert(v * 16 + d < 16 * pow16(i as nat)) by (nonlinear_arith)
                requires
                    v < pow16(i as nat),
                    d < 16,
            ;
            assert(16 * pow16(i as nat) == pow16((i + 1) as nat));
            assert(s@.take(i + 1).drop_last() =~= s@.take(i as int));
            assert(s@.take(i + 1).last() == s@[i as int]);
            assert(hex_seq_val(s@.take(i + 1)) == hex_seq_val(s@.take(i as int)) * 16 + d);
        }
        v = v * 16 + d as u32;
        i = i + 1;
    }
    proof {
        assert(s@.take(n as int) =~= s@);
    }
    Ok(v)
}

/// pow16 is monotone.
pub proof fn lemma_pow16_mono(a: nat, b: nat)
    requires
        a <= b,
    ensures
        pow16(a) <= pow16(b),
    decreases b,
{
    if a < b {
        lemma_pow16_mono(a, (b - 1) as nat);
        assert(pow16(b) == 16 * pow16((b - 1) as nat));
        assert(pow16((b - 1) as nat) >= 1) by {
            lemma_pow16_pos((b - 1) as nat);
        };
    }
}

/// pow16 is positive.
pub proof fn lemma_pow16_pos(n: nat)
    ensures
        pow16(n) >= 1,
    decreases n,
{
    if n > 0 {
        lemma_pow16_pos((n - 1) as nat);
    }
}

/// The uppercase digit for a value below 16.
pub open spec fn hex_digit_char(d: nat) -> u8 {
    if d < 10 {
        (0x30 + d) as u8
    } else {
        (0x41 + d - 10) as u8
    }
}

/// The canonical (minimal, uppercase) hexadecimal form of n.
pub open spec fn spec_hex(n: nat) -> Seq<u8>
    decreases n,
{
    if n < 16 {
        seq![hex_digit_char(n)]
    } else {
        spec_hex(n / 16).push(hex_digit_char(n % 16))
    }
}

/// Render n in canonical hexadecimal form.
pub fn format_hex(n: u32) -> (r: Vec<u8>)
    ensures
        r@ == spec_hex(n as nat),
    decreases n,
{
    let d: u8 = (n % 16) as u8;
    let c: u8 = if d < 10 {
        0x30 + d
    } else {
        0x41 + d - 10
    };
    proof {
        assert(c == hex_digit_char((n % 16) as nat));
    }
    if n < 16 {
        let mut v: Vec<u8> = Vec::new();
        v.push(c);
        proof {
            assert(v@ =~= spec_hex(n as nat));
        }
        v
    } else {
        let mut v = format_hex(n / 16);
        v.push(c);
        v
    }
}

/// Rendering and parsing are inverse: the canonical form of any 32-bit value
/// parses back to that value.
pub proof fn lemma_hex_roundtrip(n: u32)
    ensures
        spec_parse_hex(spec_hex(n as nat)) == Some(n),
{
    lemma_hex_form(n as nat);
    lemma_pow16_values();
    lemma_hex_len_bound(n as nat, 8);
}

/// The first few powers of 16, by unfolding.
pub proof fn lemma_pow16_values()
    ensures
        pow16(1) == 16,
        pow16(7) == 0x1000_0000,
        pow16(8) == 0x1_0000_0000,
{
    assert(pow16(0) == 1);
    assert(pow16(1) == 16);
    assert(pow16(2) == 0x100);
    assert(pow16(3) == 0x1000);
    assert(pow16(4) == 0x1_0000);
    assert(pow16(5) == 0x10_0000);
    assert(pow16(6) == 0x100_0000);
    assert(pow16(7) == 0x1000_0000);
    assert(pow16(8) == 0x1_0000_0000);
}

/// The canonical form is made of digits and evaluates back to n.
pub proof fn lemma_hex_form(n: nat)
    ensures
        is_hex_seq(spec_hex(n)),
        hex_seq_val(spec_hex(n)) == n,
    decreases n,
{
    if n < 16 {
        let s = spec_hex(n);
        assert(s.len() == 1);
        assert(hex_digit_val(s[0]) == Some(n as u8));
        assert(s.drop_last() =~= Seq::<u8>::empty());
        assert(hex_seq_val(Seq::<u8>::empty()) == 0);
        assert(s.last() == hex_digit_char(n));
        assert(hex_seq_val(s) == hex_seq_val(s.drop_last()) * 16 + n);
    } else {
        lemma_hex_form(n / 16);
        let s = spec_hex(n);
        let p = spec_hex(n / 16);
        assert(s == p.push(hex_digit_char(n % 16)));
        assert(s.drop_last() =~= p);
        assert(s.last() == hex_digit_char(n % 16));
        assert(hex_digit_val(hex_digit_char(n % 16)) == Some((n % 16) as u8));
        assert(hex_seq_val(s) == hex_seq_val(p) * 16 + n % 16);
        assert(forall|i: int| 0 <= i < s.len() ==> hex_digit_val(#[trigger] s[i]) is Some) by {
            assert(forall|i: int| 0 <= i < p.len() ==> s[i] == p[i]);
        };
    }
}

/// If n < 16^k then its canonical form has at most k digits.
pub proof fn lemma_hex_len_bound(n: nat, k: nat)
    requires
        k >= 1,
        n < pow16(k),
    ensures
        spec_hex(n).len() <= k,
    decreases n,
{
    if n < 16 {
    } else {
        assert(k >= 2) by {
            if k == 1 {
                assert(pow16(1) == 16 * pow16(0));
            }
        };
        assert(n / 16 < pow16((k - 1) as nat)) by {
            assert(pow16(k) == 16 * pow16((k - 1) as nat));
        };
        lemma_hex_len_bound(n / 16, (k - 1) as nat);
    }
}

} // verus!
