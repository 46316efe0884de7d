//! Conversion of a dotted-quad IPv4 literal into its big-endian 32-bit
//! numeric encoding.

use vstd::prelude::*;
use vstd::string::*;

use crate::text::{
    is_numeral, lemma_split_on_append_nosep, lemma_split_on_append_sep, numeral_val, split_on,
    split_str,
};

verus! {

/// The address text was not a syntactically valid dotted quad.
#[derive(Debug, Clone, Copy, PartialEq, Eq)]
pub struct InvalidAddress;

/// One octet of a dotted quad: one to three digits, no leading zero, value
/// at most 255.
pub open spec fn is_octet(s: Seq<char>) -> bool {
    &&& is_numeral(s)
    &&& s.len() <= 3
    &&& s.len() > 1 ==> s[0] != '0'
    &&& numeral_val(s) <= 255
}

/// A syntactically valid dotted-quad IPv4 literal: exactly four octets
/// separated by dots.
pub open spec fn valid_ipv4(s: Seq<char>) -> bool {
    let ps = split_on(s, '.');
    &&& ps.len() == 4
    &&& is_octet(ps[0])
    &&& is_octet(ps[1])
    &&& is_octet(ps[2])
    &&& is_octet(ps[3])
}

/// Big-endian packing of four octet values: octet 0 lands in bits 31 to 24,
/// octet 3 in bits 7 to 0.
pub open spec fn ipv4_pack(a: int, b: int, c: int, d: int) -> int {
    a * 0x1000000 + b * 0x10000 + c * 0x100 + d
}

/// Numeric value of a valid dotted quad.
pub open spec fn ipv4_value(s: Seq<char>) -> u32
    recommends
        valid_ipv4(s),
{
    let ps = split_on(s, '.');
    ipv4_pack(numeral_val(ps[0]), numeral_val(ps[1]), numeral_val(ps[2]), numeral_val(ps[3])) as u32
}

/// Packing four octet values is injective: distinct quadruples encode to
/// distinct addresses.
pub proof fn lemma_pack_injective(a1: int, b1: int, c1: int, d1: int, a2: int, b2: int, c2: int, d2: int)
    requires
        0 <= a1 <= 255,
        0 <= b1 <= 255,
        0 <= c1 <= 255,
        0 <= d1 <= 255,
        0 <= a2 <= 255,
        0 <= b2 <= 255,
        0 <= c2 <= 255,
        0 <= d2 <= 255,
        ipv4_pack(a1, b1, c1, d1) == ipv4_pack(a2, b2, c2, d2),
    ensures
        a1 == a2,
        b1 == b2,
        c1 == c2,
        d1 == d2,
{
}

/// The digit character for a value between zero and nine.
pub open spec fn digit_char(d: int) -> char
    recommends
        0 <= d <= 9,
{
    if d == 0 {
        '0'
    } else if d == 1 {
        '1'
    } else if d == 2 {
        '2'
    } else if d == 3 {
        '3'
    } else if d == 4 {
        '4'
    } else if d == 5 {
        '5'
    } else if d == 6 {
        '6'
    } else if d == 7 {
        '7'
    } else if d == 8 {
        '8'
    } else {
        '9'
    }
}

/// The canonical decimal numeral of an octet value: no leading zeros.
pub open spec fn dec_numeral(n: int) -> Seq<char>
    recommends
        0 <= n <= 255,
{
    if n < 10 {
        seq![digit_char(n)]
    } else if n < 100 {
        seq![digit_char(n / 10), digit_char(n % 10)]
    } else {
        seq![digit_char(n / 100), digit_char((n / 10) % 10), digit_char(n % 10)]
    }
}

/// The canonical dotted-quad text of four octet values.
pub open spec fn dotted_quad(a: int, b: int, c: int, d: int) -> Seq<char>
    recommends
        0 <= a <= 255,
        0 <= b <= 255,
        0 <= c <= 255,
        0 <= d <= 255,
{
    dec_numeral(a) + seq!['.'] + dec_numeral(b) + seq!['.'] + dec_numeral(c) + seq!['.']
        + dec_numeral(d)
}

/// The canonical numeral of an octet value is an octet and reads back as
/// that value.
proof fn lemma_dec_numeral_octet(n: int)
    requires
        0 <= n <= 255,
    ensures
        is_octet(dec_numeral(n)),
        numeral_val(dec_numeral(n)) == n,
        forall|i: int| 0 <= i < dec_numeral(n).len() ==> dec_numeral(n)[i] != '.',
{
    reveal_with_fuel(numeral_val, 4);
    let s = dec_numeral(n);
    if n < 10 {
        assert(s.drop_last() =~= Seq::<char>::empty());
        assert(numeral_val(s) == n);
    } else if n < 100 {
        assert(s.drop_last() =~= seq![digit_char(n / 10)]);
        assert(s.drop_last().drop_last() =~= Seq::<char>::empty());
        assert(numeral_val(s) == (n / 10) * 10 + n % 10);
    } else {
        assert(s.drop_last() =~= seq![digit_char(n / 100), digit_char((n / 10) % 10)]);
        assert(s.drop_last().drop_last() =~= seq![digit_char(n / 100)]);
        assert(s.drop_last().drop_last().drop_last() =~= Seq::<char>::empty());
        assert(numeral_val(s) == ((n / 100) * 10 + (n / 10) % 10) * 10 + n % 10);
        assert((n / 10) / 10 == n / 100) by {
            vstd::arithmetic::div_mod::lemma_div_denominator(n, 10, 10);
        }
        assert((n / 100) * 100 + ((n / 10) % 10) * 10 + n % 10 == n) by {
            vstd::arithmetic::div_mod::lemma_fundamental_div_mod(n, 10);
            vstd::arithmetic::div_mod::lemma_fundamental_div_mod(n / 10, 10);
        }
    }
}

/// The address conversion round trip: writing any four octet values as a
/// dotted quad and converting the text back yields exactly their big-endian
/// packing, for the whole 32-bit address space.
pub proof fn lemma_round_trip(a: int, b: int, c: int, d: int)
    requires
        0 <= a <= 255,
        0 <= b <= 255,
        0 <= c <= 255,
        0 <= d <= 255,
    ensures
        valid_ipv4(dotted_quad(a, b, c, d)),
        ipv4_value(dotted_quad(a, b, c, d)) == ipv4_pack(a, b, c, d),
{
    lemma_dec_numeral_octet(a);
    lemma_dec_numeral_octet(b);
    lemma_dec_numeral_octet(c);
    lemma_dec_numeral_octet(d);
    let s0 = Seq::<char>::empty() + dec_numeral(a);
    let s1 = s0 + seq!['.'];
    let s2 = s1 + dec_numeral(b);
    let s3 = s2 + seq!['.'];
    let s4 = s3 + dec_numeral(c);
    let s5 = s4 + seq!['.'];
    let s6 = s5 + dec_numeral(d);
    assert(split_on(Seq::<char>::empty(), '.') == seq![Seq::<char>::empty()]);
    lemma_split_on_append_nosep(Seq::<char>::empty(), dec_numeral(a), '.');
    assert(split_on(s0, '.') =~= seq![dec_numeral(a)]);
    lemma_split_on_append_sep(s0, '.');
    lemma_split_on_append_nosep(s1, dec_numeral(b), '.');
    assert(split_on(s2, '.') =~= seq![dec_numeral(a), dec_numeral(b)]);
    lemma_split_on_append_sep(s2, '.');
    lemma_split_on_append_nosep(s3, dec_numeral(c), '.');
    assert(split_on(s4, '.') =~= seq![dec_numeral(a), dec_numeral(b), dec_numeral(c)]);
    lemma_split_on_append_sep(s4, '.');
    lemma_split_on_append_nosep(s5, dec_numeral(d), '.');
    assert(split_on(s6, '.') =~= seq![
        dec_numeral(a),
        dec_numeral(b),
        dec_numeral(c),
        dec_numeral(d),
    ]);
    assert(s6 =~= dotted_quad(a, b, c, d));
}

/// Parse one octet of a dotted quad.
fn parse_octet(s: &str) -> (r: Option<u8>)
    ensures
        r is Some <==> is_octet(s@),
        r matches Some(v) ==> v == numeral_val(s@),
{
    let n = s.unicode_len();
    if n == 0 || n > 3 {
        return None;
    }
    if n > 1 && s.get_char(0) == '0' {
        return None;
    }
    let mut val: u32 = 0;
    let mut i: usize = 0;
    while i < n
        invariant
            0 <= i <= n,
            n == s@.len(),
            1 <= n <= 3,
            forall|k: int| 0 <= k < i ==> crate::text::is_digit(#[trigger] s@[k]),
            val == numeral_val(s@.take(i as int)),
            i == 0 ==> val == 0,
            i <= 1 ==> val <= 9,
            i <= 2 ==> val <= 99,
            val <= 999,
        decreases n - i,
    {
        let c = s.get_char(i);
        let cv = c as u32;
        if cv < 48 || cv > 57 {
            return None;
        }
        proof {
            assert(s@.take(i + 1).drop_last() =~= s@.take(i as int));
            assert(s@.take(i + 1).last() == s@[i as int]);
        }
        val = val * 10 + (cv - 48);
        i = i + 1;
    }
    proof {
        assert(s@.take(n as int) =~= s@);
    }
    if val > 255 {
        return None;
    }
    Some(val as u8)
}

/// Convert a dotted-quad IPv4 literal to its 32-bit numeric encoding, or
/// report `InvalidAddress` for anything else.
pub fn ip_to_decimal(ip: &str) -> (r: Result<u32, InvalidAddress>)
    ensures
        r is Ok <==> valid_ipv4(ip@),
        r matches Ok(v) ==> v == ipv4_value(ip@),
{
    let parts = split_str(ip, '.');
    if parts.len() != 4 {
        return Err(InvalidAddress);
    }
    let a = match parse_octet(parts[0].as_str()) {
        Some(v) => v,
        None => {
            return Err(InvalidAddress);
        },
    };
    let b = match parse_octet(parts[1].as_str()) {
        Some(v) => v,
        None => {
            return Err(InvalidAddress);
        },
    };
    let c = match parse_octet(parts[2].as_str()) {
        Some(v) => v,
        None => {
            return Err(InvalidAddress);
        },
    };
    let d = match parse_octet(parts[3].as_str()) {
        Some(v) => v,
        None => {
            return Err(InvalidAddress);
        },
    };
    let v = (a as u32) * 0x1000000 + (b as u32) * 0x10000 + (c as u32) * 0x100 + (d as u32);
    proof {
        crate::text::lemma_numeral_val_nonneg(split_on(ip@, '.')[0]);
        crate::text::lemma_numeral_val_nonneg(split_on(ip@, '.')[1]);
        crate::text::lemma_numeral_val_nonneg(split_on(ip@, '.')[2]);
        crate::text::lemma_numeral_val_nonneg(split_on(ip@, '.')[3]);
    }
    Ok(v)
}

} // verus!
