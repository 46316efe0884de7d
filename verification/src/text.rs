//! Text building blocks shared by the address converter and the loader:
//! decimal numerals and separator-based splitting, each with a spec-level
//! model and a verified executable counterpart.

use vstd::prelude::*;
use vstd::string::*;

verus! {

/// A decimal digit, `'0'` through `'9'`.
pub open spec fn is_digit(c: char) -> bool {
    48 <= c as int <= 57
}

/// Numeric value of a decimal digit; zero for anything else, so that
/// `numeral_val` is monotone under extension without side conditions.
pub open spec fn digit_val(c: char) -> int {
    if is_digit(c) {
        c as int - 48
    } else {
        0
    }
}

/// A non-empty run of decimal digits.
pub open spec fn is_numeral(s: Seq<char>) -> bool {
    s.len() > 0 && forall|i: int| 0 <= i < s.len() ==> is_digit(#[trigger] s[i])
}

/// Value of a run of decimal digits, most significant digit first.
pub open spec fn numeral_val(s: Seq<char>) -> int
    decreases s.len(),
{
    if s.len() == 0 {
        0
    } else {
        numeral_val(s.drop_last()) * 10 + digit_val(s.last())
    }
}

/// A numeral's value is never negative.
pub proof fn lemma_numeral_val_nonneg(s: Seq<char>)
    ensures
        numeral_val(s) >= 0,
    decreases s.len(),
{
    if s.len() > 0 {
        lemma_numeral_val_nonneg(s.drop_last());
    }
}

/// The value of a prefix never exceeds the value of the whole numeral.
pub proof fn lemma_numeral_val_prefix_le(s: Seq<char>, i: int)
    requires
        0 <= i <= s.len(),
    ensures
        numeral_val(s.take(i)) <= numeral_val(s),
    decreases s.len() - i,
{
    if i == s.len() {
        assert(s.take(i) =~= s);
    } else {
        assert(s.take(i + 1).drop_last() =~= s.take(i));
        assert(s.take(i + 1).last() == s[i]);
        lemma_numeral_val_nonneg(s.take(i));
        lemma_numeral_val_prefix_le(s, i + 1);
    }
}

/// The parts of `s` delimited by `sep`: always one part more than there are
/// separators, so the empty text has one empty part.
pub open spec fn split_on(s: Seq<char>, sep: char) -> Seq<Seq<char>>
    decreases s.len(),
{
    if s.len() == 0 {
        seq![Seq::<char>::empty()]
    } else {
        let parts = split_on(s.drop_last(), sep);
        if s.last() == sep {
            parts.push(Seq::<char>::empty())
        } else {
            parts.update(parts.len() - 1, parts.last().push(s.last()))
        }
    }
}

/// A split always yields at least one part.
pub proof fn lemma_split_on_len(s: Seq<char>, sep: char)
    ensures
        split_on(s, sep).len() >= 1,
    decreases s.len(),
{
    if s.len() > 0 {
        lemma_split_on_len(s.drop_last(), sep);
    }
}

/// Appending text free of the separator extends the last part and nothing
/// else.
pub proof fn lemma_split_on_append_nosep(s: Seq<char>, p: Seq<char>, sep: char)
    requires
        forall|i: int| 0 <= i < p.len() ==> p[i] != sep,
    ensures
        split_on(s + p, sep).len() == split_on(s, sep).len(),
        forall|j: int|
            0 <= j < split_on(s, sep).len() - 1 ==> #[trigger] split_on(s + p, sep)[j] == split_on(
                s,
                sep,
            )[j],
        split_on(s + p, sep).last() == split_on(s, sep).last() + p,
    decreases p.len(),
{
    lemma_split_on_len(s, sep);
    if p.len() == 0 {
        assert(s + p =~= s);
        assert(split_on(s, sep).last() + p =~= split_on(s, sep).last());
    } else {
        lemma_split_on_append_nosep(s, p.drop_last(), sep);
        assert((s + p).drop_last() =~= s + p.drop_last());
        assert((s + p).last() == p.last());
        assert((split_on(s, sep).last() + p.drop_last()).push(p.last()) =~= split_on(s, sep).last()
            + p);
    }
}

/// Appending one separator closes the last part and opens a new, empty one.
pub proof fn lemma_split_on_append_sep(s: Seq<char>, sep: char)
    ensures
        split_on(s + seq![sep], sep) == split_on(s, sep).push(Seq::<char>::empty()),
    decreases s.len(),
{
    assert((s + seq![sep]).drop_last() =~= s);
    assert((s + seq![sep]).last() == sep);
}

/// Split `s` at every occurrence of `sep`, as `split_on` describes.
pub fn split_str(s: &str, sep: char) -> (parts: Vec<String>)
    ensures
        parts@.len() == split_on(s@, sep).len(),
        forall|i: int| 0 <= i < parts@.len() ==> #[trigger] parts@[i]@ == split_on(s@, sep)[i],
{
    let n = s.unicode_len();
    let mut parts: Vec<String> = Vec::new();
    let mut start: usize = 0;
    let mut i: usize = 0;
    while i < n
        invariant
            start <= i <= n,
            n == s@.len(),
            split_on(s@.take(i as int), sep).len() == parts@.len() + 1,
            forall|j: int|
                0 <= j < parts@.len() ==> #[trigger] parts@[j]@ == split_on(
                    s@.take(i as int),
                    sep,
                )[j],
            split_on(s@.take(i as int), sep).last() == s@.subrange(start as int, i as int),
        decreases n - i,
    {
        let c = s.get_char(i);
        proof {
            assert(s@.take(i + 1).drop_last() =~= s@.take(i as int));
            assert(s@.take(i + 1).last() == s@[i as int]);
        }
        if c == sep {
            parts.push(s.substring_char(start, i).to_owned());
            start = i + 1;
            proof {
                assert(s@.subrange(start as int, start as int) =~= Seq::<char>::empty());
            }
        } else {
            proof {
                assert(s@.subrange(start as int, i as int).push(s@[i as int]) =~= s@.subrange(
                    start as int,
                    i + 1,
                ));
            }
        }
        i = i + 1;
    }
    proof {
        assert(s@.take(n as int) =~= s@);
        assert(s@.subrange(start as int, n as int) == split_on(s@, sep).last());
    }
    parts.push(s.substring_char(start, n).to_owned());
    parts
}

/// Parse a run of decimal digits as an unsigned 32-bit integer.
pub fn parse_u32(s: &str) -> (r: Option<u32>)
    ensures
        r is Some <==> is_numeral(s@) && numeral_val(s@) <= u32::MAX,
        r matches Some(v) ==> v == numeral_val(s@),
{
    let n = s.unicode_len();
    if n == 0 {
        return None;
    }
    let mut val: u64 = 0;
    let mut i: usize = 0;
    while i < n
        invariant
            0 <= i <= n,
            n == s@.len(),
            forall|k: int| 0 <= k < i ==> is_digit(#[trigger] s@[k]),
            val == numeral_val(s@.take(i as int)),
            val <= u32::MAX,
        decreases n - i,
    {
        let c = s.get_char(i);
        let cv = c as u32;
        if cv < 48 || cv > 57 {
            return None;
        }
        proof {
            assert(s@.take(i + 1).drop_last() =~= s@.take(i as int));
            assert(s@.take(i + 1).last() == s@[i as int]);
        }
        val = val * 10 + ((cv - 48) as u64);
        i = i + 1;
        if val > 0xFFFF_FFFFu64 {
            proof {
                lemma_numeral_val_prefix_le(s@, i as int);
            }
            return None;
        }
    }
    proof {
        assert(s@.take(n as int) =~= s@);
    }
    Some(val as u32)
}

} // verus!
