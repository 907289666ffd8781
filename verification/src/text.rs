//! Character-level text helpers for labels.

use vstd::prelude::*;
use vstd::string::StringSliceAdditionalSpecFns;

verus! {

/// `String::push` from std: appends one character. The contract states that
/// the string's characters afterwards are the earlier ones followed by `c`.
#[verifier::external_body]
pub(crate) fn push_char(s: &mut String, c: char)
    ensures
        final(s)@ == old(s)@.push(c),
{
    s.push(c);
}

proof fn lemma_encode_len(chars: Seq<char>)
    ensures
        vstd::utf8::encode_utf8(chars).len() >= chars.len(),
    decreases chars.len(),
{
    if chars.len() > 0 {
        lemma_encode_len(chars.drop_first());
    }
}

/// A string has no more characters than bytes, so its length in characters
/// fits a `usize`.
pub fn char_count_fits(s: &str)
    ensures
        s@.len() <= usize::MAX,
{
    let bytes = s.as_bytes();
    let _n = bytes.len();
    proof {
        lemma_encode_len(s@);
    }
}

/// The number of characters of `s`.
pub fn char_count(s: &str) -> (count: usize)
    ensures
        count == s@.len(),
{
    char_count_fits(s);
    let mut count: usize = 0;
    for _c in it: s.chars()
        invariant
            count == it.index(),
            it.seq() == s@,
            s@.len() <= usize::MAX,
    {
        count += 1;
    }
    count
}

pub open spec fn min_nat(a: int, b: int) -> int {
    if a <= b {
        a
    } else {
        b
    }
}

/// The first `n` characters of `s` (all of them when it is shorter).
pub fn char_prefix(s: &str, n: usize) -> (prefix: String)
    ensures
        prefix@ == s@.take(min_nat(n as int, s@.len() as int)),
{
    char_count_fits(s);
    let mut prefix = String::new();
    let mut taken: usize = 0;
    for c in it: s.chars()
        invariant
            taken == it.index(),
            it.seq() == s@,
            prefix@ == s@.take(min_nat(taken as int, n as int)),
            s@.len() <= usize::MAX,
    {
        if taken < n {
            proof {
                assert(s@.take(taken + 1) =~= s@.take(taken as int).push(c));
            }
            push_char(&mut prefix, c);
        }
        taken += 1;
    }
    proof {
        if n as int >= s@.len() {
            assert(s@.take(s@.len() as int) =~= s@);
        }
    }
    prefix
}

/// What follows the last `separator` in `s`, or all of `s` without one.
pub open spec fn last_segment(s: Seq<char>, separator: char) -> Seq<char>
    decreases s.len(),
{
    if s.len() == 0 {
        s
    } else if s.last() == separator {
        Seq::empty()
    } else {
        last_segment(s.drop_last(), separator).push(s.last())
    }
}

/// The text after the last `separator` of `s`, or all of it.
pub fn after_last(s: &str, separator: char) -> (segment: String)
    ensures
        segment@ == last_segment(s@, separator),
{
    char_count_fits(s);
    let mut segment = String::new();
    let mut seen: usize = 0;
    for c in it: s.chars()
        invariant
            seen == it.index(),
            it.seq() == s@,
            segment@ == last_segment(s@.take(seen as int), separator),
            s@.len() <= usize::MAX,
    {
        proof {
            assert(s@.take(seen + 1).drop_last() =~= s@.take(seen as int));
            assert(s@.take(seen + 1).last() == c);
        }
        if c == separator {
            segment = String::new();
        } else {
            push_char(&mut segment, c);
        }
        seen += 1;
    }
    proof {
        assert(s@.take(s@.len() as int) =~= s@);
    }
    segment
}

/// A copy of `s`.
pub fn copy_str(s: &str) -> (copy: String)
    ensures
        copy@ == s@,
{
    char_count_fits(s);
    let copy = char_prefix(s, usize::MAX);
    proof {
        assert(s@.take(s@.len() as int) =~= s@);
    }
    copy
}

/// `a` comes before `b` in the byte-wise lexicographic order (a proper
/// prefix comes first).
pub open spec fn bytes_less(a: Seq<u8>, b: Seq<u8>) -> bool
    decreases a.len(),
{
    if b.len() == 0 {
        false
    } else if a.len() == 0 {
        true
    } else if a[0] != b[0] {
        a[0] < b[0]
    } else {
        bytes_less(a.drop_first(), b.drop_first())
    }
}

/// The order of `String`: byte-wise lexicographic on the UTF-8 encoding.
pub open spec fn text_less(a: Seq<char>, b: Seq<char>) -> bool {
    bytes_less(vstd::utf8::encode_utf8(a), vstd::utf8::encode_utf8(b))
}

proof fn lemma_bytes_less_from(a: Seq<u8>, b: Seq<u8>, i: int)
    requires
        0 <= i <= a.len(),
        i <= b.len(),
        a.take(i) == b.take(i),
    ensures
        bytes_less(a, b) == bytes_less(a.skip(i), b.skip(i)),
    decreases i,
{
    if i > 0 {
        assert(a[0] == a.take(i)[0]);
        assert(b[0] == b.take(i)[0]);
        assert(a.drop_first().take(i - 1) =~= a.take(i).drop_first());
        assert(b.drop_first().take(i - 1) =~= b.take(i).drop_first());
        lemma_bytes_less_from(a.drop_first(), b.drop_first(), i - 1);
        assert(a.drop_first().skip(i - 1) =~= a.skip(i));
        assert(b.drop_first().skip(i - 1) =~= b.skip(i));
    } else {
        assert(a.skip(0) =~= a);
        assert(b.skip(0) =~= b);
    }
}

/// Whether `a` sorts before `b` as strings do.
pub fn text_before(a: &str, b: &str) -> (before: bool)
    ensures
        before == text_less(a@, b@),
{
    let x = a.as_bytes();
    let y = b.as_bytes();
    let mut i: usize = 0;
    while i < x.len() && i < y.len()
        invariant
            0 <= i <= x@.len(),
            i <= y@.len(),
            x@ == a.spec_bytes(),
            y@ == b.spec_bytes(),
            x@.take(i as int) == y@.take(i as int),
        decreases x@.len() - i,
    {
        if x[i] != y[i] {
            proof {
                lemma_bytes_less_from(x@, y@, i as int);
                assert(x@.skip(i as int)[0] == x@[i as int]);
                assert(y@.skip(i as int)[0] == y@[i as int]);
            }
            return x[i] < y[i];
        }
        proof {
            assert(x@.take(i + 1) =~= x@.take(i as int).push(x@[i as int]));
            assert(y@.take(i + 1) =~= y@.take(i as int).push(y@[i as int]));
        }
        i += 1;
    }
    proof {
        lemma_bytes_less_from(x@, y@, i as int);
    }
    i < y.len()
}

/// Whether `a` and `b` hold the same characters.
pub fn same_text(a: &str, b: &str) -> (same: bool)
    ensures
        same == (a@ == b@),
{
    let x = a.as_bytes();
    let y = b.as_bytes();
    proof {
        vstd::utf8::encode_utf8_decode_utf8(a@);
        vstd::utf8::encode_utf8_decode_utf8(b@);
    }
    if x.len() != y.len() {
        return false;
    }
    let mut i: usize = 0;
    while i < x.len()
        invariant
            0 <= i <= x@.len(),
            x@.len() == y@.len(),
            x@ == a.spec_bytes(),
            y@ == b.spec_bytes(),
            forall|j: int| 0 <= j < i ==> x@[j] == y@[j],
        decreases x@.len() - i,
    {
        if x[i] != y[i] {
            return false;
        }
        i += 1;
    }
    proof {
        assert(x@ =~= y@);
    }
    true
}

/// Appends the characters of `t` to `s`.
pub fn append_str(s: &mut String, t: &str)
    ensures
        final(s)@ == old(s)@ + t@,
{
    char_count_fits(t);
    let ghost start = s@;
    for c in it: t.chars()
        invariant
            it.seq() == t@,
            s@ == start + t@.take(it.index() as int),
            t@.len() <= usize::MAX,
    {
        proof {
            assert(t@.take(it.index() + 1) =~= t@.take(it.index() as int).push(c));
        }
        push_char(s, c);
    }
    proof {
        assert(t@.take(t@.len() as int) =~= t@);
    }
}

/// The characters of `s` from position `k` on.
pub fn char_suffix(s: &str, k: usize) -> (suffix: String)
    ensures
        suffix@ == s@.skip(min_nat(k as int, s@.len() as int)),
{
    char_count_fits(s);
    let mut suffix = String::new();
    let mut seen: usize = 0;
    for c in it: s.chars()
        invariant
            seen == it.index(),
            it.seq() == s@,
            suffix@ == s@.take(seen as int).skip(min_nat(k as int, seen as int)),
            s@.len() <= usize::MAX,
    {
        proof {
            assert(s@.take(seen + 1) =~= s@.take(seen as int).push(c));
            if seen >= k {
                assert(s@.take(seen + 1).skip(k as int) =~= s@.take(seen as int).skip(k as int).push(c));
            } else {
                assert(s@.take(seen + 1).skip(min_nat(k as int, seen + 1)) =~= Seq::<char>::empty());
            }
        }
        if seen >= k {
            push_char(&mut suffix, c);
        }
        seen += 1;
    }
    proof {
        assert(s@.take(s@.len() as int) =~= s@);
    }
    suffix
}

/// The byte-wise order is a strict total order.
pub proof fn lemma_bytes_less_order(a: Seq<u8>, b: Seq<u8>, c: Seq<u8>)
    ensures
        !bytes_less(a, a),
        bytes_less(a, b) ==> !bytes_less(b, a),
        bytes_less(a, b) && bytes_less(b, c) ==> bytes_less(a, c),
        a != b ==> bytes_less(a, b) || bytes_less(b, a),
    decreases a.len(),
{
    if a.len() > 0 && b.len() > 0 && c.len() > 0 {
        lemma_bytes_less_order(a.drop_first(), b.drop_first(), c.drop_first());
    } else if a.len() > 0 && b.len() > 0 {
        lemma_bytes_less_order(a.drop_first(), b.drop_first(), b.drop_first());
    } else if a.len() > 0 {
        lemma_bytes_less_order(a.drop_first(), a.drop_first(), a.drop_first());
    }
    if a != b && a.len() > 0 && b.len() > 0 && a[0] == b[0] {
        assert(a =~= seq![a[0]] + a.drop_first());
        assert(b =~= seq![b[0]] + b.drop_first());
    }
    if a.len() == 0 && b.len() == 0 {
        assert(a =~= b);
    }
}

/// The order of strings is a strict total order.
pub proof fn lemma_text_less_order(a: Seq<char>, b: Seq<char>, c: Seq<char>)
    ensures
        !text_less(a, a),
        text_less(a, b) ==> !text_less(b, a),
        text_less(a, b) && text_less(b, c) ==> text_less(a, c),
        a != b ==> text_less(a, b) || text_less(b, a),
{
    lemma_bytes_less_order(
        vstd::utf8::encode_utf8(a),
        vstd::utf8::encode_utf8(b),
        vstd::utf8::encode_utf8(c),
    );
    vstd::utf8::encode_utf8_decode_utf8(a);
    vstd::utf8::encode_utf8_decode_utf8(b);
}

} // verus!
