//! String comparison on `&str`, carried out byte by byte on the UTF-8
//! encoding and specified on the character sequences.

use vstd::prelude::*;
use vstd::utf8::*;

verus! {

/// The UTF-8 encoding of a concatenation is the concatenation of the
/// encodings.
pub proof fn lemma_encode_concat(a: Seq<char>, b: Seq<char>)
    ensures
        encode_utf8(a + b) =~= encode_utf8(a) + encode_utf8(b),
    decreases a.len(),
{
    if a.len() == 0 {
        assert(a + b =~= b);
    } else {
        assert((a + b).drop_first() =~= a.drop_first() + b);
        lemma_encode_concat(a.drop_first(), b);
    }
}

/// Two character sequences with the same UTF-8 encoding are the same.
pub proof fn lemma_encode_injective(a: Seq<char>, b: Seq<char>)
    requires
        encode_utf8(a) == encode_utf8(b),
    ensures
        a == b,
{
    encode_utf8_decode_utf8(a);
    encode_utf8_decode_utf8(b);
}

proof fn lemma_encode_unfold(chars: Seq<char>)
    requires
        chars.len() > 0,
    ensures
        encode_utf8(chars) == encode_scalar(chars[0] as u32) + encode_utf8(chars.drop_first()),
        encode_scalar(chars[0] as u32).len() == length_of_first_scalar(encode_utf8(chars)),
        1 <= length_of_first_scalar(encode_utf8(chars)) <= 4,
        decode_first_scalar(encode_utf8(chars)) == chars[0] as u32,
{
    encode_utf8_first_scalar(chars);
}

/// A character sequence whose encoding is a prefix of another's encoding is
/// itself a prefix of the other.
pub proof fn lemma_prefix_of_encoding(p: Seq<char>, s: Seq<char>)
    requires
        encode_utf8(p).is_prefix_of(encode_utf8(s)),
    ensures
        p.is_prefix_of(s),
    decreases p.len(),
{
    if p.len() > 0 {
        let bp = encode_utf8(p);
        let bs = encode_utf8(s);
        lemma_encode_unfold(p);
        assert(bp.len() > 0);
        assert(s.len() > 0);
        lemma_encode_unfold(s);
        assert(forall|i: int| 0 <= i < bp.len() ==> bp[i] == bs[i]);
        assert(bp[0] == bs[0]);
        let n = length_of_first_scalar(bp);
        assert(n == length_of_first_scalar(bs));
        assert(n <= bp.len());
        assert(decode_first_scalar(bp) == decode_first_scalar(bs));
        char_u32_cast(p[0], p[0] as u32);
        char_u32_cast(s[0], s[0] as u32);
        assert(p[0] == s[0]);
        let tp = encode_utf8(p.drop_first());
        let ts = encode_utf8(s.drop_first());
        assert(tp =~= bp.subrange(n, bp.len() as int));
        assert(ts =~= bs.subrange(n, bs.len() as int));
        assert(tp.is_prefix_of(ts)) by {
            assert(tp =~= ts.subrange(0, tp.len() as int));
        }
        lemma_prefix_of_encoding(p.drop_first(), s.drop_first());
        assert(p =~= s.subrange(0, p.len() as int)) by {
            assert forall|i: int| 0 <= i < p.len() implies p[i] == s[i] by {
                if i > 0 {
                    assert(p.drop_first()[i - 1] == s.drop_first().subrange(
                        0,
                        p.drop_first().len() as int,
                    )[i - 1]);
                }
            }
        }
    }
}

/// Prefixes of character sequences and prefixes of their encodings coincide.
pub proof fn lemma_prefix_iff_encoded_prefix(p: Seq<char>, s: Seq<char>)
    ensures
        p.is_prefix_of(s) <==> encode_utf8(p).is_prefix_of(encode_utf8(s)),
{
    if p.is_prefix_of(s) {
        let rest = s.subrange(p.len() as int, s.len() as int);
        assert(s =~= p + rest);
        lemma_encode_concat(p, rest);
        assert(encode_utf8(p) =~= encode_utf8(s).subrange(0, encode_utf8(p).len() as int));
    }
    if encode_utf8(p).is_prefix_of(encode_utf8(s)) {
        lemma_prefix_of_encoding(p, s);
    }
}

/// Whether `s` begins with `prefix`.
pub fn starts_with(s: &str, prefix: &str) -> (r: bool)
    ensures
        r == prefix@.is_prefix_of(s@),
{
    let sb = s.as_bytes();
    let pb = prefix.as_bytes();
    proof {
        lemma_prefix_iff_encoded_prefix(prefix@, s@);
    }
    if pb.len() > sb.len() {
        return false;
    }
    let mut i: usize = 0;
    while i < pb.len()
        invariant
            i <= pb.len() <= sb.len(),
            forall|j: int| 0 <= j < i ==> pb@[j] == sb@[j],
            prefix@.is_prefix_of(s@) <==> pb@.is_prefix_of(sb@),
        decreases pb.len() - i,
    {
        if pb[i] != sb[i] {
            assert(pb@[i as int] != sb@.subrange(0, pb@.len() as int)[i as int]);
            return false;
        }
        i += 1;
    }
    assert(pb@ =~= sb@.subrange(0, pb@.len() as int));
    true
}

/// Whether two strings hold the same characters.
pub fn str_eq(a: &str, b: &str) -> (r: bool)
    ensures
        r == (a@ == b@),
{
    let ab = a.as_bytes();
    let bb = b.as_bytes();
    if ab.len() != bb.len() {
        return false;
    }
    let mut i: usize = 0;
    while i < ab.len()
        invariant
            i <= ab.len() == bb.len(),
            forall|j: int| 0 <= j < i ==> ab@[j] == bb@[j],
            ab@ == encode_utf8(a@),
            bb@ == encode_utf8(b@),
        decreases ab.len() - i,
    {
        if ab[i] != bb[i] {
            return false;
        }
        i += 1;
    }
    proof {
        assert(ab@ =~= bb@);
        lemma_encode_injective(a@, b@);
    }
    true
}

} // verus!
