//! Text helpers: tolerant UTF-8 decoding, lexicographic comparison of
//! strings, and trimming of repeated leading occurrences of a pattern.

use vstd::prelude::*;
use vstd::string::StrSliceExecFns;

verus! {

/// Characters of a byte sequence decoded as UTF-8, or the empty sequence
/// where the bytes are not valid UTF-8. Malformed input degrades to a
/// default instead of failing the whole scan.
pub open spec fn decoded_or_empty(bytes: Seq<u8>) -> Seq<char> {
    if vstd::utf8::valid_utf8(bytes) {
        vstd::utf8::decode_utf8(bytes)
    } else {
        Seq::<char>::empty()
    }
}

/// Relies on `String::from_utf8` (std): it returns `Ok` exactly when the
/// bytes are valid UTF-8, and the string then holds their decoded characters.
#[verifier::external_body]
fn bytes_to_string(bytes: Vec<u8>) -> (r: Option<String>)
    ensures
        r is Some <==> vstd::utf8::valid_utf8(bytes@),
        r matches Some(s) ==> s@ == vstd::utf8::decode_utf8(bytes@),
{
    match String::from_utf8(bytes) {
        Ok(s) => Some(s),
        Err(_) => None,
    }
}

/// Decode bytes as UTF-8, substituting the empty string on failure.
pub fn lossy_decode(bytes: Vec<u8>) -> (s: String)
    ensures
        s@ == decoded_or_empty(bytes@),
{
    match bytes_to_string(bytes) {
        Some(s) => s,
        None => String::new(),
    }
}

/// Strict lexicographic order on character sequences, comparing scalar
/// values position by position; a proper prefix sorts before its extension.
pub open spec fn lex_lt(a: Seq<char>, b: Seq<char>) -> bool
    decreases a.len(),
{
    if b.len() == 0 {
        false
    } else if a.len() == 0 {
        true
    } else if a[0] == b[0] {
        lex_lt(a.drop_first(), b.drop_first())
    } else {
        (a[0] as u32) < (b[0] as u32)
    }
}

/// `lex_lt` never holds in both directions.
pub proof fn lemma_lex_lt_asymmetric(a: Seq<char>, b: Seq<char>)
    ensures
        lex_lt(a, b) ==> !lex_lt(b, a),
    decreases a.len(),
{
    if b.len() > 0 && a.len() > 0 && a[0] == b[0] {
        lemma_lex_lt_asymmetric(a.drop_first(), b.drop_first());
    }
}

/// Distinct sequences are ordered one way or the other: `lex_lt` is total
/// on distinct values.
pub proof fn lemma_lex_lt_connected(a: Seq<char>, b: Seq<char>)
    ensures
        a != b && !lex_lt(a, b) ==> lex_lt(b, a),
    decreases a.len(),
{
    if b.len() == 0 {
        if a.len() == 0 {
            assert(a =~= b);
        }
    } else if a.len() == 0 {
    } else if a[0] == b[0] {
        lemma_lex_lt_connected(a.drop_first(), b.drop_first());
        if a.drop_first() == b.drop_first() {
            assert(a.drop_first().len() == a.len() - 1);
            assert(b.drop_first().len() == b.len() - 1);
            assert forall|i: int| 0 <= i < a.len() implies a[i] == b[i] by {
                if i > 0 {
                    assert(a[i] == a.drop_first()[i - 1]);
                    assert(b[i] == b.drop_first()[i - 1]);
                }
            }
            assert(a =~= b);
        }
    } else {
        if !lex_lt(a, b) {
            vstd::utf8::char_u32_cast(a[0], a[0] as u32);
            vstd::utf8::char_u32_cast(b[0], b[0] as u32);
            assert(lex_lt(b, a));
        }
    }
}

/// `lex_lt` is transitive.
pub proof fn lemma_lex_lt_transitive(a: Seq<char>, b: Seq<char>, c: Seq<char>)
    ensures
        lex_lt(a, b) && lex_lt(b, c) ==> lex_lt(a, c),
    decreases a.len(),
{
    if lex_lt(a, b) && lex_lt(b, c) {
        if a.len() > 0 {
            vstd::utf8::char_u32_cast(a[0], a[0] as u32);
            vstd::utf8::char_u32_cast(b[0], b[0] as u32);
            vstd::utf8::char_u32_cast(c[0], c[0] as u32);
            if a[0] == b[0] && b[0] == c[0] {
                lemma_lex_lt_transitive(a.drop_first(), b.drop_first(), c.drop_first());
            }
        }
    }
}

proof fn lemma_lex_lt_skip_step(a: Seq<char>, b: Seq<char>, i: int)
    requires
        0 <= i < a.len(),
        i < b.len(),
        a[i] == b[i],
    ensures
        lex_lt(a.skip(i), b.skip(i)) == lex_lt(a.skip(i + 1), b.skip(i + 1)),
{
    assert(a.skip(i)[0] == a[i]);
    assert(b.skip(i)[0] == b[i]);
    assert(a.skip(i).drop_first() =~= a.skip(i + 1));
    assert(b.skip(i).drop_first() =~= b.skip(i + 1));
}

/// Compare two strings in the strict lexicographic order `lex_lt`.
pub fn str_lex_lt(a: &str, b: &str) -> (r: bool)
    ensures
        r == lex_lt(a@, b@),
{
    let alen = a.unicode_len();
    let blen = b.unicode_len();
    proof {
        assert(a@.skip(0) =~= a@);
        assert(b@.skip(0) =~= b@);
    }
    let mut i: usize = 0;
    let mut result: bool = false;
    let mut done: bool = false;
    while !done
        invariant
            i <= alen,
            i <= blen,
            alen == a@.len(),
            blen == b@.len(),
            !done ==> lex_lt(a@, b@) == lex_lt(a@.skip(i as int), b@.skip(i as int)),
            done ==> result == lex_lt(a@, b@),
        decreases alen - i + (if done { 0int } else { 1int }),
    {
        if i == blen {
            proof {
                assert(b@.skip(i as int).len() == 0);
            }
            result = false;
            done = true;
        } else if i == alen {
            proof {
                assert(a@.skip(i as int).len() == 0);
                assert(b@.skip(i as int).len() > 0);
            }
            result = true;
            done = true;
        } else {
            let ca = a.get_char(i);
            let cb = b.get_char(i);
            if ca != cb {
                proof {
                    assert(a@.skip(i as int)[0] == a@[i as int]);
                    assert(b@.skip(i as int)[0] == b@[i as int]);
                }
                result = (ca as u32) < (cb as u32);
                done = true;
            } else {
                proof {
                    lemma_lex_lt_skip_step(a@, b@, i as int);
                }
                i = i + 1;
            }
        }
    }
    result
}

/// The characters left after removing every leading occurrence of the
/// pattern `p` from `s`; `s` itself when `p` is empty or does not begin `s`.
pub open spec fn trimmed_of(s: Seq<char>, p: Seq<char>) -> Seq<char>
    decreases s.len(),
{
    if p.len() > 0 && p.len() <= s.len() && s.take(p.len() as int) == p {
        trimmed_of(s.skip(p.len() as int), p)
    } else {
        s
    }
}

/// Remove every leading occurrence of `p` from `s`, returning the rest.
pub fn trim_matching_start(s: &str, p: &str) -> (r: String)
    ensures
        r@ == trimmed_of(s@, p@),
{
    let slen = s.unicode_len();
    let plen = p.unicode_len();
    proof {
        assert(s@.skip(0) =~= s@);
    }
    let mut off: usize = 0;
    let mut done: bool = false;
    while !done
        invariant
            off <= slen,
            slen == s@.len(),
            plen == p@.len(),
            trimmed_of(s@, p@) == trimmed_of(s@.skip(off as int), p@),
            done ==> trimmed_of(s@.skip(off as int), p@) == s@.skip(off as int),
        decreases slen - off + (if done { 0int } else { 1int }),
    {
        if plen == 0 || slen - off < plen {
            proof {
                assert(trimmed_of(s@.skip(off as int), p@) == s@.skip(off as int));
            }
            done = true;
        } else {
            let mut k: usize = 0;
            let mut is_prefix: bool = true;
            while k < plen && is_prefix
                invariant
                    k <= plen,
                    off + plen <= slen,
                    slen == s@.len(),
                    plen == p@.len(),
                    is_prefix ==> forall|j: int| 0 <= j < k ==> s@[off as int + j] == p@[j],
                    !is_prefix ==> exists|j: int|
                        0 <= j < p@.len() && s@[off as int + j] != p@[j],
                decreases plen - k + (if is_prefix { 1int } else { 0int }),
            {
                if s.get_char(off + k) != p.get_char(k) {
                    is_prefix = false;
                } else {
                    k = k + 1;
                }
            }
            if is_prefix {
                proof {
                    let rest = s@.skip(off as int);
                    assert(rest.take(plen as int) =~= p@);
                    assert(trimmed_of(rest, p@) == trimmed_of(rest.skip(plen as int), p@));
                    assert(rest.skip(plen as int) =~= s@.skip(off as int + plen as int));
                }
                off = off + plen;
            } else {
                proof {
                    let rest = s@.skip(off as int);
                    let j = choose|j: int| 0 <= j < p@.len() && s@[off as int + j] != p@[j];
                    assert(rest.take(plen as int)[j] == s@[off as int + j]);
                    assert(rest.take(plen as int) != p@);
                    assert(trimmed_of(rest, p@) == rest);
                }
                done = true;
            }
        }
    }
    let tail = s.substring_char(off, slen);
    proof {
        assert(tail@ =~= s@.skip(off as int));
    }
    tail.to_owned()
}

} // verus!
