//! Conversions between bytes and text.
use vstd::prelude::*;

verus! {

/// The characters that `String::from_utf8_lossy` decodes from `b`.
pub uninterp spec fn utf8_lossy(b: Seq<u8>) -> Seq<char>;

/// Every byte is an ASCII code.
pub open spec fn is_ascii_bytes(b: Seq<u8>) -> bool {
    forall|i: int| 0 <= i < b.len() ==> #[trigger] b[i] < 128
}

/// The characters whose codes are the bytes of `b`.
pub open spec fn ascii_chars(b: Seq<u8>) -> Seq<char> {
    b.map_values(|x: u8| x as char)
}

/// Relies on `String::from_utf8_lossy`: the text it decodes depends on the
/// bytes alone, and bytes that are all ASCII decode to the chars of the same
/// codes.
#[verifier::external_body]
pub(crate) fn text_from_bytes(b: &[u8]) -> (r: String)
    ensures
        r@ == utf8_lossy(b@),
        is_ascii_bytes(b@) ==> r@ == ascii_chars(b@),
{
    String::from_utf8_lossy(b).into_owned()
}

/// A copy of the bytes of `s` in `start..end`.
pub(crate) fn copy_range(s: &[u8], start: usize, end: usize) -> (r: Vec<u8>)
    requires
        start <= end <= s@.len(),
    ensures
        r@ == s@.subrange(start as int, end as int),
{
    let mut r: Vec<u8> = Vec::new();
    let mut i: usize = start;
    while i < end
        invariant
            start <= i <= end <= s@.len(),
            r@ == s@.subrange(start as int, i as int),
        decreases end - i,
    {
        r.push(s[i]);
        i = i + 1;
        assert(r@ =~= s@.subrange(start as int, i as int));
    }
    r
}

/// Whether the bytes of `s` in `start..end` are exactly `word`.
pub(crate) fn range_equals(s: &[u8], start: usize, end: usize, word: &[u8]) -> (r: bool)
    requires
        start <= end <= s@.len(),
    ensures
        r == (s@.subrange(start as int, end as int) == word@),
{
    if end - start != word.len() {
        return false;
    }
    let mut i: usize = 0;
    while i < word.len()
        invariant
            start <= end <= s@.len(),
            end - start == word@.len(),
            i <= word@.len(),
            forall|k: int| 0 <= k < i ==> s@[start + k] == word@[k],
        decreases word.len() - i,
    {
        if s[start + i] != word[i] {
            assert(s@.subrange(start as int, end as int)[i as int] != word@[i as int]);
            return false;
        }
        i = i + 1;
    }
    assert(s@.subrange(start as int, end as int) =~= word@);
    true
}

} // verus!
