//! Text on the wire: UTF-8 bytes, decoded leniently.
use vstd::prelude::*;
use vstd::utf8::*;
use vstd::slice::slice_subrange;

verus! {

broadcast use vstd::utf8::encode_utf8_decode_utf8;

/// What `String::from_utf8_lossy` makes of bytes that are not UTF-8.
pub uninterp spec fn lossy_text(b: Seq<u8>) -> Seq<char>;

/// The text that the bytes `b` decode to: exactly their characters when they
/// are UTF-8, else the lossy reading that replaces each invalid sequence.
pub open spec fn text_of(b: Seq<u8>) -> Seq<char> {
    if valid_utf8(b) {
        decode_utf8(b)
    } else {
        lossy_text(b)
    }
}

/// Relies on String::from_utf8_lossy: valid UTF-8 comes back unchanged, and
/// otherwise the result depends on the bytes alone.
#[verifier::external_body]
fn from_utf8_lossy(b: &[u8]) -> (r: String)
    ensures
        r@ == (if valid_utf8(b@) { decode_utf8(b@) } else { lossy_text(b@) }),
{
    String::from_utf8_lossy(b).into_owned()
}

/// Decodes `b[start..end]` leniently.
pub fn decode_text(b: &Vec<u8>, start: usize, end: usize) -> (r: String)
    requires
        start <= end <= b.len(),
    ensures
        r@ == text_of(b@.subrange(start as int, end as int)),
{
    let s = b.as_slice();
    let part = slice_subrange(s, start, end);
    from_utf8_lossy(part)
}

/// The UTF-8 bytes of `s`.
pub fn utf8_bytes(s: &str) -> (r: &[u8])
    ensures
        r@ == encode_utf8(s@),
{
    s.as_bytes()
}

/// Whether `a` and `b` hold the same text.
pub fn same_text(a: &str, b: &str) -> (r: bool)
    ensures
        r == (a@ == b@),
{
    let x = a.as_bytes();
    let y = b.as_bytes();
    proof {
        encode_utf8_decode_utf8(a@);
        encode_utf8_decode_utf8(b@);
    }
    if x.len() != y.len() {
        assert(x@ != y@);
        return false;
    }
    let mut i: usize = 0;
    while i < x.len()
        invariant
            x.len() == y.len(),
            i <= x.len(),
            x@ == encode_utf8(a@),
            y@ == encode_utf8(b@),
            forall|k: int| 0 <= k < i ==> x@[k] == y@[k],
        decreases x.len() - i,
    {
        if x[i] != y[i] {
            assert(x@[i as int] != y@[i as int]);
            return false;
        }
        i = i + 1;
    }
    assert(x@ =~= y@);
    true
}

} // verus!
