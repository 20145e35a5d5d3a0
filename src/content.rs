//! File contents: equality, the binary heuristic, and decoding as text.
use vstd::prelude::*;

verus! {

/// How many leading bytes the binary heuristic looks at.
pub const BINARY_PROBE_LEN: usize = 8192;

/// Contents look binary when a zero byte occurs among the first
/// `BINARY_PROBE_LEN` bytes.
pub open spec fn looks_binary(b: Seq<u8>) -> bool {
    exists|i: int| 0 <= i < b.len() && i < BINARY_PROBE_LEN && b[i] == 0
}

/// The text that lossy UTF-8 decoding makes of the bytes `b`: invalid
/// sequences become U+FFFD. It depends on the bytes alone.
pub uninterp spec fn lossy_text(b: Seq<u8>) -> Seq<char>;

/// Relies on `String::from_utf8_lossy`: decodes UTF-8, replacing each
/// invalid sequence by U+FFFD; the result depends on the bytes alone.
#[verifier::external_body]
fn decode_lossy(b: &[u8]) -> (r: String)
    ensures
        r@ == lossy_text(b@),
{
    String::from_utf8_lossy(b).into_owned()
}

/// Whether two contents are byte for byte the same.
pub fn same_contents(left: &[u8], right: &[u8]) -> (r: bool)
    ensures
        r == (left@ == right@),
{
    if left.len() != right.len() {
        return false;
    }
    let mut i: usize = 0;
    while i < left.len()
        invariant
            i <= left@.len() == right@.len(),
            forall|j: int| 0 <= j < i ==> left@[j] == right@[j],
        decreases left.len() - i,
    {
        if left[i] != right[i] {
            return false;
        }
        i += 1;
    }
    proof {
        assert(left@ =~= right@);
    }
    true
}

/// Whether contents look binary: a zero byte among the first
/// `BINARY_PROBE_LEN` bytes.
pub fn is_binary_content(content: &[u8]) -> (r: bool)
    ensures
        r == looks_binary(content@),
{
    let n = if content.len() < BINARY_PROBE_LEN {
        content.len()
    } else {
        BINARY_PROBE_LEN
    };
    let mut i: usize = 0;
    while i < n
        invariant
            i <= n <= content@.len(),
            n <= BINARY_PROBE_LEN,
            n == content@.len() || n == BINARY_PROBE_LEN,
            forall|j: int| 0 <= j < i ==> content@[j] != 0,
        decreases n - i,
    {
        if content[i] == 0 {
            return true;
        }
        i += 1;
    }
    false
}

/// Contents as text: `None` where they look binary, else the lossy UTF-8
/// decoding of all of them.
pub fn text_of_contents(content: &[u8]) -> (r: Option<String>)
    ensures
        match r {
            None => looks_binary(content@),
            Some(s) => !looks_binary(content@) && s@ == lossy_text(content@),
        },
{
    if is_binary_content(content) {
        return None;
    }
    Some(decode_lossy(content))
}

} // verus!
