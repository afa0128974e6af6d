//! The dispatcher's source classification. Inbound records are routed to
//! the client or the service payload namespace; a source that looks like
//! a client or node name — one lowercase letter followed by digits only —
//! is tried as a client message first. The pattern is a fast path: the
//! authoritative classification is whichever payload parses.

use vstd::prelude::*;
use vstd::string::StrSliceExecFns;

verus! {

/// One lowercase letter followed by digits only (possibly none).
pub open spec fn is_client_id(s: Seq<char>) -> bool {
    &&& s.len() >= 1
    &&& 'a' <= s[0] <= 'z'
    &&& forall|i: int| 1 <= i < s.len() ==> '0' <= #[trigger] s[i] <= '9'
}

/// Whether an inbound record's source matches the client pattern.
pub fn is_client_src(s: &str) -> (r: bool)
    ensures
        r == is_client_id(s@),
{
    let n = s.unicode_len();
    if n == 0 {
        return false;
    }
    let c0 = s.get_char(0);
    if !('a' <= c0 && c0 <= 'z') {
        return false;
    }
    let mut i: usize = 1;
    while i < n
        invariant
            1 <= i <= n,
            n == s@.len(),
            'a' <= s@[0] <= 'z',
            forall|k: int| 1 <= k < i ==> '0' <= #[trigger] s@[k] <= '9',
        decreases n - i,
    {
        let c = s.get_char(i);
        if !('0' <= c && c <= '9') {
            return false;
        }
        i = i + 1;
    }
    true
}

} // verus!
