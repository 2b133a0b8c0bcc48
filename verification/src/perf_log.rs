//! Text pieces of the performance log: column truncation and the session
//! stamp. The log file itself is written at the program's edge.

use vstd::prelude::*;
use vstd::string::{StringExecFns, StringSliceAdditionalSpecFns};
use vstd::utf8::{encode_utf8, is_char_boundary};
use crate::text::{decimal, push_decimal, push_str};

verus! {

/// Cut `s` to fit a `max`-byte column: kept whole when it fits, else its
/// first `max - 1` bytes followed by `…`.
pub fn truncate(s: &str, max: usize) -> (r: String)
    requires
        s.spec_bytes().len() <= usize::MAX,
        s.spec_bytes().len() > max ==> is_char_boundary(s.spec_bytes(), if max >= 1 { max - 1 } else { 0 }),
    ensures
        s.spec_bytes().len() <= max ==> r@ == s@,
        s.spec_bytes().len() > max ==> r@.len() >= 1 && r@.last() == '…' && encode_utf8(r@.drop_last())
            == s.spec_bytes().subrange(0, if max >= 1 { max - 1 } else { 0 }),
{
    if s.len() <= max {
        String::from_str(s)
    } else {
        let k = max.saturating_sub(1);
        let (head, _) = s.split_at(k);
        let mut r = String::from_str(head);
        let ghost h = r@;
        push_str(&mut r, "…");
        proof {
            reveal_strlit("…");
            assert("…"@ =~= seq!['…']);
            assert(r@ =~= h.push('…'));
            assert(r@.drop_last() =~= h);
            assert(head.spec_bytes() == encode_utf8(head@));
            assert(encode_utf8(h) =~= s.spec_bytes().subrange(0, k as int));
        }
        r
    }
}

/// Session stamp: `unix=<seconds>`.
pub open spec fn stamp_text(secs: u64) -> Seq<char> {
    "unix="@ + decimal(secs as nat)
}

/// The session stamp for a clock reading of `secs` seconds since the epoch.
pub fn utc_stamp(secs: u64) -> (r: String)
    ensures
        r@ == stamp_text(secs),
{
    let mut s = String::from_str("unix=");
    push_decimal(&mut s, secs);
    s
}

} // verus!
