//! Timestamps: RFC 3339 text read as an instant, and the instant as a number
//! that orders as time does.
use vstd::prelude::*;

verus! {

/// The instant an RFC 3339 timestamp names, as whole seconds since the Unix
/// epoch and nanoseconds past that second; `None` when the text is no such
/// timestamp.
pub uninterp spec fn rfc3339_instant(s: Seq<char>) -> Option<(i64, u32)>;

/// Relies on `chrono::DateTime::parse_from_rfc3339`, with `timestamp` and
/// `timestamp_subsec_nanos` of the parsed value: the parse depends on the
/// text alone.
#[verifier::external_body]
pub(crate) fn parse_instant(s: &str) -> (r: Option<(i64, u32)>)
    ensures
        r == rfc3339_instant(s@),
{
    match chrono::DateTime::parse_from_rfc3339(s) {
        Ok(t) => Some((t.timestamp(), t.timestamp_subsec_nanos())),
        Err(_) => None,
    }
}

/// One more than the largest `instant_key`.
pub const INSTANT_KEYS: u128 = 0x1_0000_0000_0000_0000_0000_0000;

/// An instant as one number: later instants have larger numbers.
pub open spec fn instant_key_spec(t: (i64, u32)) -> int {
    (t.0 as int + 0x8000_0000_0000_0000) * 0x1_0000_0000 + t.1 as int
}

/// An instant as one number: later instants have larger numbers.
pub fn instant_key(t: (i64, u32)) -> (r: u128)
    ensures
        r == instant_key_spec(t),
        r < INSTANT_KEYS,
{
    let secs: u128 = (t.0 as i128 + 0x8000_0000_0000_0000i128) as u128;
    assert(secs < 0x1_0000_0000_0000_0000);
    assert(secs * 0x1_0000_0000 + t.1 < INSTANT_KEYS) by (nonlinear_arith)
        requires
            secs < 0x1_0000_0000_0000_0000,
            t.1 < 0x1_0000_0000,
    ;
    secs * 0x1_0000_0000 + t.1 as u128
}

/// The order of instant keys is the order of time: seconds first, then
/// nanoseconds.
pub proof fn lemma_instant_key_order(a: (i64, u32), b: (i64, u32))
    ensures
        instant_key_spec(a) < instant_key_spec(b) <==> (a.0 < b.0 || (a.0 == b.0 && a.1 < b.1)),
        instant_key_spec(a) == instant_key_spec(b) <==> a == b,
{
    let sa = a.0 as int + 0x8000_0000_0000_0000;
    let sb = b.0 as int + 0x8000_0000_0000_0000;
    if sa < sb {
        assert(sa * 0x1_0000_0000 + a.1 < sb * 0x1_0000_0000 + b.1) by (nonlinear_arith)
            requires
                sa < sb,
                a.1 < 0x1_0000_0000,
        ;
    } else if sa > sb {
        assert(sa * 0x1_0000_0000 + a.1 > sb * 0x1_0000_0000 + b.1) by (nonlinear_arith)
            requires
                sa > sb,
                b.1 < 0x1_0000_0000,
        ;
    }
}

} // verus!
