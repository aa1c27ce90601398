//! Instants in UTC, held as whole seconds since the Unix epoch and the
//! nanoseconds within that second, with the arithmetic the history needs.

use vstd::prelude::*;

verus! {

/// Nanoseconds in one second.
pub const NANOS_PER_SEC: u32 = 1_000_000_000;

/// The earliest representable instant, -262143-01-01T00:00:00Z, in seconds.
pub const MIN_SECS: i64 = -8_334_601_228_800;

/// The latest representable second, +262142-12-31T23:59:59Z.
pub const MAX_SECS: i64 = 8_210_266_876_799;

/// An instant in UTC.
#[derive(Clone, Copy, Debug, PartialEq, Eq)]
pub struct Timestamp {
    /// Whole seconds since 1970-01-01T00:00:00Z (negative before it).
    pub secs: i64,
    /// Nanoseconds within the second.
    pub nanos: u32,
}

impl Timestamp {
    /// The instant lies in the representable range and its nanoseconds form
    /// part of one second.
    pub open spec fn wf(self) -> bool {
        &&& MIN_SECS <= self.secs <= MAX_SECS
        &&& self.nanos < NANOS_PER_SEC
    }

    /// The instant as nanoseconds since the epoch.
    pub open spec fn total_nanos(self) -> int {
        self.secs * 1_000_000_000 + self.nanos
    }

    /// Builds an instant; `None` where it is out of range.
    pub fn new(secs: i64, nanos: u32) -> (r: Option<Timestamp>)
        ensures
            r matches Some(t) ==> t.wf() && t.secs == secs && t.nanos == nanos,
            r is None <==> !(Timestamp { secs, nanos }).wf(),
    {
        if MIN_SECS <= secs && secs <= MAX_SECS && nanos < NANOS_PER_SEC {
            Some(Timestamp { secs, nanos })
        } else {
            None
        }
    }
}

/// Whole seconds in a span of nanoseconds, truncated toward zero.
pub open spec fn whole_seconds(span_nanos: int) -> int {
    if span_nanos >= 0 {
        span_nanos / 1_000_000_000
    } else {
        -((-span_nanos) / 1_000_000_000)
    }
}

/// Whole seconds from `earlier` to `later` (negative when `later` is before
/// `earlier`), truncated toward zero.
pub open spec fn spec_seconds_between(later: Timestamp, earlier: Timestamp) -> int {
    whole_seconds(later.total_nanos() - earlier.total_nanos())
}

/// `a` is the same instant as `b` or later.
pub open spec fn spec_at_or_after(a: Timestamp, b: Timestamp) -> bool {
    a.total_nanos() >= b.total_nanos()
}

proof fn lemma_whole_seconds(ds: int, dn: int)
    requires
        -1_000_000_000 < dn < 1_000_000_000,
    ensures
        whole_seconds(ds * 1_000_000_000 + dn) == (if dn < 0 {
            if ds - 1 < 0 { ds } else { ds - 1 }
        } else if dn > 0 {
            if ds < 0 { ds + 1 } else { ds }
        } else {
            ds
        }),
{
    let t = ds * 1_000_000_000 + dn;
    if dn < 0 {
        if ds >= 1 {
            assert(t >= 0);
            assert((ds - 1) * 1_000_000_000 <= t < ds * 1_000_000_000) by (nonlinear_arith)
                requires t == ds * 1_000_000_000 + dn, -1_000_000_000 < dn < 0;
            assert(t / 1_000_000_000 == ds - 1) by (nonlinear_arith)
                requires (ds - 1) * 1_000_000_000 <= t < ds * 1_000_000_000, t >= 0;
        } else {
            assert(t < 0) by (nonlinear_arith) requires t == ds * 1_000_000_000 + dn, ds <= 0, dn < 0;
            let u = -t;
            assert(u == (-ds) * 1_000_000_000 - dn) by (nonlinear_arith) requires u == -t, t == ds * 1_000_000_000 + dn;
            assert((-ds) * 1_000_000_000 <= u < (-ds + 1) * 1_000_000_000) by (nonlinear_arith)
                requires u == (-ds) * 1_000_000_000 - dn, -1_000_000_000 < dn < 0;
            assert(u / 1_000_000_000 == -ds) by (nonlinear_arith)
                requires (-ds) * 1_000_000_000 <= u < (-ds + 1) * 1_000_000_000, ds <= 0;
        }
    } else if dn > 0 {
        if ds >= 0 {
            assert(ds * 1_000_000_000 <= t < (ds + 1) * 1_000_000_000) by (nonlinear_arith)
                requires t == ds * 1_000_000_000 + dn, 0 < dn < 1_000_000_000;
            assert(t >= 0) by (nonlinear_arith) requires t == ds * 1_000_000_000 + dn, ds >= 0, dn > 0;
            assert(t / 1_000_000_000 == ds) by (nonlinear_arith)
                requires ds * 1_000_000_000 <= t < (ds + 1) * 1_000_000_000, ds >= 0;
        } else {
            assert(t < 0) by (nonlinear_arith) requires t == ds * 1_000_000_000 + dn, ds <= -1, dn < 1_000_000_000;
            let u = -t;
            assert((-ds - 1) * 1_000_000_000 <= u < (-ds) * 1_000_000_000) by (nonlinear_arith)
                requires u == -t, t == ds * 1_000_000_000 + dn, 0 < dn < 1_000_000_000;
            assert(u / 1_000_000_000 == -ds - 1) by (nonlinear_arith)
                requires (-ds - 1) * 1_000_000_000 <= u < (-ds) * 1_000_000_000, ds <= -1;
        }
    } else {
        if ds >= 0 {
            assert(t / 1_000_000_000 == ds) by (nonlinear_arith) requires t == ds * 1_000_000_000, ds >= 0;
        } else {
            assert((-t) / 1_000_000_000 == -ds) by (nonlinear_arith) requires t == ds * 1_000_000_000, ds < 0;
            assert(t < 0) by (nonlinear_arith) requires t == ds * 1_000_000_000, ds < 0;
        }
    }
}

/// Whole seconds elapsed from `earlier` to `later`, truncated toward zero
/// (the `num_seconds` of the signed duration between them).
pub fn seconds_between(later: Timestamp, earlier: Timestamp) -> (r: i64)
    requires
        later.wf(),
        earlier.wf(),
    ensures
        r == spec_seconds_between(later, earlier),
{
    let ds: i64 = later.secs - earlier.secs;
    let dn: i64 = later.nanos as i64 - earlier.nanos as i64;
    proof {
        lemma_whole_seconds(ds as int, dn as int);
        assert(later.total_nanos() - earlier.total_nanos() == ds * 1_000_000_000 + dn) by (nonlinear_arith)
            requires ds == later.secs - earlier.secs, dn == later.nanos - earlier.nanos;
    }
    if dn < 0 {
        if ds - 1 < 0 { ds } else { ds - 1 }
    } else if dn > 0 {
        if ds < 0 { ds + 1 } else { ds }
    } else {
        ds
    }
}

/// Whether `a` is the same instant as `b` or later.
pub fn at_or_after(a: Timestamp, b: Timestamp) -> (r: bool)
    requires
        a.wf(),
        b.wf(),
    ensures
        r == spec_at_or_after(a, b),
{
    proof {
        if a.secs > b.secs {
            assert(a.total_nanos() >= b.total_nanos()) by (nonlinear_arith)
                requires a.secs >= b.secs + 1, a.nanos >= 0, b.nanos < 1_000_000_000,
                a.total_nanos() == a.secs * 1_000_000_000 + a.nanos,
                b.total_nanos() == b.secs * 1_000_000_000 + b.nanos;
        } else if a.secs < b.secs {
            assert(a.total_nanos() < b.total_nanos()) by (nonlinear_arith)
                requires b.secs >= a.secs + 1, b.nanos >= 0, a.nanos < 1_000_000_000,
                a.total_nanos() == a.secs * 1_000_000_000 + a.nanos,
                b.total_nanos() == b.secs * 1_000_000_000 + b.nanos;
        }
    }
    a.secs > b.secs || (a.secs == b.secs && a.nanos >= b.nanos)
}

/// The instant `secs` seconds before `t`.
pub fn seconds_before(t: Timestamp, secs: i64) -> (r: Timestamp)
    requires
        t.wf(),
        MIN_SECS <= t.secs - secs <= MAX_SECS,
    ensures
        r.wf(),
        r.secs == t.secs - secs,
        r.nanos == t.nanos,
        r.total_nanos() == t.total_nanos() - secs * 1_000_000_000,
{
    let r = Timestamp { secs: t.secs - secs, nanos: t.nanos };
    assert(r.total_nanos() == t.total_nanos() - secs * 1_000_000_000) by (nonlinear_arith)
        requires r.secs == t.secs - secs, r.nanos == t.nanos,
        r.total_nanos() == r.secs * 1_000_000_000 + r.nanos,
        t.total_nanos() == t.secs * 1_000_000_000 + t.nanos;
    r
}

} // verus!
