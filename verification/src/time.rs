//! Spans and points of time as plain integers.
//!
//! A [`Duration`] is a whole number of seconds plus a sub-second count of
//! nanoseconds; an [`Instant`] is a point in time counted the same way from the
//! UNIX epoch. Both are viewed as their total number of nanoseconds, so their
//! arithmetic and ordering can be stated and proved over `nat`.

use vstd::prelude::*;

verus! {

/// Nanoseconds in one second.
pub const NANOS_PER_SEC: u32 = 1_000_000_000;

/// Nanoseconds in one millisecond.
pub const NANOS_PER_MILLI: u32 = 1_000_000;

/// The largest number of nanoseconds a [`Duration`] or [`Instant`] can hold.
pub open spec fn max_nanos() -> nat {
    ((u64::MAX as nat) * (NANOS_PER_SEC as nat) + (NANOS_PER_SEC as nat - 1)) as nat
}

/// Total nanoseconds of a `(secs, nanos)` pair.
pub open spec fn total_nanos(secs: u64, nanos: u32) -> nat {
    (secs as nat) * (NANOS_PER_SEC as nat) + (nanos as nat)
}

/// A span of time.
#[derive(Clone, Copy, Debug, PartialEq, Eq, Hash)]
pub struct Duration {
    secs: u64,
    nanos: u32,
}

/// A point in time, counted from the UNIX epoch.
#[derive(Clone, Copy, Debug, PartialEq, Eq, Hash)]
pub struct Instant {
    secs: u64,
    nanos: u32,
}

impl View for Duration {
    type V = nat;

    closed spec fn view(&self) -> nat {
        total_nanos(self.secs, self.nanos)
    }
}

impl View for Instant {
    type V = nat;

    closed spec fn view(&self) -> nat {
        total_nanos(self.secs, self.nanos)
    }
}

/// Every `(secs, nanos)` pair with `nanos` below one second is within range,
/// and the pair is determined by its total.
proof fn lemma_split_nanos(secs: u64, nanos: u32)
    requires
        nanos < NANOS_PER_SEC,
    ensures
        total_nanos(secs, nanos) <= max_nanos(),
        total_nanos(secs, nanos) / (NANOS_PER_SEC as nat) == secs as nat,
        total_nanos(secs, nanos) % (NANOS_PER_SEC as nat) == nanos as nat,
{
    assert((secs as nat) * (NANOS_PER_SEC as nat) <= (u64::MAX as nat) * (NANOS_PER_SEC as nat))
        by (nonlinear_arith)
        requires
            secs <= u64::MAX,
    ;
    vstd::arithmetic::div_mod::lemma_fundamental_div_mod_converse(
        total_nanos(secs, nanos) as int,
        NANOS_PER_SEC as int,
        secs as int,
        nanos as int,
    );
}

/// Two pairs with sub-second nanoseconds compare as their totals do.
proof fn lemma_compare_pairs(s1: u64, n1: u32, s2: u64, n2: u32)
    requires
        n1 < NANOS_PER_SEC,
        n2 < NANOS_PER_SEC,
    ensures
        total_nanos(s1, n1) < total_nanos(s2, n2) <==> (s1 < s2 || (s1 == s2 && n1 < n2)),
        total_nanos(s1, n1) == total_nanos(s2, n2) <==> (s1 == s2 && n1 == n2),
{
    if s1 < s2 {
        assert((s1 as nat) * (NANOS_PER_SEC as nat) + (NANOS_PER_SEC as nat) <= (s2 as nat) * (
        NANOS_PER_SEC as nat)) by (nonlinear_arith)
            requires
                s1 < s2,
        ;
    } else if s2 < s1 {
        assert((s2 as nat) * (NANOS_PER_SEC as nat) + (NANOS_PER_SEC as nat) <= (s1 as nat) * (
        NANOS_PER_SEC as nat)) by (nonlinear_arith)
            requires
                s2 < s1,
        ;
    }
}

impl Duration {
    #[verifier::type_invariant]
    spec fn wf(self) -> bool {
        self.nanos < NANOS_PER_SEC
    }

    /// A span of `secs` seconds plus `nanos` nanoseconds; nanoseconds beyond
    /// one second carry into the seconds.
    pub fn new(secs: u64, nanos: u32) -> (d: Duration)
        requires
            secs as nat + (nanos / NANOS_PER_SEC) as nat <= u64::MAX,
        ensures
            d@ == total_nanos(secs, nanos),
    {
        let carry = nanos / NANOS_PER_SEC;
        let rest = nanos % NANOS_PER_SEC;
        let d = Duration { secs: secs + carry as u64, nanos: rest };
        proof {
            vstd::arithmetic::div_mod::lemma_fundamental_div_mod(
                nanos as int,
                NANOS_PER_SEC as int,
            );
            assert((secs as nat + carry as nat) * (NANOS_PER_SEC as nat) + rest as nat == (
            secs as nat) * (NANOS_PER_SEC as nat) + nanos as nat) by (nonlinear_arith)
                requires
                    nanos == carry * NANOS_PER_SEC + rest,
            ;
        }
        d
    }

    /// A span of whole seconds.
    pub fn from_secs(secs: u64) -> (d: Duration)
        ensures
            d@ == (secs as nat) * (NANOS_PER_SEC as nat),
    {
        Duration { secs, nanos: 0 }
    }

    /// A span of whole milliseconds.
    pub fn from_millis(millis: u64) -> (d: Duration)
        ensures
            d@ == (millis as nat) * (NANOS_PER_MILLI as nat),
    {
        let secs = millis / 1000;
        let rest = millis % 1000;
        let d = Duration { secs, nanos: (rest as u32) * NANOS_PER_MILLI };
        proof {
            assert(millis == secs * 1000 + rest);
            assert(total_nanos(secs, ((rest as u32) * NANOS_PER_MILLI) as u32) == (millis as nat) * (
            NANOS_PER_MILLI as nat)) by (nonlinear_arith)
                requires
                    millis == secs * 1000 + rest,
                    rest < 1000,
                    NANOS_PER_MILLI == 1_000_000,
                    NANOS_PER_SEC == 1_000_000_000,
            ;
        }
        d
    }

    /// The whole seconds of the span.
    pub fn as_secs(&self) -> (s: u64)
        ensures
            s as nat == self@ / (NANOS_PER_SEC as nat),
    {
        proof {
            use_type_invariant(self);
            lemma_split_nanos(self.secs, self.nanos);
        }
        self.secs
    }

    /// The nanoseconds beyond the whole seconds.
    pub fn subsec_nanos(&self) -> (n: u32)
        ensures
            n as nat == self@ % (NANOS_PER_SEC as nat),
            n < NANOS_PER_SEC,
    {
        proof {
            use_type_invariant(self);
            lemma_split_nanos(self.secs, self.nanos);
        }
        self.nanos
    }

    /// Whether this span is shorter than `other`.
    pub fn is_shorter_than(&self, other: &Duration) -> (r: bool)
        ensures
            r == (self@ < other@),
    {
        proof {
            use_type_invariant(self);
            use_type_invariant(other);
            lemma_compare_pairs(self.secs, self.nanos, other.secs, other.nanos);
        }
        self.secs < other.secs || (self.secs == other.secs && self.nanos < other.nanos)
    }

    /// The longer of two spans.
    pub fn max(self, other: Duration) -> (d: Duration)
        ensures
            d@ == (if self@ < other@ {
                other@
            } else {
                self@
            }),
    {
        if self.is_shorter_than(&other) {
            other
        } else {
            self
        }
    }
}

impl Instant {
    #[verifier::type_invariant]
    spec fn wf(self) -> bool {
        self.nanos < NANOS_PER_SEC
    }

    /// The instant `secs` seconds and `nanos` nanoseconds after the UNIX epoch.
    pub fn from_unix(secs: u64, nanos: u32) -> (t: Instant)
        requires
            nanos < NANOS_PER_SEC,
        ensures
            t@ == total_nanos(secs, nanos),
    {
        Instant { secs, nanos }
    }

    /// The current wall-clock time. Before the epoch (a clock set wrong) it
    /// reads as the epoch itself.
    pub fn now() -> (t: Instant) {
        let now = system_now();
        match since_unix_epoch(&now) {
            Some(d) => Instant { secs: std_duration_secs(&d), nanos: std_duration_subsec_nanos(&d) },
            None => Instant { secs: 0, nanos: 0 },
        }
    }

    /// `self + d`, or `None` where that is beyond the representable range.
    pub fn checked_add(&self, d: Duration) -> (r: Option<Instant>)
        ensures
            r is Some <==> self@ + d@ <= max_nanos(),
            r matches Some(t) ==> t@ == self@ + d@,
    {
        proof {
            use_type_invariant(self);
            use_type_invariant(&d);
            lemma_split_nanos(self.secs, self.nanos);
            lemma_split_nanos(d.secs, d.nanos);
        }
        let nanos = self.nanos + d.nanos;
        let (carry, nanos) = if nanos >= NANOS_PER_SEC {
            (1u64, nanos - NANOS_PER_SEC)
        } else {
            (0u64, nanos)
        };
        match self.secs.checked_add(d.secs) {
            None => {
                proof {
                    assert((self.secs as nat + d.secs as nat) * (NANOS_PER_SEC as nat) > max_nanos())
                        by (nonlinear_arith)
                        requires
                            self.secs as nat + d.secs as nat > u64::MAX,
                            NANOS_PER_SEC == 1_000_000_000,
                    ;
                    assert(self@ + d@ == (self.secs as nat + d.secs as nat) * (NANOS_PER_SEC as nat)
                        + self.nanos + d.nanos) by (nonlinear_arith);
                }
                None
            },
            Some(secs) => match secs.checked_add(carry) {
                None => {
                    proof {
                        assert(self@ + d@ == (secs as nat + 1) * (NANOS_PER_SEC as nat) + nanos)
                            by (nonlinear_arith)
                            requires
                                secs == self.secs + d.secs,
                                self.nanos + d.nanos == NANOS_PER_SEC + nanos,
                                self@ == total_nanos(self.secs, self.nanos),
                                d@ == total_nanos(d.secs, d.nanos),
                        ;
                        assert((secs as nat + 1) * (NANOS_PER_SEC as nat) > max_nanos())
                            by (nonlinear_arith)
                            requires
                                secs as nat + 1 > u64::MAX,
                                NANOS_PER_SEC == 1_000_000_000,
                        ;
                    }
                    None
                },
                Some(secs) => {
                    let t = Instant { secs, nanos };
                    proof {
                        assert(t@ == self@ + d@) by (nonlinear_arith)
                            requires
                                secs == self.secs + d.secs + carry,
                                self.nanos + d.nanos == carry * NANOS_PER_SEC + nanos,
                                t@ == total_nanos(secs, nanos),
                                self@ == total_nanos(self.secs, self.nanos),
                                d@ == total_nanos(d.secs, d.nanos),
                        ;
                        lemma_split_nanos(secs, nanos);
                    }
                    Some(t)
                },
            },
        }
    }

    /// `self - d`, or `None` where that would fall before the epoch.
    pub fn checked_sub(&self, d: Duration) -> (r: Option<Instant>)
        ensures
            r is Some <==> d@ <= self@,
            r matches Some(t) ==> t@ == self@ - d@,
    {
        proof {
            use_type_invariant(self);
            use_type_invariant(&d);
            lemma_compare_pairs(d.secs, d.nanos, self.secs, self.nanos);
        }
        if self.secs < d.secs || (self.secs == d.secs && self.nanos < d.nanos) {
            None
        } else if self.nanos >= d.nanos {
            let t = Instant { secs: self.secs - d.secs, nanos: self.nanos - d.nanos };
            proof {
                assert(t@ == self@ - d@) by (nonlinear_arith)
                    requires
                        t@ == total_nanos((self.secs - d.secs) as u64, (self.nanos - d.nanos) as u32),
                        self@ == total_nanos(self.secs, self.nanos),
                        d@ == total_nanos(d.secs, d.nanos),
                        self.secs >= d.secs,
                        self.nanos >= d.nanos,
                ;
            }
            Some(t)
        } else {
            let t = Instant {
                secs: self.secs - d.secs - 1,
                nanos: self.nanos + (NANOS_PER_SEC - d.nanos),
            };
            proof {
                assert(t@ == self@ - d@) by (nonlinear_arith)
                    requires
                        t@ == total_nanos(
                            (self.secs - d.secs - 1) as u64,
                            (self.nanos + (NANOS_PER_SEC - d.nanos)) as u32,
                        ),
                        self@ == total_nanos(self.secs, self.nanos),
                        d@ == total_nanos(d.secs, d.nanos),
                        self.secs > d.secs,
                        self.nanos < d.nanos,
                        d.nanos < NANOS_PER_SEC,
                ;
            }
            Some(t)
        }
    }

    /// The span from `earlier` to `self`, zero where `earlier` is later.
    pub fn duration_since(&self, earlier: &Instant) -> (d: Duration)
        ensures
            d@ == (if earlier@ <= self@ {
                (self@ - earlier@) as nat
            } else {
                0
            }),
    {
        proof {
            use_type_invariant(self);
            use_type_invariant(earlier);
            lemma_compare_pairs(self.secs, self.nanos, earlier.secs, earlier.nanos);
        }
        if self.secs < earlier.secs || (self.secs == earlier.secs && self.nanos < earlier.nanos) {
            Duration { secs: 0, nanos: 0 }
        } else if self.nanos >= earlier.nanos {
            let d = Duration { secs: self.secs - earlier.secs, nanos: self.nanos - earlier.nanos };
            proof {
                assert(d@ == self@ - earlier@) by (nonlinear_arith)
                    requires
                        d@ == total_nanos(
                            (self.secs - earlier.secs) as u64,
                            (self.nanos - earlier.nanos) as u32,
                        ),
                        self@ == total_nanos(self.secs, self.nanos),
                        earlier@ == total_nanos(earlier.secs, earlier.nanos),
                        self.secs >= earlier.secs,
                        self.nanos >= earlier.nanos,
                ;
            }
            d
        } else {
            let d = Duration {
                secs: self.secs - earlier.secs - 1,
                nanos: self.nanos + (NANOS_PER_SEC - earlier.nanos),
            };
            proof {
                assert(d@ == self@ - earlier@) by (nonlinear_arith)
                    requires
                        d@ == total_nanos(
                            (self.secs - earlier.secs - 1) as u64,
                            (self.nanos + (NANOS_PER_SEC - earlier.nanos)) as u32,
                        ),
                        self@ == total_nanos(self.secs, self.nanos),
                        earlier@ == total_nanos(earlier.secs, earlier.nanos),
                        self.secs > earlier.secs,
                        self.nanos < earlier.nanos,
                        earlier.nanos < NANOS_PER_SEC,
                ;
            }
            d
        }
    }

    /// Whether `self` comes strictly before `other`.
    pub fn is_before(&self, other: &Instant) -> (r: bool)
        ensures
            r == (self@ < other@),
    {
        proof {
            use_type_invariant(self);
            use_type_invariant(other);
            lemma_compare_pairs(self.secs, self.nanos, other.secs, other.nanos);
        }
        self.secs < other.secs || (self.secs == other.secs && self.nanos < other.nanos)
    }

    /// Whether `self` and `other` are the same point in time.
    pub fn is_same_as(&self, other: &Instant) -> (r: bool)
        ensures
            r == (self@ == other@),
    {
        proof {
            use_type_invariant(self);
            use_type_invariant(other);
            lemma_compare_pairs(self.secs, self.nanos, other.secs, other.nanos);
        }
        self.secs == other.secs && self.nanos == other.nanos
    }
}

/// `std::time::SystemTime`, carried through opaquely.
#[verifier::external_type_specification]
#[verifier::external_body]
pub struct ExSystemTime(std::time::SystemTime);

/// Reads the system clock through `std::time::SystemTime::now`. Nothing is
/// promised of the reading.
#[verifier::external_body]
fn system_now() -> std::time::SystemTime {
    std::time::SystemTime::now()
}

/// `std::time::SystemTime::duration_since(UNIX_EPOCH)`, with the error for a
/// time before the epoch turned into `None`. Nothing is promised of the span,
/// which depends on the hidden value of `t`.
#[verifier::external_body]
fn since_unix_epoch(t: &std::time::SystemTime) -> Option<std::time::Duration> {
    t.duration_since(std::time::UNIX_EPOCH).ok()
}

/// `std::time::Duration::as_secs`. The span is opaque here, so nothing is
/// promised of the count.
#[verifier::external_body]
fn std_duration_secs(d: &std::time::Duration) -> u64 {
    d.as_secs()
}

/// `std::time::Duration::subsec_nanos`, which its documentation says is
/// always below one billion.
#[verifier::external_body]
fn std_duration_subsec_nanos(d: &std::time::Duration) -> (n: u32)
    ensures
        n < NANOS_PER_SEC,
{
    d.subsec_nanos()
}

/// Splits a file modification time into whole seconds and nanoseconds since
/// the UNIX epoch; `None` for a time before the epoch.
pub fn mtime_parts(mtime: std::time::SystemTime) -> (r: Option<(u64, u32)>)
    ensures
        r matches Some((_, nanos)) ==> nanos < NANOS_PER_SEC,
{
    match since_unix_epoch(&mtime) {
        Some(d) => Some((std_duration_secs(&d), std_duration_subsec_nanos(&d))),
        None => None,
    }
}

} // verus!
