//! The undo history of a buffer: a tree of revisions.
//!
//! The history is a vector of revisions that always holds at least the empty
//! root revision. Each revision but the root has a parent revision, the
//! transaction that leads from its parent to it, and the inversion of that
//! transaction, which leads back. Each revision may also record its last
//! child, the revision that a redo moves to. The current revision is the one
//! that the buffer shows.
//!
//! Committing a revision makes it the last child of the current revision and
//! pushes it to the end of the vector, so a parent always comes before its
//! children.
//!
//! The transactions are of a type `T` that the history only stores and hands
//! back: it never looks inside them. Where the buffer needs them combined or
//! applied, the operations here return them in the order to apply.

use vstd::prelude::*;

use crate::pattern::{
    compile_pattern, pattern_group_pairs, pattern_is_match, regex_compiles, regex_group_pairs,
    regex_is_match,
};
use crate::text::{
    chars_equal, chars_of, decimal_digits, lemma_parse_decimal_round_trip, parse_unsigned, parse_unsigned_chars,
    string_from_chars, trim_chars, trimmed,
};
use crate::time::{Duration, Instant, max_nanos, NANOS_PER_SEC};

verus! {

/// Whether to undo by a number of edits or a span of time.
#[derive(Debug, PartialEq, Eq, Clone, Copy)]
pub enum UndoKind {
    Steps(usize),
    TimePeriod(Duration),
}

/// The pattern a duration must match as a whole: one or more numbers, each
/// followed by a unit.
pub open spec fn duration_syntax() -> Seq<char> {
    r"^(?:\d+\s*[a-z]+\s*)+$"@
}

/// The pattern of one number and its unit.
pub open spec fn number_unit_syntax() -> Seq<char> {
    r"(\d+)\s*([a-z]+)"@
}

/// The error for text that is not a duration.
pub open spec fn duration_syntax_error() -> Seq<char> {
    "duration should be composed of positive integers followed by time units"@
}

/// The forms in which time unit `i` may be written: seconds, minutes, hours
/// and days, a subset of the units of systemd time spans.
pub open spec fn time_unit_forms(i: nat) -> Seq<Seq<char>> {
    if i == 0 {
        seq!["seconds"@, "second"@, "sec"@, "s"@]
    } else if i == 1 {
        seq!["minutes"@, "minute"@, "min"@, "m"@]
    } else if i == 2 {
        seq!["hours"@, "hour"@, "hr"@, "h"@]
    } else {
        seq!["days"@, "day"@, "d"@]
    }
}

/// The name of time unit `i`, as errors call it.
pub open spec fn time_unit_name(i: nat) -> Seq<char> {
    if i == 0 {
        "seconds"@
    } else if i == 1 {
        "minutes"@
    } else if i == 2 {
        "hours"@
    } else {
        "days"@
    }
}

/// The seconds in one of time unit `i`.
pub open spec fn time_unit_seconds(i: nat) -> nat {
    if i == 0 {
        1
    } else if i == 1 {
        60
    } else if i == 2 {
        3600
    } else {
        86400
    }
}

/// The first time unit that `unit` is a form of, if any.
pub open spec fn time_unit_of(unit: Seq<char>) -> Option<nat> {
    if time_unit_forms(0).contains(unit) {
        Some(0)
    } else if time_unit_forms(1).contains(unit) {
        Some(1)
    } else if time_unit_forms(2).contains(unit) {
        Some(2)
    } else if time_unit_forms(3).contains(unit) {
        Some(3)
    } else {
        None
    }
}

/// The seconds that the `(number, unit)` pairs add up to, with `seconds`
/// counted so far and the units in `specified` already used; or the error for
/// the first pair that fails: a number beyond `u64`, an unknown unit, a unit
/// used twice, or a total beyond `u64`.
pub open spec fn seconds_from_parts(
    parts: Seq<(Seq<char>, Seq<char>)>,
    specified: Set<nat>,
    seconds: nat,
) -> Result<nat, Seq<char>>
    decreases parts.len(),
{
    if parts.len() == 0 {
        Ok(seconds)
    } else {
        let (number, unit) = parts[0];
        match parse_unsigned(number, u64::MAX as nat) {
            None => Err("integer too large: "@ + number),
            Some(n) => match time_unit_of(unit) {
                None => Err("incorrect time unit: "@ + unit),
                Some(i) => if specified.contains(i) {
                    Err(time_unit_name(i) + " specified more than once"@)
                } else if seconds + n * time_unit_seconds(i) > u64::MAX {
                    Err("duration too large"@)
                } else {
                    seconds_from_parts(
                        parts.drop_first(),
                        specified.insert(i),
                        seconds + n * time_unit_seconds(i),
                    )
                },
            },
        }
    }
}

/// What parsing `s` as a human-readable duration gives: whole seconds, or an
/// error message. The syntax is checked, and the numbers and units found,
/// with regular expressions.
pub open spec fn human_duration(s: Seq<char>) -> Result<nat, Seq<char>> {
    if !regex_compiles(duration_syntax()) || !regex_is_match(duration_syntax(), s)
        || !regex_compiles(number_unit_syntax()) {
        Err(duration_syntax_error())
    } else {
        seconds_from_parts(regex_group_pairs(number_unit_syntax(), s), Set::empty(), 0)
    }
}

/// Whether `unit` is a documented spelling of a time unit of `per_unit`
/// seconds: `seconds`, `second`, `sec` or `s` for one second; `minutes`,
/// `minute`, `min` or `m` for 60; `hours`, `hour`, `hr` or `h` for 3600;
/// `days`, `day` or `d` for 86400.
pub open spec fn documented_unit(unit: Seq<char>, per_unit: nat) -> bool {
    ||| (unit == "seconds"@ || unit == "second"@ || unit == "sec"@ || unit == "s"@) && per_unit == 1
    ||| (unit == "minutes"@ || unit == "minute"@ || unit == "min"@ || unit == "m"@) && per_unit == 60
    ||| (unit == "hours"@ || unit == "hour"@ || unit == "hr"@ || unit == "h"@) && per_unit == 3600
    ||| (unit == "days"@ || unit == "day"@ || unit == "d"@) && per_unit == 86400
}

/// Each documented spelling of a time unit is recognised as its unit: the
/// unit it names has `per_unit` seconds.
proof fn lemma_documented_unit_known(unit: Seq<char>, per_unit: nat)
    requires
        documented_unit(unit, per_unit),
    ensures
        time_unit_of(unit) matches Some(i) && time_unit_seconds(i) == per_unit,
{
    reveal_strlit("seconds");
    reveal_strlit("second");
    reveal_strlit("sec");
    reveal_strlit("s");
    reveal_strlit("minutes");
    reveal_strlit("minute");
    reveal_strlit("min");
    reveal_strlit("m");
    reveal_strlit("hours");
    reveal_strlit("hour");
    reveal_strlit("hr");
    reveal_strlit("h");
    reveal_strlit("days");
    reveal_strlit("day");
    reveal_strlit("d");
    let f0 = time_unit_forms(0);
    let f1 = time_unit_forms(1);
    let f2 = time_unit_forms(2);
    let f3 = time_unit_forms(3);
    assert(forall|k: int| 0 <= k < f0.len() ==> f0[k].len() > 0 && (#[trigger] f0[k])[0] == 's');
    assert(forall|k: int| 0 <= k < f1.len() ==> f1[k].len() > 0 && (#[trigger] f1[k])[0] == 'm');
    assert(forall|k: int| 0 <= k < f2.len() ==> f2[k].len() > 0 && (#[trigger] f2[k])[0] == 'h');
    if per_unit == 1 {
        assert(f0.contains(unit)) by {
            if unit == "seconds"@ {
                assert(f0[0] == unit);
            } else if unit == "second"@ {
                assert(f0[1] == unit);
            } else if unit == "sec"@ {
                assert(f0[2] == unit);
            } else {
                assert(f0[3] == unit);
            }
        }
    } else if per_unit == 60 {
        assert(unit.len() > 0 && unit[0] == 'm');
        assert(!f0.contains(unit));
        assert(f1.contains(unit)) by {
            if unit == "minutes"@ {
                assert(f1[0] == unit);
            } else if unit == "minute"@ {
                assert(f1[1] == unit);
            } else if unit == "min"@ {
                assert(f1[2] == unit);
            } else {
                assert(f1[3] == unit);
            }
        }
    } else if per_unit == 3600 {
        assert(unit.len() > 0 && unit[0] == 'h');
        assert(!f0.contains(unit));
        assert(!f1.contains(unit));
        assert(f2.contains(unit)) by {
            if unit == "hours"@ {
                assert(f2[0] == unit);
            } else if unit == "hour"@ {
                assert(f2[1] == unit);
            } else if unit == "hr"@ {
                assert(f2[2] == unit);
            } else {
                assert(f2[3] == unit);
            }
        }
    } else {
        assert(unit.len() > 0 && unit[0] == 'd');
        assert(!f0.contains(unit));
        assert(!f1.contains(unit));
        assert(!f2.contains(unit));
        assert(f3.contains(unit)) by {
            if unit == "days"@ {
                assert(f3[0] == unit);
            } else if unit == "day"@ {
                assert(f3[1] == unit);
            } else {
                assert(f3[2] == unit);
            }
        }
    }
}

/// Every documented spelling of a time unit counts its seconds: the number
/// `n`, in decimal, followed by any spelling of seconds, minutes, hours or
/// days gives `n` times 1, 60, 3600 or 86400 seconds, wherever that fits in
/// a `u64`. So `5min` is 300 seconds, as `5m` and `5 minutes` are.
pub proof fn lemma_each_unit_form_counts_its_seconds(n: nat, unit: Seq<char>, per_unit: nat)
    requires
        documented_unit(unit, per_unit),
        n * per_unit <= u64::MAX,
    ensures
        seconds_from_parts(seq![(decimal_digits(n), unit)], Set::empty(), 0) == Ok::<nat, Seq<char>>(
            n * per_unit,
        ),
{
    reveal_with_fuel(seconds_from_parts, 2);
    lemma_documented_unit_known(unit, per_unit);
    assert(n <= n * per_unit) by (nonlinear_arith)
        requires
            per_unit >= 1,
    ;
    lemma_parse_decimal_round_trip(n, u64::MAX as nat);
    let parts = seq![(decimal_digits(n), unit)];
    assert(parts.drop_first() =~= Seq::<(Seq<char>, Seq<char>)>::empty());
}

/// Two numbers with spellings of two different units add up: `a` of the
/// first unit and then `b` of the second give `a * per_a + b * per_b`
/// seconds, wherever that fits in a `u64`, so `1m 30s` is 90 seconds.
pub proof fn lemma_unit_parts_add_up(
    a: nat,
    unit_a: Seq<char>,
    per_a: nat,
    b: nat,
    unit_b: Seq<char>,
    per_b: nat,
)
    requires
        documented_unit(unit_a, per_a),
        documented_unit(unit_b, per_b),
        per_a != per_b,
        a * per_a + b * per_b <= u64::MAX,
    ensures
        seconds_from_parts(seq![(decimal_digits(a), unit_a), (decimal_digits(b), unit_b)], Set::empty(), 0)
            == Ok::<nat, Seq<char>>(a * per_a + b * per_b),
{
    reveal_with_fuel(seconds_from_parts, 3);
    lemma_documented_unit_known(unit_a, per_a);
    lemma_documented_unit_known(unit_b, per_b);
    assert(a <= a * per_a && b <= b * per_b) by (nonlinear_arith)
        requires
            per_a >= 1,
            per_b >= 1,
    ;
    assert(0 <= a * per_a && 0 <= b * per_b) by (nonlinear_arith);
    lemma_parse_decimal_round_trip(a, u64::MAX as nat);
    lemma_parse_decimal_round_trip(b, u64::MAX as nat);
    let parts = seq![(decimal_digits(a), unit_a), (decimal_digits(b), unit_b)];
    let ia = time_unit_of(unit_a)->0;
    let ib = time_unit_of(unit_b)->0;
    assert(ia != ib);
    assert(parts.drop_first() =~= seq![(decimal_digits(b), unit_b)]);
    assert(parts.drop_first().drop_first() =~= Seq::<(Seq<char>, Seq<char>)>::empty());
    assert(!Set::<nat>::empty().insert(ia).contains(ib));
}

/// The same unit may not be given twice, in whatever spellings: `a` and
/// then `b` of one unit is the error that names the unit as specified more
/// than once.
pub proof fn lemma_unit_given_twice_is_rejected(a: nat, unit_a: Seq<char>, b: nat, unit_b: Seq<char>, per_unit: nat)
    requires
        documented_unit(unit_a, per_unit),
        documented_unit(unit_b, per_unit),
        a * per_unit <= u64::MAX,
        b <= u64::MAX,
    ensures
        seconds_from_parts(seq![(decimal_digits(a), unit_a), (decimal_digits(b), unit_b)], Set::empty(), 0)
            matches Err(e) && e == time_unit_name(time_unit_of(unit_b)->0) + " specified more than once"@,
        per_unit == 60 ==> time_unit_name(time_unit_of(unit_b)->0) == "minutes"@,
{
    reveal_with_fuel(seconds_from_parts, 2);
    lemma_documented_unit_known(unit_a, per_unit);
    lemma_documented_unit_known(unit_b, per_unit);
    assert(a <= a * per_unit) by (nonlinear_arith)
        requires
            per_unit >= 1,
    ;
    lemma_parse_decimal_round_trip(a, u64::MAX as nat);
    lemma_parse_decimal_round_trip(b, u64::MAX as nat);
    let parts = seq![(decimal_digits(a), unit_a), (decimal_digits(b), unit_b)];
    assert(parts.drop_first() =~= seq![(decimal_digits(b), unit_b)]);
    assert(time_unit_of(unit_a) == time_unit_of(unit_b));
}

/// Whether `unit` is one of `forms`.
fn is_one_of(unit: &[char], forms: &[&str]) -> (r: bool)
    ensures
        r == forms@.map_values(|f: &str| f@).contains(unit@),
{
    let ghost views = forms@.map_values(|f: &str| f@);
    let mut i: usize = 0;
    while i < forms.len()
        invariant
            i <= forms@.len(),
            views == forms@.map_values(|f: &str| f@),
            forall|k: int| 0 <= k < i ==> views[k] != unit@,
        decreases forms@.len() - i,
    {
        let form = chars_of(forms[i]);
        if chars_equal(unit, form.as_slice()) {
            proof {
                assert(views[i as int] == unit@);
            }
            return true;
        }
        i = i + 1;
    }
    false
}

/// The first time unit that `unit` is a form of, if any.
fn time_unit(unit: &[char]) -> (r: Option<usize>)
    ensures
        match r {
            Some(i) => time_unit_of(unit@) == Some(i as nat),
            None => time_unit_of(unit@) is None,
        },
{
    let seconds = ["seconds", "second", "sec", "s"];
    let minutes = ["minutes", "minute", "min", "m"];
    let hours = ["hours", "hour", "hr", "h"];
    let days = ["days", "day", "d"];
    proof {
        assert(seconds@.map_values(|f: &str| f@) =~= time_unit_forms(0));
        assert(minutes@.map_values(|f: &str| f@) =~= time_unit_forms(1));
        assert(hours@.map_values(|f: &str| f@) =~= time_unit_forms(2));
        assert(days@.map_values(|f: &str| f@) =~= time_unit_forms(3));
    }
    if is_one_of(unit, seconds.as_slice()) {
        Some(0)
    } else if is_one_of(unit, minutes.as_slice()) {
        Some(1)
    } else if is_one_of(unit, hours.as_slice()) {
        Some(2)
    } else if is_one_of(unit, days.as_slice()) {
        Some(3)
    } else {
        None
    }
}

/// The name of time unit `i`.
fn time_unit_name_str(i: usize) -> (s: &'static str)
    requires
        i < 4,
    ensures
        s@ == time_unit_name(i as nat),
{
    if i == 0 {
        "seconds"
    } else if i == 1 {
        "minutes"
    } else if i == 2 {
        "hours"
    } else {
        "days"
    }
}

/// The seconds in one of time unit `i`.
fn time_unit_seconds_u64(i: usize) -> (n: u64)
    requires
        i < 4,
    ensures
        n == time_unit_seconds(i as nat),
{
    if i == 0 {
        1
    } else if i == 1 {
        60
    } else if i == 2 {
        3600
    } else {
        86400
    }
}

/// Adds up `(number, unit)` pairs into a duration of whole seconds. Fails on
/// the first pair whose number does not fit in a `u64`, whose unit is unknown
/// or already used, or that takes the total beyond `u64`.
pub fn duration_from_parts(parts: &Vec<(String, String)>) -> (r: Result<Duration, String>)
    ensures
        ({
            let expected = seconds_from_parts(
                parts@.map_values(|g: (String, String)| (g.0@, g.1@)),
                Set::empty(),
                0,
            );
            match r {
                Ok(d) => expected matches Ok(secs) && d@ == secs * (NANOS_PER_SEC as nat),
                Err(e) => expected == Err::<nat, Seq<char>>(e@),
            }
        }),
{
    let ghost views = parts@.map_values(|g: (String, String)| (g.0@, g.1@));
    let ghost expected = seconds_from_parts(views, Set::empty(), 0);
    let mut specified: [bool; 4] = [false, false, false, false];
    let mut seconds: u64 = 0;
    let mut i: usize = 0;
    proof {
        assert(views.skip(0) =~= views);
        assert(Set::new(|u: nat| u < 4 && specified@[u as int]) =~= Set::<nat>::empty());
    }
    while i < parts.len()
        invariant
            i <= parts@.len(),
            views == parts@.map_values(|g: (String, String)| (g.0@, g.1@)),
            expected == seconds_from_parts(views, Set::empty(), 0),
            expected == seconds_from_parts(
                views.skip(i as int),
                Set::new(|u: nat| u < 4 && specified@[u as int]),
                seconds as nat,
            ),
        decreases parts@.len() - i,
    {
        let ghost used = Set::new(|u: nat| u < 4 && specified@[u as int]);
        proof {
            assert(views.skip(i as int)[0] == views[i as int]);
            assert(views.skip(i as int).drop_first() =~= views.skip(i as int + 1));
        }
        let number = chars_of(parts[i].0.as_str());
        let unit = chars_of(parts[i].1.as_str());
        let n = match parse_unsigned_chars(number.as_slice(), u64::MAX) {
            Some(n) => n,
            None => {
                let mut e = String::from_str("integer too large: ");
                e.append(parts[i].0.as_str());
                return Err(e);
            },
        };
        let u = match time_unit(unit.as_slice()) {
            Some(u) => u,
            None => {
                let mut e = String::from_str("incorrect time unit: ");
                e.append(parts[i].1.as_str());
                return Err(e);
            },
        };
        if specified[u] {
            let e = String::from_str(time_unit_name_str(u)).concat(" specified more than once");
            return Err(e);
        }
        proof {
            assert(!used.contains(u as nat));
        }
        let added = match n.checked_mul(time_unit_seconds_u64(u)) {
            Some(m) => seconds.checked_add(m),
            None => None,
        };
        match added {
            Some(total) => {
                seconds = total;
            },
            None => {
                return Err(String::from_str("duration too large"));
            },
        }
        specified[u] = true;
        proof {
            assert(Set::new(|x: nat| x < 4 && specified@[x as int]) =~= used.insert(u as nat));
        }
        i = i + 1;
    }
    proof {
        assert(views.skip(i as int).len() == 0);
    }
    Ok(Duration::from_secs(seconds))
}

/// Parses a human-readable duration such as `5 sec`, `2m`, or `1m 30s`: one
/// or more numbers each followed by a unit, each unit at most once.
fn parse_human_duration(s: &str) -> (r: Result<Duration, String>)
    ensures
        match r {
            Ok(d) => human_duration(s@) matches Ok(secs) && d@ == secs * (NANOS_PER_SEC as nat),
            Err(e) => human_duration(s@) == Err::<nat, Seq<char>>(e@),
        },
{
    let syntax_error = "duration should be composed \
        of positive integers followed by time units";
    let validation = match compile_pattern(r"^(?:\d+\s*[a-z]+\s*)+$") {
        Some(p) => p,
        None => return Err(String::from_str(syntax_error)),
    };
    if !pattern_is_match(&validation, s) {
        return Err(String::from_str(syntax_error));
    }
    let number_unit = match compile_pattern(r"(\d+)\s*([a-z]+)") {
        Some(p) => p,
        None => return Err(String::from_str(syntax_error)),
    };
    let parts = pattern_group_pairs(&number_unit, s);
    duration_from_parts(&parts)
}

/// Whether `r` is what reading the undo amount `s` gives: blank text is one
/// step, a plain number is that many steps, and anything else is a
/// human-readable duration, with leading and trailing whitespace ignored.
pub open spec fn undo_kind_read(s: Seq<char>, r: Result<UndoKind, String>) -> bool {
    let t = trimmed(s);
    if t.len() == 0 {
        r == Ok::<UndoKind, String>(UndoKind::Steps(1))
    } else if parse_unsigned(t, usize::MAX as nat) is Some {
        r matches Ok(UndoKind::Steps(n)) && parse_unsigned(t, usize::MAX as nat) == Some(
            n as nat,
        )
    } else {
        match r {
            Ok(UndoKind::TimePeriod(d)) => human_duration(t) matches Ok(secs) && d@
                == secs * (NANOS_PER_SEC as nat),
            Ok(UndoKind::Steps(_)) => false,
            Err(e) => human_duration(t) == Err::<nat, Seq<char>>(e@),
        }
    }
}

impl UndoKind {
    /// Parses an undo amount: blank text is one step, a plain number is that
    /// many steps, and anything else is read as a human-readable duration.
    /// Leading and trailing whitespace is ignored.
    pub fn parse(s: &str) -> (r: Result<UndoKind, String>)
        ensures
            undo_kind_read(s@, r),
    {
        let chars = chars_of(s);
        let t = trim_chars(chars.as_slice());
        if t.len() == 0 {
            return Ok(UndoKind::Steps(1));
        }
        match parse_unsigned_chars(t.as_slice(), usize::MAX as u64) {
            Some(n) => Ok(UndoKind::Steps(n as usize)),
            None => {
                let text = string_from_chars(t.as_slice());
                match parse_human_duration(text.as_str()) {
                    Ok(d) => Ok(UndoKind::TimePeriod(d)),
                    Err(e) => Err(e),
                }
            },
        }
    }
}

impl core::str::FromStr for UndoKind {
    type Err = String;

    fn from_str(s: &str) -> (r: Result<Self, Self::Err>)
        ensures
            undo_kind_read(s@, r),
    {
        UndoKind::parse(s)
    }
}

/// One revision as the model sees it.
pub struct RevisionModel<T> {
    pub parent: nat,
    pub last_child: Option<nat>,
    pub transaction: T,
    pub inversion: T,
    pub timestamp: Instant,
    pub output: bool,
}

/// The model of a history: its revisions, and the index of the current one.
pub struct HistoryModel<T> {
    pub revisions: Seq<RevisionModel<T>>,
    pub current: nat,
}

/// Whether every value of `actual` is a clone of the value of `expected` at the
/// same place.
pub open spec fn all_cloned<T: Clone>(expected: Seq<T>, actual: Seq<T>) -> bool {
    &&& expected.len() == actual.len()
    &&& forall|i: int| 0 <= i < actual.len() ==> cloned::<T>(expected[i], #[trigger] actual[i])
}

/// One change to a history: a commit of a revision with its transaction,
/// inversion, timestamp and output flag, or a move of the current revision
/// (every undo, redo and jump is one).
pub enum HistoryStep<T> {
    Commit(T, T, Instant, bool),
    MoveTo(nat),
}

/// How many of `steps` are commits.
pub open spec fn commits_in<T>(steps: Seq<HistoryStep<T>>) -> nat
    decreases steps.len(),
{
    if steps.len() == 0 {
        0
    } else {
        commits_in(steps.drop_last()) + (if steps.last() is Commit {
            1nat
        } else {
            0nat
        })
    }
}

/// The history `h` after `steps`, in order.
pub open spec fn after_steps<T>(h: HistoryModel<T>, steps: Seq<HistoryStep<T>>) -> HistoryModel<T>
    decreases steps.len(),
{
    if steps.len() == 0 {
        h
    } else {
        let before = after_steps(h, steps.drop_last());
        match steps.last() {
            HistoryStep::Commit(transaction, inversion, timestamp, output) => before.after_commit(
                transaction,
                inversion,
                timestamp,
                output,
            ),
            HistoryStep::MoveTo(to) => before.with_current(to),
        }
    }
}

/// Whether every move of `steps`, taken from `h`, goes to a revision that
/// exists then, as every undo, redo and jump does.
pub open spec fn moves_valid<T>(h: HistoryModel<T>, steps: Seq<HistoryStep<T>>) -> bool
    decreases steps.len(),
{
    if steps.len() == 0 {
        true
    } else {
        &&& moves_valid(h, steps.drop_last())
        &&& steps.last() matches HistoryStep::MoveTo(to) ==> to < after_steps(h, steps.drop_last()).len()
    }
}

/// Revision indices are never reused: from a new history, of its root
/// alone, any steps leave one revision more per commit, however the current
/// revision moved in between; the current revision always exists; and
/// right after a commit the current revision is the number of commits made,
/// so the `k`th commit lands at revision `k`.
pub proof fn lemma_commits_land_in_order<T>(h: HistoryModel<T>, steps: Seq<HistoryStep<T>>)
    requires
        h.len() == 1,
        h.current == 0,
        moves_valid(h, steps),
    ensures
        after_steps(h, steps).len() == 1 + commits_in(steps),
        after_steps(h, steps).current < after_steps(h, steps).len(),
        steps.len() > 0 && steps.last() is Commit ==> after_steps(h, steps).current == commits_in(steps),
    decreases steps.len(),
{
    if steps.len() > 0 {
        lemma_commits_land_in_order(h, steps.drop_last());
    }
}

impl<T> HistoryModel<T> {
    /// The number of revisions, the root included.
    pub open spec fn len(self) -> nat {
        self.revisions.len()
    }

    pub open spec fn parent(self, n: nat) -> nat {
        self.revisions[n as int].parent
    }

    pub open spec fn last_child(self, n: nat) -> Option<nat> {
        self.revisions[n as int].last_child
    }

    pub open spec fn transaction(self, n: nat) -> T {
        self.revisions[n as int].transaction
    }

    pub open spec fn inversion(self, n: nat) -> T {
        self.revisions[n as int].inversion
    }

    pub open spec fn timestamp(self, n: nat) -> Instant {
        self.revisions[n as int].timestamp
    }

    pub open spec fn is_output(self, n: nat) -> bool {
        self.revisions[n as int].output
    }

    /// The shape every history keeps: a root at index 0 that is its own parent,
    /// every other revision after its parent, and a last child, where there
    /// is one, after its parent and pointing back to it.
    pub open spec fn wf(self) -> bool {
        &&& self.len() >= 1
        &&& self.current < self.len()
        &&& self.parent(0) == 0
        &&& forall|n: nat| 0 < n < self.len() ==> #[trigger] self.parent(n) < n
        &&& forall|n: nat|
            n < self.len() && #[trigger] self.last_child(n) is Some ==> {
                let c = self.last_child(n)->0;
                &&& n < c < self.len()
                &&& self.parent(c) == n
            }
    }

    /// Whether `a` is `n` or one of its ancestors.
    pub open spec fn is_ancestor(self, a: nat, n: nat) -> bool
        decreases n,
    {
        if n == a {
            true
        } else if n == 0 || self.parent(n) >= n {
            false
        } else {
            self.is_ancestor(a, self.parent(n))
        }
    }

    /// The revisions on the way from `n` up to its ancestor `a`: `n` first,
    /// then each parent in turn, `a` itself left out.
    pub open spec fn path_up(self, n: nat, a: nat) -> Seq<nat>
        decreases n,
    {
        if n == a || n == 0 || self.parent(n) >= n {
            Seq::empty()
        } else {
            seq![n].add(self.path_up(self.parent(n), a))
        }
    }

    /// The lowest common ancestor of `a` and `b` (see
    /// `lemma_lca_is_lowest_common_ancestor`): since a parent comes before its
    /// children, the later of two distinct revisions can never be an ancestor
    /// of the other, so it is replaced by its parent until the two meet.
    pub open spec fn lca(self, a: nat, b: nat) -> nat
        decreases a + b,
    {
        if a == b {
            a
        } else if a > b {
            if self.parent(a) >= a {
                a
            } else {
                self.lca(self.parent(a), b)
            }
        } else {
            if self.parent(b) >= b {
                b
            } else {
                self.lca(a, self.parent(b))
            }
        }
    }

    /// The transactions that lead from revision `from` to revision `to`, in the
    /// order to apply: the inversions on the way up from `from` to the lowest
    /// common ancestor, then the transactions on the way down to `to`.
    pub open spec fn jump_steps(self, from: nat, to: nat) -> Seq<T> {
        let l = self.lca(from, to);
        self.path_up(from, l).map_values(|n: nat| self.inversion(n)).add(
            self.path_up(to, l).reverse().map_values(|n: nat| self.transaction(n)),
        )
    }

    /// The same revisions with `to` as the current one.
    pub open spec fn with_current(self, to: nat) -> Self {
        HistoryModel { revisions: self.revisions, current: to }
    }

    /// The history after committing a revision with the given contents as a
    /// child of the current revision.
    pub open spec fn after_commit(
        self,
        transaction: T,
        inversion: T,
        timestamp: Instant,
        output: bool,
    ) -> Self {
        let new = self.len();
        let cur = self.revisions[self.current as int];
        HistoryModel {
            revisions: self.revisions.update(
                self.current as int,
                RevisionModel { last_child: Some(new), ..cur },
            ).push(
                RevisionModel {
                    parent: self.current,
                    last_child: None,
                    transaction,
                    inversion,
                    timestamp,
                    output,
                },
            ),
            current: new,
        }
    }

    /// The revision that a user-facing undo from `n` moves to: the parent of
    /// `n`, and while the revision just left is output-tagged and the root is
    /// not reached, the parent of that parent in turn.
    pub open spec fn undo_user_target(self, n: nat) -> nat
        decreases n,
    {
        let p = self.parent(n);
        if !self.is_output(n) || p == 0 || p >= n {
            p
        } else {
            self.undo_user_target(p)
        }
    }

    /// The end of the run of output-tagged revisions that follows `n` along
    /// last children; `n` itself where its last child is absent or not output.
    pub open spec fn output_run_end(self, n: nat) -> nat
        decreases self.len() - n,
    {
        match self.last_child(n) {
            Some(c) => if n < c < self.len() && self.is_output(c) {
                self.output_run_end(c)
            } else {
                n
            },
            None => n,
        }
    }

    /// The revision that a user-facing redo moves to, `None` where the current
    /// revision has no last child. From inside a run of output revisions it
    /// restores the rest of that run; otherwise it restores the next user
    /// revision and the run of output revisions that follows it.
    pub open spec fn redo_user_target(self) -> Option<nat> {
        match self.last_child(self.current) {
            None => None,
            Some(c) => if self.is_output(c) {
                Some(self.output_run_end(self.current))
            } else {
                Some(self.output_run_end(c))
            },
        }
    }

    /// An ancestor never comes after its descendant.
    pub proof fn lemma_ancestor_le(self, a: nat, n: nat)
        requires
            self.wf(),
            n < self.len(),
            self.is_ancestor(a, n),
        ensures
            a <= n,
        decreases n,
    {
        if n != a {
            assert(self.parent(n) < n);
            self.lemma_ancestor_le(a, self.parent(n));
        }
    }

    /// An ancestor of a revision's parent is an ancestor of the revision.
    pub proof fn lemma_ancestor_of_parent(self, a: nat, n: nat)
        requires
            self.wf(),
            0 < n < self.len(),
            self.is_ancestor(a, self.parent(n)),
        ensures
            self.is_ancestor(a, n),
    {
        assert(self.parent(n) < n);
    }

    /// The root is an ancestor of every revision.
    pub proof fn lemma_root_is_ancestor(self, n: nat)
        requires
            self.wf(),
            n < self.len(),
        ensures
            self.is_ancestor(0, n),
        decreases n,
    {
        if n != 0 {
            assert(self.parent(n) < n);
            self.lemma_root_is_ancestor(self.parent(n));
        }
    }

    /// `lca(a, b)` is a common ancestor of `a` and `b`, and every common
    /// ancestor of the two is an ancestor of it: it is their lowest common
    /// ancestor.
    pub proof fn lemma_lca_is_lowest_common_ancestor(self, a: nat, b: nat)
        requires
            self.wf(),
            a < self.len(),
            b < self.len(),
        ensures
            self.lca(a, b) < self.len(),
            self.is_ancestor(self.lca(a, b), a),
            self.is_ancestor(self.lca(a, b), b),
            forall|c: nat|
                #[trigger] self.is_ancestor(c, a) && self.is_ancestor(c, b) ==> self.is_ancestor(
                    c,
                    self.lca(a, b),
                ),
        decreases a + b,
    {
        if a == b {
        } else if a > b {
            let p = self.parent(a);
            assert(p < a);
            self.lemma_lca_is_lowest_common_ancestor(p, b);
            self.lemma_ancestor_of_parent(self.lca(a, b), a);
            assert forall|c: nat| #[trigger]
                self.is_ancestor(c, a) && self.is_ancestor(c, b) implies self.is_ancestor(
                c,
                self.lca(a, b),
            ) by {
                self.lemma_ancestor_le(c, b);
                assert(c != a);
                assert(self.is_ancestor(c, p));
            }
        } else {
            let p = self.parent(b);
            assert(p < b);
            self.lemma_lca_is_lowest_common_ancestor(a, p);
            assert(self.lca(a, b) == self.lca(a, p));
            self.lemma_ancestor_of_parent(self.lca(a, b), b);
            assert forall|c: nat| #[trigger]
                self.is_ancestor(c, a) && self.is_ancestor(c, b) implies self.is_ancestor(
                c,
                self.lca(a, b),
            ) by {
                self.lemma_ancestor_le(c, a);
                assert(c != b);
                assert(self.is_ancestor(c, p));
            }
        }
    }

    /// Every revision on the way up from `n` to its ancestor `a` is a valid
    /// revision after `a`.
    pub proof fn lemma_path_up_bounds(self, n: nat, a: nat)
        requires
            self.wf(),
            n < self.len(),
            self.is_ancestor(a, n),
        ensures
            forall|i: int|
                0 <= i < self.path_up(n, a).len() ==> a < #[trigger] self.path_up(n, a)[i] <= n,
        decreases n,
    {
        if n != a {
            let p = self.parent(n);
            assert(p < n);
            self.lemma_path_up_bounds(p, a);
            self.lemma_ancestor_le(a, p);
            let rest = self.path_up(p, a);
            assert(self.path_up(n, a) == seq![n].add(rest));
            assert forall|i: int| 0 <= i < self.path_up(n, a).len() implies a < #[trigger] self.path_up(
                n,
                a,
            )[i] <= n by {
                if i > 0 {
                    assert(self.path_up(n, a)[i] == rest[i - 1]);
                }
            }
        }
    }

    /// A user-facing undo moves to an ancestor before the revision it starts from.
    pub proof fn lemma_undo_user_target_bounds(self, n: nat)
        requires
            self.wf(),
            0 < n < self.len(),
        ensures
            self.undo_user_target(n) < n,
            self.is_ancestor(self.undo_user_target(n), n),
        decreases n,
    {
        let p = self.parent(n);
        assert(p < n);
        if !self.is_output(n) || p == 0 || p >= n {
            assert(self.is_ancestor(p, p));
        } else {
            self.lemma_undo_user_target_bounds(p);
            self.lemma_ancestor_of_parent(self.undo_user_target(n), n);
        }
    }

    /// The end of an output run lies at or after its start.
    pub proof fn lemma_output_run_end_bounds(self, n: nat)
        requires
            self.wf(),
            n < self.len(),
        ensures
            n <= self.output_run_end(n) < self.len(),
        decreases self.len() - n,
    {
        match self.last_child(n) {
            Some(c) => {
                if n < c < self.len() && self.is_output(c) {
                    self.lemma_output_run_end_bounds(c);
                }
            },
            None => {},
        }
    }

    /// Committing keeps a history well formed.
    pub proof fn lemma_after_commit_wf(self, transaction: T, inversion: T, timestamp: Instant, output: bool)
        requires
            self.wf(),
        ensures
            self.after_commit(transaction, inversion, timestamp, output).wf(),
    {
        let h = self.after_commit(transaction, inversion, timestamp, output);
        assert forall|n: nat| 0 < n < h.len() implies #[trigger] h.parent(n) < n by {
            if n < self.len() {
                assert(h.parent(n) == self.parent(n));
            }
        }
        assert forall|n: nat| n < h.len() && #[trigger] h.last_child(n) is Some implies {
            let c = h.last_child(n)->0;
            &&& n < c < h.len()
            &&& h.parent(c) == n
        } by {
            if n != self.current && n < self.len() {
                assert(h.last_child(n) == self.last_child(n));
            }
        }
    }

    /// Undo right after a commit goes back to the revision committed from and
    /// hands back the committed inversion; a redo from there returns to the
    /// committed revision and hands back the committed transaction.
    pub proof fn lemma_undo_then_redo_after_commit(
        self,
        transaction: T,
        inversion: T,
        timestamp: Instant,
        output: bool,
    )
        requires
            self.wf(),
        ensures
            ({
                let committed = self.after_commit(transaction, inversion, timestamp, output);
                let undone = committed.with_current(committed.parent(committed.current));
                &&& committed.wf()
                &&& committed.current != 0
                &&& committed.inversion(committed.current) == inversion
                &&& undone == self.after_commit(transaction, inversion, timestamp, output).with_current(
                    self.current,
                )
                &&& undone.last_child(undone.current) == Some(committed.current)
                &&& undone.transaction(committed.current) == transaction
                &&& undone.with_current(committed.current) == committed
            }),
    {
        self.lemma_after_commit_wf(transaction, inversion, timestamp, output);
    }

    /// In a history where no revision is output-tagged, a user-facing undo
    /// moves to the parent, as a plain undo does.
    pub proof fn lemma_undo_user_untagged_is_undo(self)
        requires
            self.wf(),
            self.current != 0,
            forall|n: nat| n < self.len() ==> !#[trigger] self.is_output(n),
        ensures
            self.undo_user_target(self.current) == self.parent(self.current),
    {
    }

    /// In a history where no revision is output-tagged, a user-facing redo
    /// moves to the last child, as a plain redo does.
    pub proof fn lemma_redo_user_untagged_is_redo(self)
        requires
            self.wf(),
            forall|n: nat| n < self.len() ==> !#[trigger] self.is_output(n),
        ensures
            self.redo_user_target() == self.last_child(self.current),
    {
        match self.last_child(self.current) {
            Some(c) => {
                assert(!self.is_output(c));
                match self.last_child(c) {
                    Some(d) => {
                        assert(!self.is_output(d));
                    },
                    None => {},
                }
            },
            None => {},
        }
    }

    /// A user-facing undo from `n` reverts a run of output-tagged revisions
    /// and the one revision before them: every revision it leaves but the
    /// last is output-tagged, and the last is a user revision unless the root
    /// is reached.
    pub proof fn lemma_undo_user_reverts_output_and_one_edit(self, n: nat)
        requires
            self.wf(),
            0 < n < self.len(),
        ensures
            ({
                let path = self.path_up(n, self.undo_user_target(n));
                &&& path.len() >= 1
                &&& path[0] == n
                &&& forall|i: int| 0 <= i < path.len() - 1 ==> self.is_output(#[trigger] path[i])
                &&& !self.is_output(path.last()) || self.undo_user_target(n) == 0
            }),
        decreases n,
    {
        let p = self.parent(n);
        assert(p < n);
        let t = self.undo_user_target(n);
        if !self.is_output(n) || p == 0 || p >= n {
            assert(self.path_up(p, p) == Seq::<nat>::empty());
            assert(self.path_up(n, t) == seq![n]);
        } else {
            self.lemma_undo_user_reverts_output_and_one_edit(p);
            self.lemma_undo_user_target_bounds(p);
            let rest = self.path_up(p, t);
            assert(t < p);
            assert(self.path_up(n, t) == seq![n].add(rest));
            let path = self.path_up(n, t);
            assert forall|i: int| 0 <= i < path.len() - 1 implies self.is_output(
                #[trigger] path[i],
            ) by {
                if i > 0 {
                    assert(path[i] == rest[i - 1]);
                }
            }
            assert(path.last() == rest.last());
        }
    }

    /// A commit tagged as output is a plain commit but for the new
    /// revision's output flag: the two histories hold the same revisions
    /// and the same current revision, and differ only in that flag, which
    /// is `output`; with `output` false they are the same.
    pub proof fn lemma_tagged_commit_is_plain_commit(
        self,
        transaction: T,
        inversion: T,
        timestamp: Instant,
        output: bool,
    )
        requires
            self.current < self.len(),
        ensures
            ({
                let tagged = self.after_commit(transaction, inversion, timestamp, output);
                let plain = self.after_commit(transaction, inversion, timestamp, false);
                &&& tagged.current == plain.current
                &&& tagged.revisions == plain.revisions.update(
                    self.len() as int,
                    RevisionModel { output, ..plain.revisions[self.len() as int] },
                )
                &&& tagged.is_output(self.len()) == output
                &&& !output ==> tagged == plain
            }),
    {
        let tagged = self.after_commit(transaction, inversion, timestamp, output);
        let plain = self.after_commit(transaction, inversion, timestamp, false);
        assert(tagged.revisions =~= plain.revisions.update(
            self.len() as int,
            RevisionModel { output, ..plain.revisions[self.len() as int] },
        ));
    }

    /// Moving the current revision keeps a history well formed.
    pub proof fn lemma_wf_with_current(self, to: nat)
        requires
            self.wf(),
            to < self.len(),
        ensures
            self.with_current(to).wf(),
    {
        let h = self.with_current(to);
        assert forall|n: nat| 0 < n < h.len() implies #[trigger] h.parent(n) < n by {
            assert(h.parent(n) == self.parent(n));
        }
        assert forall|n: nat| n < h.len() && #[trigger] h.last_child(n) is Some implies {
            let c = h.last_child(n)->0;
            &&& n < c < h.len()
            &&& h.parent(c) == n
        } by {
            assert(h.last_child(n) == self.last_child(n));
        }
    }

    /// Whether the timestamps never decrease from one revision to the next.
    pub open spec fn timestamps_sorted(self) -> bool {
        forall|i: nat, j: nat|
            i <= j < self.len() ==> #[trigger] self.timestamp(i)@ <= #[trigger] self.timestamp(j)@
    }

    /// Whether `p` is where an instant of `t` nanoseconds would be inserted
    /// among the timestamps.
    pub open spec fn is_insertion_point(self, t: nat, p: nat) -> bool {
        &&& p <= self.len()
        &&& forall|i: nat| i < p ==> #[trigger] self.timestamp(i)@ < t
        &&& forall|i: nat| p <= i < self.len() ==> t <= #[trigger] self.timestamp(i)@
    }

    /// The revision nearest to an instant of `t` nanoseconds, given its
    /// insertion point `p`: the revision at `p` if its timestamp is exactly
    /// `t`, the first or last revision if `t` lies outside them all, and
    /// otherwise the nearer of the two neighbours, the later one on a tie.
    pub open spec fn nearest_revision(self, t: nat, p: nat) -> nat {
        if p < self.len() && self.timestamp(p)@ == t {
            p
        } else if p == 0 {
            0
        } else if p == self.len() {
            (self.len() - 1) as nat
        } else if t - self.timestamp((p - 1) as nat)@ < self.timestamp(p)@ - t {
            (p - 1) as nat
        } else {
            p
        }
    }

    /// Whether `r` is the revision that a jump to an instant of `t` nanoseconds
    /// picks: a valid revision, and where the timestamps are sorted, the
    /// nearest one.
    pub open spec fn is_instant_target(self, t: nat, r: nat) -> bool {
        &&& r < self.len()
        &&& self.timestamps_sorted() ==> exists|p: nat|
            #[trigger] self.is_insertion_point(t, p) && r == self.nearest_revision(t, p)
    }
}

/// A single point in history. See [`History`].
struct Revision<T> {
    parent: usize,
    last_child: Option<usize>,
    transaction: T,
    inversion: T,
    timestamp: Instant,
    output: bool,
}

/// The history of changes to a buffer. See the module documentation.
pub struct History<T> {
    revisions: Vec<Revision<T>>,
    current: usize,
}

impl<T> Revision<T> {
    spec fn model(self) -> RevisionModel<T> {
        RevisionModel {
            parent: self.parent as nat,
            last_child: match self.last_child {
                Some(c) => Some(c as nat),
                None => None,
            },
            transaction: self.transaction,
            inversion: self.inversion,
            timestamp: self.timestamp,
            output: self.output,
        }
    }
}

impl<T> View for History<T> {
    type V = HistoryModel<T>;

    closed spec fn view(&self) -> HistoryModel<T> {
        HistoryModel {
            revisions: self.revisions@.map_values(|r: Revision<T>| r.model()),
            current: self.current as nat,
        }
    }
}

impl<T: core::default::Default> core::default::Default for History<T> {
    /// A history holding only the empty root revision.
    fn default() -> (h: Self)
        ensures
            h@.wf(),
            h@.len() == 1,
            h@.current == 0,
            h@.last_child(0) is None,
            !h@.is_output(0),
    {
        let root = Revision {
            parent: 0,
            last_child: None,
            transaction: T::default(),
            inversion: T::default(),
            timestamp: Instant::now(),
            output: false,
        };
        let mut revisions = Vec::new();
        revisions.push(root);
        let h = History { revisions, current: 0 };
        proof {
            assert(h@.revisions =~= seq![root.model()]);
        }
        h
    }
}

impl<T> History<T> {
    /// The index of the current revision.
    pub fn current_revision(&self) -> (r: usize)
        ensures
            r == self@.current,
    {
        self.current
    }

    /// Whether the current revision is the root.
    pub fn at_root(&self) -> (r: bool)
        ensures
            r == (self@.current == 0),
    {
        self.current == 0
    }

    /// Undo the last edit: move to the parent of the current revision and
    /// return the inversion that leads there; `None`, and no move, at the root.
    pub fn undo(&mut self) -> (r: Option<&T>)
        requires
            old(self)@.wf(),
        ensures
            final(self)@.wf(),
            old(self)@.current == 0 ==> r is None && final(self)@ == old(self)@,
            old(self)@.current != 0 ==> {
                &&& r == Some(&old(self)@.inversion(old(self)@.current))
                &&& final(self)@ == old(self)@.with_current(old(self)@.parent(old(self)@.current))
            },
    {
        if self.current == 0 {
            return None;
        }
        let current_revision = &self.revisions[self.current];
        proof {
            assert(old(self)@.parent(old(self)@.current) < old(self)@.current);
        }
        self.current = current_revision.parent;
        proof {
            assert(self@.revisions =~= old(self)@.revisions);
            old(self)@.lemma_wf_with_current(old(self)@.parent(old(self)@.current));
        }
        Some(&current_revision.inversion)
    }

    /// Redo the last edit: move to the last child of the current revision and
    /// return the transaction that leads there; `None`, and no move, where
    /// there is no last child.
    pub fn redo(&mut self) -> (r: Option<&T>)
        requires
            old(self)@.wf(),
        ensures
            final(self)@.wf(),
            match old(self)@.last_child(old(self)@.current) {
                None => r is None && final(self)@ == old(self)@,
                Some(c) => {
                    &&& r == Some(&old(self)@.transaction(c))
                    &&& final(self)@ == old(self)@.with_current(c)
                },
            },
    {
        let last_child = match self.revisions[self.current].last_child {
            Some(c) => c,
            None => return None,
        };
        proof {
            assert(old(self)@.last_child(old(self)@.current) is Some);
        }
        self.current = last_child;
        proof {
            assert(self@.revisions =~= old(self)@.revisions);
            old(self)@.lemma_wf_with_current(last_child as nat);
        }
        Some(&self.revisions[last_child].transaction)
    }

    /// The lowest common ancestor of `a` and `b`. A parent comes before its
    /// children, so the later of two distinct revisions is not an ancestor of
    /// the other and can be replaced by its parent until the two meet.
    fn lowest_common_ancestor(&self, a: usize, b: usize) -> (r: usize)
        requires
            self@.wf(),
            a < self@.len(),
            b < self@.len(),
        ensures
            r == self@.lca(a as nat, b as nat),
    {
        let mut a = a;
        let mut b = b;
        let ghost target = self@.lca(a as nat, b as nat);
        while a != b
            invariant
                self@.wf(),
                a < self@.len(),
                b < self@.len(),
                self@.lca(a as nat, b as nat) == target,
            decreases a + b,
        {
            if a > b {
                proof {
                    assert(self@.parent(a as nat) < a);
                }
                a = self.revisions[a].parent;
            } else {
                proof {
                    assert(self@.parent(b as nat) < b);
                }
                b = self.revisions[b].parent;
            }
        }
        a
    }

    /// The revisions on the way from `n` up to its ancestor `a`, `a` left out.
    fn path_up(&self, n: usize, a: usize) -> (path: Vec<usize>)
        requires
            self@.wf(),
            n < self@.len(),
            self@.is_ancestor(a as nat, n as nat),
        ensures
            path@.map_values(|x: usize| x as nat) == self@.path_up(n as nat, a as nat),
    {
        let mut path: Vec<usize> = Vec::new();
        let mut n = n;
        let ghost n0 = n as nat;
        while n != a
            invariant
                self@.wf(),
                n < self@.len(),
                self@.is_ancestor(a as nat, n as nat),
                path@.map_values(|x: usize| x as nat).add(self@.path_up(n as nat, a as nat))
                    == self@.path_up(n0, a as nat),
            decreases n,
        {
            proof {
                assert(self@.parent(n as nat) < n);
                assert(self@.path_up(n as nat, a as nat) == seq![n as nat].add(
                    self@.path_up(self@.parent(n as nat), a as nat),
                ));
            }
            let ghost before = path@.map_values(|x: usize| x as nat);
            path.push(n);
            proof {
                assert(path@.map_values(|x: usize| x as nat) =~= before.push(n as nat));
                assert(before.push(n as nat).add(self@.path_up(self@.parent(n as nat), a as nat))
                    =~= before.add(seq![n as nat].add(
                    self@.path_up(self@.parent(n as nat), a as nat),
                )));
            }
            n = self.revisions[n].parent;
        }
        proof {
            assert(path@.map_values(|x: usize| x as nat).add(Seq::empty()) =~= path@.map_values(
                |x: usize| x as nat,
            ));
        }
        path
    }

    /// The position of the last edit, `None` at the root. Where the position
    /// lies depends on what the transactions hold, which this history does not
    /// look into: `edit_pos` computes it from the transaction and the
    /// inversion of the current revision.
    pub fn last_edit_pos<F: Fn(&T, &T) -> usize>(&self, edit_pos: F) -> (r: Option<usize>)
        requires
            self@.wf(),
            forall|t: &T, i: &T| edit_pos.requires((t, i)),
        ensures
            self@.current == 0 ==> r is None,
            self@.current != 0 ==> (r matches Some(p) && edit_pos.ensures(
                (&self@.transaction(self@.current), &self@.inversion(self@.current)),
                p,
            )),
    {
        if self.current == 0 {
            return None;
        }
        let current_revision = &self.revisions[self.current];
        Some(edit_pos(&current_revision.transaction, &current_revision.inversion))
    }

}

impl<T: Clone> History<T> {
    /// Commit a revision with the current time as its timestamp. See
    /// [`Self::commit_revision_at_timestamp`].
    pub fn commit_revision(&mut self, transaction: &T, inversion: T)
        requires
            old(self)@.wf(),
            old(self)@.len() < usize::MAX,
        ensures
            final(self)@.wf(),
            cloned::<T>(*transaction, final(self)@.transaction(old(self)@.len())),
            final(self)@ == old(self)@.after_commit(
                final(self)@.transaction(old(self)@.len()),
                inversion,
                final(self)@.timestamp(old(self)@.len()),
                false,
            ),
    {
        self.commit_revision_at_timestamp(transaction, inversion, Instant::now());
    }

    /// Commit a revision: it becomes the last child of the current revision
    /// and then the current revision itself. `inversion` is the transaction
    /// that leads back from the new revision to the current one.
    pub fn commit_revision_at_timestamp(&mut self, transaction: &T, inversion: T, timestamp: Instant)
        requires
            old(self)@.wf(),
            old(self)@.len() < usize::MAX,
        ensures
            final(self)@.wf(),
            cloned::<T>(*transaction, final(self)@.transaction(old(self)@.len())),
            final(self)@ == old(self)@.after_commit(
                final(self)@.transaction(old(self)@.len()),
                inversion,
                timestamp,
                false,
            ),
    {
        let new_current = self.revisions.len();
        let cur = self.current;
        self.revisions[cur].last_child = Some(new_current);
        let stored = transaction.clone();
        self.revisions.push(
            Revision {
                parent: cur,
                last_child: None,
                transaction: stored,
                inversion,
                timestamp,
                output: false,
            },
        );
        self.current = new_current;
        proof {
            let expected = old(self)@.after_commit(stored, inversion, timestamp, false);
            assert(self@.revisions =~= expected.revisions);
            let m = self@;
            assert forall|n: nat| 0 < n < m.len() implies #[trigger] m.parent(n) < n by {
                if n < old(self)@.len() {
                    assert(m.parent(n) == old(self)@.parent(n));
                }
            }
            assert forall|n: nat| n < m.len() && #[trigger] m.last_child(n) is Some implies {
                let c = m.last_child(n)->0;
                &&& n < c < m.len()
                &&& m.parent(c) == n
            } by {
                if n != cur && n < old(self)@.len() {
                    assert(m.last_child(n) == old(self)@.last_child(n));
                }
            }
        }
    }

    /// Commit a revision, tagged as plugin output when `output` is set.
    /// Output revisions are skipped by [`Self::undo_user`] and
    /// [`Self::redo_user`], so that a single user undo reverts a user edit
    /// together with the output it produced. With `output` unset this is
    /// [`Self::commit_revision`].
    pub fn commit_revision_tagged(&mut self, transaction: &T, inversion: T, output: bool)
        requires
            old(self)@.wf(),
            old(self)@.len() < usize::MAX,
        ensures
            final(self)@.wf(),
            cloned::<T>(*transaction, final(self)@.transaction(old(self)@.len())),
            final(self)@ == old(self)@.after_commit(
                final(self)@.transaction(old(self)@.len()),
                inversion,
                final(self)@.timestamp(old(self)@.len()),
                output,
            ),
    {
        self.commit_revision_at_timestamp(transaction, inversion, Instant::now());
        let ghost mid = self@;
        let last = self.revisions.len() - 1;
        self.revisions[last].output = output;
        proof {
            let expected = old(self)@.after_commit(
                mid.transaction(old(self)@.len()),
                inversion,
                mid.timestamp(old(self)@.len()),
                output,
            );
            assert(mid.revisions[mid.len() - 1] == mid.revisions.last());
            let lastm = mid.revisions[mid.len() - 1];
            let updated = mid.revisions.update(
                mid.len() - 1,
                RevisionModel { output, ..lastm },
            );
            assert(self@.revisions =~= updated);
            assert(mid == old(self)@.after_commit(
                mid.transaction(old(self)@.len()),
                inversion,
                mid.timestamp(old(self)@.len()),
                false,
            ));
            assert(updated =~= expected.revisions);
            let m = self@;
            assert forall|n: nat| 0 < n < m.len() implies #[trigger] m.parent(n) < n by {
                assert(m.parent(n) == mid.parent(n));
            }
            assert forall|n: nat| n < m.len() && #[trigger] m.last_child(n) is Some implies {
                let c = m.last_child(n)->0;
                &&& n < c < m.len()
                &&& m.parent(c) == n
            } by {
                assert(m.last_child(n) == mid.last_child(n));
            }
        }
    }

    /// The transactions that lead from revision `from` to revision `to`, in
    /// the order to apply.
    fn jump_transactions(&self, from: usize, to: usize) -> (txns: Vec<T>)
        requires
            self@.wf(),
            from < self@.len(),
            to < self@.len(),
        ensures
            all_cloned(self@.jump_steps(from as nat, to as nat), txns@),
    {
        let lca = self.lowest_common_ancestor(from, to);
        proof {
            self@.lemma_lca_is_lowest_common_ancestor(from as nat, to as nat);
            self@.lemma_path_up_bounds(from as nat, lca as nat);
            self@.lemma_path_up_bounds(to as nat, lca as nat);
        }
        let up = self.path_up(from, lca);
        let down = self.path_up(to, lca);
        let ghost up_m = up@.map_values(|x: usize| x as nat);
        let ghost down_m = down@.map_values(|x: usize| x as nat);
        let ghost expected = self@.jump_steps(from as nat, to as nat);
        proof {
            assert(expected == up_m.map_values(|n: nat| self@.inversion(n)).add(
                down_m.reverse().map_values(|n: nat| self@.transaction(n)),
            ));
            assert forall|k: int| 0 <= k < up@.len() implies #[trigger] up@[k] < self@.len() by {
                assert(up_m[k] == up@[k] as nat);
            }
            assert forall|k: int| 0 <= k < down@.len() implies #[trigger] down@[k] < self@.len() by {
                assert(down_m[k] == down@[k] as nat);
            }
        }
        let mut txns: Vec<T> = Vec::new();
        let mut i: usize = 0;
        while i < up.len()
            invariant
                self@.wf(),
                i <= up@.len(),
                txns@.len() == i,
                forall|k: int| 0 <= k < up@.len() ==> #[trigger] up@[k] < self@.len(),
                forall|k: int|
                    0 <= k < i ==> cloned::<T>(
                        self@.inversion(up@[k] as nat),
                        #[trigger] txns@[k],
                    ),
            decreases up@.len() - i,
        {
            let t = self.revisions[up[i]].inversion.clone();
            txns.push(t);
            i = i + 1;
        }
        let mut j: usize = down.len();
        while j > 0
            invariant
                self@.wf(),
                j <= down@.len(),
                txns@.len() == up@.len() + (down@.len() - j),
                forall|k: int| 0 <= k < up@.len() ==> #[trigger] up@[k] < self@.len(),
                forall|k: int| 0 <= k < down@.len() ==> #[trigger] down@[k] < self@.len(),
                forall|k: int|
                    0 <= k < up@.len() ==> cloned::<T>(
                        self@.inversion(up@[k] as nat),
                        #[trigger] txns@[k],
                    ),
                forall|k: int|
                    0 <= k < down@.len() - j ==> cloned::<T>(
                        self@.transaction(down@[down@.len() - 1 - k] as nat),
                        #[trigger] txns@[up@.len() + k],
                    ),
            decreases j,
        {
            j = j - 1;
            let t = self.revisions[down[j]].transaction.clone();
            txns.push(t);
        }
        proof {
            assert forall|k: int| 0 <= k < txns@.len() implies cloned::<T>(
                expected[k],
                #[trigger] txns@[k],
            ) by {
                if k < up@.len() {
                    assert(expected[k] == self@.inversion(up_m[k]));
                } else {
                    let k2 = k - up@.len();
                    assert(txns@[k] == txns@[up@.len() + k2]);
                    assert(expected[k] == self@.transaction(down_m.reverse()[k2]));
                }
            }
        }
        txns
    }

    /// Move to revision `to`, returning the transactions that lead there from
    /// the current revision, in the order to apply.
    fn jump_to(&mut self, to: usize) -> (txns: Vec<T>)
        requires
            old(self)@.wf(),
            to < old(self)@.len(),
        ensures
            final(self)@.wf(),
            final(self)@ == old(self)@.with_current(to as nat),
            all_cloned(old(self)@.jump_steps(old(self)@.current, to as nat), txns@),
    {
        let txns = self.jump_transactions(self.current, to);
        self.current = to;
        proof {
            assert(self@.revisions =~= old(self)@.revisions);
            old(self)@.lemma_wf_with_current(to as nat);
        }
        txns
    }

    /// The changes since revision `revision`: the transactions that lead
    /// from it to the current revision, in the order to apply (their
    /// composition is the change). `None` where there are none.
    pub fn changes_since(&self, revision: usize) -> (r: Option<Vec<T>>)
        requires
            self@.wf(),
            revision < self@.len(),
        ensures
            self@.jump_steps(revision as nat, self@.current).len() == 0 ==> r is None,
            self@.jump_steps(revision as nat, self@.current).len() != 0 ==> (r matches Some(v)
                && all_cloned(self@.jump_steps(revision as nat, self@.current), v@)),
    {
        let txns = self.jump_transactions(revision, self.current);
        if txns.len() == 0 {
            None
        } else {
            Some(txns)
        }
    }


    /// User-facing undo: revert output-tagged revisions together with the
    /// user revision they follow, so that one undo takes back a user edit and
    /// the output it produced. Returns the inversions to apply, in order;
    /// `None`, and no move, at the root. Where the current revision is not
    /// output-tagged this reverts exactly one revision, as [`Self::undo`] does.
    pub fn undo_user(&mut self) -> (r: Option<Vec<T>>)
        requires
            old(self)@.wf(),
        ensures
            final(self)@.wf(),
            old(self)@.current == 0 ==> r is None && final(self)@ == old(self)@,
            old(self)@.current != 0 ==> {
                let t = old(self)@.undo_user_target(old(self)@.current);
                &&& final(self)@ == old(self)@.with_current(t)
                &&& r matches Some(v) && all_cloned(old(self)@.jump_steps(old(self)@.current, t), v@)
            },
    {
        if self.current == 0 {
            return None;
        }
        let ghost start = self@.current;
        let mut node = self.current;
        loop
            invariant_except_break
                self@ == old(self)@,
                old(self)@.wf(),
                0 < node < old(self)@.len(),
                old(self)@.undo_user_target(node as nat) == old(self)@.undo_user_target(start),
            ensures
                self@ == old(self)@,
                node == old(self)@.undo_user_target(start),
            decreases node,
        {
            let output = self.revisions[node].output;
            proof {
                assert(old(self)@.parent(node as nat) < node);
            }
            node = self.revisions[node].parent;
            if !output || node == 0 {
                break;
            }
        }
        proof {
            old(self)@.lemma_undo_user_target_bounds(start);
        }
        Some(self.jump_to(node))
    }

    /// User-facing redo: restore one user revision and the output-tagged
    /// revisions that follow it, stopping before the next user revision; from
    /// inside a run of output revisions, restore the rest of that run. Returns
    /// the transactions to apply, in order; `None`, and no move, where there
    /// is nothing to redo. Where no output-tagged revision follows, this
    /// restores exactly one revision, as [`Self::redo`] does.
    pub fn redo_user(&mut self) -> (r: Option<Vec<T>>)
        requires
            old(self)@.wf(),
        ensures
            final(self)@.wf(),
            match old(self)@.redo_user_target() {
                None => r is None && final(self)@ == old(self)@,
                Some(t) => {
                    &&& final(self)@ == old(self)@.with_current(t)
                    &&& r matches Some(v) && all_cloned(old(self)@.jump_steps(old(self)@.current, t), v@)
                },
            },
    {
        let ghost h = self@;
        let mut node = self.current;
        let in_unit = match self.revisions[node].last_child {
            Some(c) => self.revisions[c].output,
            None => false,
        };
        let mut target: Option<usize> = None;
        let mut seen_user = false;
        loop
            invariant_except_break
                self@ == h,
                h.wf(),
                h.current <= node < h.len(),
                in_unit ==> {
                    &&& h.last_child(h.current) is Some
                    &&& h.is_output(h.last_child(h.current)->0)
                    &&& h.output_run_end(node as nat) == h.output_run_end(h.current)
                    &&& !seen_user
                    &&& target == (if node == h.current { None } else { Some(node) })
                },
                !in_unit && !seen_user ==> node == h.current && target is None,
                !in_unit && seen_user ==> {
                    &&& h.last_child(h.current) is Some
                    &&& !h.is_output(h.last_child(h.current)->0)
                    &&& h.output_run_end(node as nat) == h.output_run_end(
                        h.last_child(h.current)->0,
                    )
                    &&& node >= h.last_child(h.current)->0
                    &&& h.last_child(h.current)->0 > h.current
                    &&& target == Some(node)
                },
                !in_unit ==> (h.last_child(h.current) is Some ==> !h.is_output(
                    h.last_child(h.current)->0,
                )),
            ensures
                self@ == h,
                h.redo_user_target() is None ==> target is None,
                h.redo_user_target() matches Some(t) ==> (t == h.current ==> target is None) && (t
                    != h.current ==> (target matches Some(x) && x as nat == t)),
            decreases h.len() - node,
        {
            let child = match self.revisions[node].last_child {
                Some(c) => c,
                None => {
                    proof {
                        assert(h.output_run_end(node as nat) == node);
                    }
                    break;
                },
            };
            proof {
                assert(h.last_child(node as nat) == Some(child as nat));
                assert(node < child < h.len());
            }
            let child_output = self.revisions[child].output;
            proof {
                if child_output {
                    assert(h.output_run_end(node as nat) == h.output_run_end(child as nat));
                }
            }
            if in_unit {
                if !child_output {
                    proof {
                        assert(h.output_run_end(node as nat) == node);
                    }
                    break;
                }
            } else if seen_user && !child_output {
                proof {
                    assert(h.output_run_end(node as nat) == node);
                }
                break;
            }
            node = child;
            target = Some(node);
            if !child_output {
                seen_user = true;
            }
        }
        proof {
            match h.redo_user_target() {
                None => {},
                Some(t) => {
                    h.lemma_output_run_end_bounds(h.current);
                    match h.last_child(h.current) {
                        Some(c) => {
                            h.lemma_output_run_end_bounds(c);
                            assert(c > h.current);
                            if h.is_output(c) {
                                assert(h.output_run_end(h.current) == h.output_run_end(c));
                            }
                            assert(t > h.current);
                        },
                        None => {},
                    }
                },
            }
        }
        match target {
            Some(t) => Some(self.jump_to(t)),
            None => None,
        }
    }


    /// Searches the timestamps for `instant`: `Ok` with a revision stamped
    /// exactly then, or `Err` with the place where it would be inserted. On
    /// sorted timestamps the revision found is the first one stamped then.
    fn search_instant(&self, instant: &Instant) -> (r: Result<usize, usize>)
        requires
            self@.wf(),
        ensures
            match r {
                Ok(i) => i < self@.len() && self@.timestamp(i as nat)@ == instant@,
                Err(p) => p <= self@.len() && (p < self@.len() ==> self@.timestamp(p as nat)@
                    != instant@),
            },
            self@.timestamps_sorted() ==> match r {
                Ok(i) => self@.is_insertion_point(instant@, i as nat),
                Err(p) => self@.is_insertion_point(instant@, p as nat),
            },
    {
        let mut lo: usize = 0;
        let mut hi: usize = self.revisions.len();
        while lo < hi
            invariant
                self@.wf(),
                lo <= hi <= self@.len(),
                hi == self.revisions@.len() || hi < self@.len(),
                self@.len() == self.revisions@.len(),
                self@.timestamps_sorted() ==> forall|i: nat| i < lo ==> #[trigger] self@.timestamp(
                    i,
                )@ < instant@,
                self@.timestamps_sorted() ==> forall|i: nat|
                    hi <= i < self@.len() ==> instant@ <= #[trigger] self@.timestamp(i)@,
            decreases hi - lo,
        {
            let mid = lo + (hi - lo) / 2;
            if self.revisions[mid].timestamp.is_before(instant) {
                proof {
                    if self@.timestamps_sorted() {
                        assert forall|i: nat| i < mid + 1 implies #[trigger] self@.timestamp(i)@
                            < instant@ by {
                            assert(self@.timestamp(i)@ <= self@.timestamp(mid as nat)@);
                        }
                    }
                }
                lo = mid + 1;
            } else {
                proof {
                    if self@.timestamps_sorted() {
                        assert forall|i: nat| mid <= i < self@.len() implies instant@
                            <= #[trigger] self@.timestamp(i)@ by {
                            assert(self@.timestamp(mid as nat)@ <= self@.timestamp(i)@);
                        }
                    }
                }
                hi = mid;
            }
        }
        if lo < self.revisions.len() && self.revisions[lo].timestamp.is_same_as(instant) {
            Ok(lo)
        } else {
            Err(lo)
        }
    }

    /// Of revisions `i - 1` and `i`, the one whose timestamp is nearer to
    /// `instant`, the later one on a tie. A timestamp on the wrong side of
    /// `instant` counts as at distance zero.
    fn revision_closer_to_instant(&self, i: usize, instant: &Instant) -> (r: usize)
        requires
            self@.wf(),
            0 < i < self@.len(),
        ensures
            r == (if (if self@.timestamp((i - 1) as nat)@ <= instant@ {
                instant@ - self@.timestamp((i - 1) as nat)@
            } else {
                0
            }) < (if instant@ <= self@.timestamp(i as nat)@ {
                self@.timestamp(i as nat)@ - instant@
            } else {
                0
            }) {
                i - 1
            } else {
                i as int
            }),
    {
        let dur_im1 = instant.duration_since(&self.revisions[i - 1].timestamp);
        let dur_i = self.revisions[i].timestamp.duration_since(instant);
        if dur_im1.is_shorter_than(&dur_i) {
            i - 1
        } else {
            i
        }
    }

    /// Move to the revision created nearest to `instant`, returning the
    /// transactions that lead there, in the order to apply.
    fn jump_instant(&mut self, instant: Instant) -> (txns: Vec<T>)
        requires
            old(self)@.wf(),
        ensures
            final(self)@.wf(),
            old(self)@.is_instant_target(instant@, final(self)@.current),
            final(self)@ == old(self)@.with_current(final(self)@.current),
            all_cloned(old(self)@.jump_steps(old(self)@.current, final(self)@.current), txns@),
    {
        let ghost h = self@;
        let ghost t = instant@;
        let found = self.search_instant(&instant);
        let revision = match found {
            Ok(revision) => revision,
            Err(insert_point) => {
                if insert_point == 0 {
                    0
                } else if insert_point == self.revisions.len() {
                    insert_point - 1
                } else {
                    self.revision_closer_to_instant(insert_point, &instant)
                }
            },
        };
        proof {
            assert(h.len() == self.revisions@.len());
            if h.timestamps_sorted() {
                let p: nat = match found {
                    Ok(i) => i as nat,
                    Err(q) => q as nat,
                };
                assert(h.is_insertion_point(t, p));
                if p > 0 && p < h.len() {
                    assert(h.timestamp((p - 1) as nat)@ < t);
                    assert(t <= h.timestamp(p)@);
                }
                assert(revision == h.nearest_revision(t, p));
            }
        }
        self.jump_to(revision)
    }


    /// Move `delta` revisions back in the order of creation, stopping at the
    /// root.
    fn jump_backward(&mut self, delta: usize) -> (txns: Vec<T>)
        requires
            old(self)@.wf(),
        ensures
            final(self)@.wf(),
            final(self)@.current == (if delta <= old(self)@.current {
                old(self)@.current - delta
            } else {
                0
            }),
            final(self)@ == old(self)@.with_current(final(self)@.current),
            all_cloned(old(self)@.jump_steps(old(self)@.current, final(self)@.current), txns@),
    {
        self.jump_to(self.current.saturating_sub(delta))
    }

    /// Move `delta` revisions forward in the order of creation, stopping at
    /// the last revision.
    fn jump_forward(&mut self, delta: usize) -> (txns: Vec<T>)
        requires
            old(self)@.wf(),
        ensures
            final(self)@.wf(),
            final(self)@.current == (if old(self)@.current + delta < old(self)@.len() {
                old(self)@.current + delta
            } else {
                old(self)@.len() - 1
            }),
            final(self)@ == old(self)@.with_current(final(self)@.current),
            all_cloned(old(self)@.jump_steps(old(self)@.current, final(self)@.current), txns@),
    {
        let last = self.revisions.len() - 1;
        let ahead = self.current.saturating_add(delta);
        let to = if ahead < last {
            ahead
        } else {
            last
        };
        self.jump_to(to)
    }

    /// Move to the revision created nearest to `duration` before the current
    /// revision; to the root where that is before the epoch.
    fn jump_duration_backward(&mut self, duration: Duration) -> (txns: Vec<T>)
        requires
            old(self)@.wf(),
        ensures
            final(self)@.wf(),
            ({
                let stamp = old(self)@.timestamp(old(self)@.current)@;
                if duration@ <= stamp {
                    old(self)@.is_instant_target((stamp - duration@) as nat, final(self)@.current)
                } else {
                    final(self)@.current == 0
                }
            }),
            final(self)@ == old(self)@.with_current(final(self)@.current),
            all_cloned(old(self)@.jump_steps(old(self)@.current, final(self)@.current), txns@),
    {
        match self.revisions[self.current].timestamp.checked_sub(duration) {
            Some(instant) => self.jump_instant(instant),
            None => self.jump_to(0),
        }
    }

    /// Move to the revision created nearest to `duration` after the current
    /// revision; to the last revision where that is beyond the range of time.
    fn jump_duration_forward(&mut self, duration: Duration) -> (txns: Vec<T>)
        requires
            old(self)@.wf(),
        ensures
            final(self)@.wf(),
            ({
                let stamp = old(self)@.timestamp(old(self)@.current)@;
                if stamp + duration@ <= max_nanos() {
                    old(self)@.is_instant_target(stamp + duration@, final(self)@.current)
                } else {
                    final(self)@.current == old(self)@.len() - 1
                }
            }),
            final(self)@ == old(self)@.with_current(final(self)@.current),
            all_cloned(old(self)@.jump_steps(old(self)@.current, final(self)@.current), txns@),
    {
        match self.revisions[self.current].timestamp.checked_add(duration) {
            Some(instant) => self.jump_instant(instant),
            None => {
                let last = self.revisions.len() - 1;
                self.jump_to(last)
            },
        }
    }

    /// Undo by a number of revisions or a span of time: returns the
    /// transactions to apply, in order.
    pub fn earlier(&mut self, uk: UndoKind) -> (txns: Vec<T>)
        requires
            old(self)@.wf(),
        ensures
            final(self)@.wf(),
            match uk {
                UndoKind::Steps(n) => final(self)@.current == (if n <= old(self)@.current {
                    old(self)@.current - n
                } else {
                    0
                }),
                UndoKind::TimePeriod(d) => {
                    let stamp = old(self)@.timestamp(old(self)@.current)@;
                    if d@ <= stamp {
                        old(self)@.is_instant_target((stamp - d@) as nat, final(self)@.current)
                    } else {
                        final(self)@.current == 0
                    }
                },
            },
            final(self)@ == old(self)@.with_current(final(self)@.current),
            all_cloned(old(self)@.jump_steps(old(self)@.current, final(self)@.current), txns@),
    {
        match uk {
            UndoKind::Steps(n) => self.jump_backward(n),
            UndoKind::TimePeriod(d) => self.jump_duration_backward(d),
        }
    }

    /// Redo by a number of revisions or a span of time: returns the
    /// transactions to apply, in order.
    pub fn later(&mut self, uk: UndoKind) -> (txns: Vec<T>)
        requires
            old(self)@.wf(),
        ensures
            final(self)@.wf(),
            match uk {
                UndoKind::Steps(n) => final(self)@.current == (if old(self)@.current + n < old(
                    self,
                )@.len() {
                    old(self)@.current + n
                } else {
                    old(self)@.len() - 1
                }),
                UndoKind::TimePeriod(d) => {
                    let stamp = old(self)@.timestamp(old(self)@.current)@;
                    if stamp + d@ <= max_nanos() {
                        old(self)@.is_instant_target(stamp + d@, final(self)@.current)
                    } else {
                        final(self)@.current == old(self)@.len() - 1
                    }
                },
            },
            final(self)@ == old(self)@.with_current(final(self)@.current),
            all_cloned(old(self)@.jump_steps(old(self)@.current, final(self)@.current), txns@),
    {
        match uk {
            UndoKind::Steps(n) => self.jump_forward(n),
            UndoKind::TimePeriod(d) => self.jump_duration_forward(d),
        }
    }

}

} // verus!
