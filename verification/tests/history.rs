use helix_notebook::history::{History, UndoKind};
use helix_notebook::history::UndoKind::{Steps, TimePeriod};
use helix_notebook::time::{Duration, Instant};

/// A change of a document: the characters `from..to` replaced by the text,
/// or deleted where there is none.
type Change = (usize, usize, Option<String>);

/// A transaction of one change, as the tests build them.
#[derive(Clone, Debug, Default, PartialEq)]
struct Txn {
    change: Option<Change>,
}

impl Txn {
    fn change(change: Change) -> Txn {
        Txn { change: Some(change) }
    }

    fn apply(&self, doc: &mut String) {
        if let Some((from, to, text)) = &self.change {
            let chars: Vec<char> = doc.chars().collect();
            let mut out: String = chars[..*from].iter().collect();
            if let Some(text) = text {
                out.push_str(text);
            }
            out.extend(chars[*to..].iter());
            *doc = out;
        }
    }

    /// The transaction that undoes this one on `doc`.
    fn invert(&self, doc: &str) -> Txn {
        match &self.change {
            None => Txn::default(),
            Some((from, to, text)) => {
                let chars: Vec<char> = doc.chars().collect();
                let removed: String = chars[*from..*to].iter().collect();
                let inserted = text.as_ref().map_or(0, |t| t.chars().count());
                let restore = if removed.is_empty() { None } else { Some(removed) };
                Txn::change((*from, from + inserted, restore))
            }
        }
    }
}

fn commit(history: &mut History<Txn>, doc: &mut String, change: Change) {
    let txn = Txn::change(change);
    let inversion = txn.invert(doc);
    history.commit_revision(&txn, inversion);
    txn.apply(doc);
}

fn commit_tagged(history: &mut History<Txn>, doc: &mut String, change: Change, output: bool) {
    let txn = Txn::change(change);
    let inversion = txn.invert(doc);
    history.commit_revision_tagged(&txn, inversion, output);
    txn.apply(doc);
}

fn commit_at(history: &mut History<Txn>, doc: &mut String, change: Change, instant: Instant) {
    let txn = Txn::change(change);
    let inversion = txn.invert(doc);
    history.commit_revision_at_timestamp(&txn, inversion, instant);
    txn.apply(doc);
}

fn undo(history: &mut History<Txn>, doc: &mut String) {
    if let Some(txn) = history.undo() {
        txn.clone().apply(doc);
    }
}

fn redo(history: &mut History<Txn>, doc: &mut String) {
    if let Some(txn) = history.redo() {
        txn.clone().apply(doc);
    }
}

fn apply_all(txns: &[Txn], doc: &mut String) {
    for t in txns {
        t.apply(doc);
    }
}

fn text(s: &str) -> Option<String> {
    Some(s.to_string())
}

#[test]
fn test_undo_redo() {
    let mut history: History<Txn> = History::default();
    let mut doc = "hello".to_string();

    commit(&mut history, &mut doc, (5, 5, text(" world!")));
    assert_eq!("hello world!", doc);

    commit(&mut history, &mut doc, (6, 11, text("世界")));
    assert_eq!("hello 世界!", doc);

    undo(&mut history, &mut doc);
    assert_eq!("hello world!", doc);
    redo(&mut history, &mut doc);
    assert_eq!("hello 世界!", doc);
    undo(&mut history, &mut doc);
    undo(&mut history, &mut doc);
    assert_eq!("hello", doc);

    // undo at root is a no-op
    undo(&mut history, &mut doc);
    assert_eq!("hello", doc);
}

#[test]
fn test_earlier_later() {
    let mut history: History<Txn> = History::default();
    let mut doc = "a\n".to_string();

    fn earlier(history: &mut History<Txn>, doc: &mut String, uk: UndoKind) {
        let txns = history.earlier(uk);
        apply_all(&txns, doc);
    }

    fn later(history: &mut History<Txn>, doc: &mut String, uk: UndoKind) {
        let txns = history.later(uk);
        apply_all(&txns, doc);
    }

    let t0 = Instant::now();
    let t = |n| t0.checked_add(Duration::from_secs(n)).unwrap();

    commit_at(&mut history, &mut doc, (1, 1, text(" b")), t(0));
    assert_eq!("a b\n", doc);

    commit_at(&mut history, &mut doc, (3, 3, text(" c")), t(10));
    assert_eq!("a b c\n", doc);

    commit_at(&mut history, &mut doc, (5, 5, text(" d")), t(20));
    assert_eq!("a b c d\n", doc);

    undo(&mut history, &mut doc);
    assert_eq!("a b c\n", doc);

    commit_at(&mut history, &mut doc, (5, 5, text(" e")), t(30));
    assert_eq!("a b c e\n", doc);

    undo(&mut history, &mut doc);
    undo(&mut history, &mut doc);
    assert_eq!("a b\n", doc);

    commit_at(&mut history, &mut doc, (1, 3, None), t(40));
    assert_eq!("a\n", doc);

    commit_at(&mut history, &mut doc, (1, 1, text(" f")), t(50));
    assert_eq!("a f\n", doc);

    earlier(&mut history, &mut doc, Steps(3));
    assert_eq!("a b c d\n", doc);

    later(&mut history, &mut doc, TimePeriod(Duration::new(20, 0)));
    assert_eq!("a\n", doc);

    earlier(&mut history, &mut doc, TimePeriod(Duration::new(19, 0)));
    assert_eq!("a b c d\n", doc);

    earlier(&mut history, &mut doc, TimePeriod(Duration::new(10000, 0)));
    assert_eq!("a\n", doc);

    later(&mut history, &mut doc, Steps(50));
    assert_eq!("a f\n", doc);

    earlier(&mut history, &mut doc, Steps(4));
    assert_eq!("a b c\n", doc);

    later(&mut history, &mut doc, TimePeriod(Duration::new(1, 0)));
    assert_eq!("a b c\n", doc);

    later(&mut history, &mut doc, TimePeriod(Duration::new(5, 0)));
    assert_eq!("a b c d\n", doc);

    later(&mut history, &mut doc, TimePeriod(Duration::new(6, 0)));
    assert_eq!("a b c e\n", doc);

    later(&mut history, &mut doc, Steps(1));
    assert_eq!("a\n", doc);
}

#[test]
fn undo_user_skips_output_revisions() {
    let mut history: History<Txn> = History::default();
    let mut doc = String::new();

    commit(&mut history, &mut doc, (0, 0, text("A")));
    commit_tagged(&mut history, &mut doc, (1, 1, text("B")), true);

    let txns = history.undo_user().expect("something to undo");
    apply_all(&txns, &mut doc);
    assert_eq!("", doc);
    assert!(history.at_root());
}

#[test]
fn undo_user_stops_after_one_user_revision() {
    let mut history: History<Txn> = History::default();
    let mut doc = String::new();
    for ch in ["A", "B"] {
        let len = doc.chars().count();
        commit(&mut history, &mut doc, (len, len, text(ch)));
    }

    let txns = history.undo_user().unwrap();
    apply_all(&txns, &mut doc);
    assert_eq!("A", doc);
}

#[test]
fn redo_user_restores_user_edit_and_following_output() {
    let mut history: History<Txn> = History::default();
    let mut doc = String::new();

    commit(&mut history, &mut doc, (0, 0, text("A")));
    commit_tagged(&mut history, &mut doc, (1, 1, text("B")), true);

    let txns = history.undo_user().unwrap();
    apply_all(&txns, &mut doc);
    assert_eq!("", doc);

    let txns = history.redo_user().unwrap();
    apply_all(&txns, &mut doc);
    assert_eq!("AB", doc);
}

#[test]
fn untagged_history_undo_user_equals_undo() {
    let mut history: History<Txn> = History::default();
    let mut doc = String::new();

    commit(&mut history, &mut doc, (0, 0, text("X")));

    let txns = history.undo_user().unwrap();
    assert_eq!(1, txns.len());
    apply_all(&txns, &mut doc);
    assert_eq!("", doc);
}

fn adv_append(history: &mut History<Txn>, doc: &mut String, ch: &str, output: bool) {
    let len = doc.chars().count();
    commit_tagged(history, doc, (len, len, text(ch)), output);
}

#[test]
fn adv_undo_user_at_root_returns_none() {
    let mut history: History<Txn> = History::default();
    assert!(history.undo_user().is_none());
    assert!(history.at_root());
}

#[test]
fn adv_redo_user_nothing_to_redo_returns_none() {
    let mut history: History<Txn> = History::default();
    assert!(history.redo_user().is_none());
    let mut doc = String::new();
    adv_append(&mut history, &mut doc, "A", false);
    // At the tip, there is nothing to redo.
    assert!(history.redo_user().is_none());
}

#[test]
fn adv_run_of_two_outputs() {
    let mut history: History<Txn> = History::default();
    let mut doc = String::new();
    adv_append(&mut history, &mut doc, "U", false);
    adv_append(&mut history, &mut doc, "O", true);
    adv_append(&mut history, &mut doc, "P", true);
    assert_eq!("UOP", doc);

    let txns = history.undo_user().unwrap();
    apply_all(&txns, &mut doc);
    assert_eq!("", doc);
    assert!(history.at_root());

    let txns = history.redo_user().unwrap();
    apply_all(&txns, &mut doc);
    assert_eq!("UOP", doc);
}

#[test]
fn adv_alternating_user_output() {
    let mut history: History<Txn> = History::default();
    let mut doc = String::new();
    adv_append(&mut history, &mut doc, "1", false);
    adv_append(&mut history, &mut doc, "a", true);
    adv_append(&mut history, &mut doc, "2", false);
    adv_append(&mut history, &mut doc, "b", true);
    assert_eq!("1a2b", doc);

    let txns = history.undo_user().unwrap();
    apply_all(&txns, &mut doc);
    assert_eq!("1a", doc);

    let txns = history.undo_user().unwrap();
    apply_all(&txns, &mut doc);
    assert_eq!("", doc);
    assert!(history.at_root());

    let txns = history.redo_user().unwrap();
    apply_all(&txns, &mut doc);
    assert_eq!("1a", doc);

    let txns = history.redo_user().unwrap();
    apply_all(&txns, &mut doc);
    assert_eq!("1a2b", doc);
}

#[test]
fn adv_leading_output_first_commit() {
    let mut history: History<Txn> = History::default();
    let mut doc = String::new();
    // The very first commit is tagged output (parent is root).
    adv_append(&mut history, &mut doc, "O", true);
    assert_eq!("O", doc);

    let txns = history.undo_user().unwrap();
    apply_all(&txns, &mut doc);
    assert_eq!("", doc);
    assert!(history.at_root());

    // Redo must bring the leading output back.
    let txns = history.redo_user().unwrap();
    apply_all(&txns, &mut doc);
    assert_eq!("O", doc);
}

#[test]
fn adv_branching_with_output() {
    let mut history: History<Txn> = History::default();
    let mut doc = String::new();
    adv_append(&mut history, &mut doc, "x", false);
    adv_append(&mut history, &mut doc, "y", true);
    assert_eq!("xy", doc);

    let txns = history.undo_user().unwrap();
    apply_all(&txns, &mut doc);
    assert_eq!("", doc);

    adv_append(&mut history, &mut doc, "2", false);
    adv_append(&mut history, &mut doc, "b", true);
    assert_eq!("2b", doc);

    let txns = history.undo_user().unwrap();
    apply_all(&txns, &mut doc);
    assert_eq!("", doc);

    // Redo must follow the newer branch, not the old one.
    let txns = history.redo_user().unwrap();
    apply_all(&txns, &mut doc);
    assert_eq!("2b", doc);
}

#[test]
fn adv_redo_user_from_midrun_via_earlier() {
    let mut history: History<Txn> = History::default();
    let mut doc = String::new();
    adv_append(&mut history, &mut doc, "u", false);
    adv_append(&mut history, &mut doc, "1", true);
    adv_append(&mut history, &mut doc, "2", true);
    adv_append(&mut history, &mut doc, "x", false);
    assert_eq!("u12x", doc);

    let t = history.undo().unwrap().clone();
    t.apply(&mut doc);
    let t = history.undo().unwrap().clone();
    t.apply(&mut doc);
    assert_eq!("u1", doc);

    // From mid-run, redo restores only the rest of the output run.
    let txns = history.redo_user().unwrap();
    apply_all(&txns, &mut doc);
    assert_eq!("u12", doc);
}

#[test]
fn test_parse_undo_kind() {

    // Default is one step.
    assert_eq!("".parse(), Ok(Steps(1)));

    // An integer means the number of steps.
    assert_eq!("1".parse(), Ok(Steps(1)));
    assert_eq!("  16 ".parse(), Ok(Steps(16)));

    // Duration has a strict format.
    let validation_err =
        Err("duration should be composed of positive integers followed by time units".to_string());
    assert_eq!("  16 33".parse::<UndoKind>(), validation_err);
    assert_eq!("  seconds 22  ".parse::<UndoKind>(), validation_err);
    assert_eq!("  -4 m".parse::<UndoKind>(), validation_err);
    assert_eq!("5s 3".parse::<UndoKind>(), validation_err);

    // Units are u64.
    assert_eq!(
        "18446744073709551616minutes".parse::<UndoKind>(),
        Err("integer too large: 18446744073709551616".to_string())
    );

    // Units are validated.
    assert_eq!(
        "1 millennium".parse::<UndoKind>(),
        Err("incorrect time unit: millennium".to_string())
    );

    // Units can't be specified twice.
    assert_eq!(
        "2 seconds 6s".parse::<UndoKind>(),
        Err("seconds specified more than once".to_string())
    );

    // Various formats are correctly handled.
    assert_eq!("4s".parse::<UndoKind>(), Ok(TimePeriod(Duration::from_secs(4))));
    assert_eq!("2m".parse::<UndoKind>(), Ok(TimePeriod(Duration::from_secs(120))));
    assert_eq!("5h".parse::<UndoKind>(), Ok(TimePeriod(Duration::from_secs(5 * 60 * 60))));
    assert_eq!("3d".parse::<UndoKind>(), Ok(TimePeriod(Duration::from_secs(3 * 24 * 60 * 60))));
    assert_eq!("1m30s".parse::<UndoKind>(), Ok(TimePeriod(Duration::from_secs(90))));
    assert_eq!("1m 20 seconds".parse::<UndoKind>(), Ok(TimePeriod(Duration::from_secs(80))));
    assert_eq!(
        "  2 minute 1day".parse::<UndoKind>(),
        Ok(TimePeriod(Duration::from_secs(24 * 60 * 60 + 2 * 60)))
    );
    assert_eq!(
        "3 d 2hour 5 minutes 30sec".parse::<UndoKind>(),
        Ok(TimePeriod(Duration::from_secs(3 * 24 * 60 * 60 + 2 * 60 * 60 + 5 * 60 + 30)))
    );

    // Sum overflow is handled.
    assert_eq!(
        "18446744073709551615minutes".parse::<UndoKind>(),
        Err("duration too large".to_string())
    );
    assert_eq!(
        "1 minute 18446744073709551615 seconds".parse::<UndoKind>(),
        Err("duration too large".to_string())
    );
}

#[test]
fn branching_keeps_both_branches() {
    let mut history: History<Txn> = History::default();
    let mut doc = String::new();
    commit(&mut history, &mut doc, (0, 0, text("a")));
    commit(&mut history, &mut doc, (1, 1, text("b")));
    undo(&mut history, &mut doc);
    commit(&mut history, &mut doc, (1, 1, text("c")));
    assert_eq!("ac", doc);
    assert_eq!(history.current_revision(), 3);
    // Going back two steps in time walks back through the old branch.
    let txns = history.earlier(UndoKind::Steps(1));
    apply_all(&txns, &mut doc);
    assert_eq!("ab", doc);
    assert_eq!(history.current_revision(), 2);
}

#[test]
fn changes_since_replays_the_path() {
    let mut history: History<Txn> = History::default();
    let mut doc = String::new();
    commit(&mut history, &mut doc, (0, 0, text("a")));
    commit(&mut history, &mut doc, (1, 1, text("b")));
    let txns = history.changes_since(0).unwrap();
    let mut replay = String::new();
    apply_all(&txns, &mut replay);
    assert_eq!("ab", replay);
    assert!(history.changes_since(2).is_none());
}
