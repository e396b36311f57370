//! A map from source line indices to what is shown at them.

use vstd::prelude::*;

use std::collections::HashMap;
use vstd::std_specs::iter::IteratorSpec;

verus! {

broadcast use vstd::std_specs::hash::group_hash_axioms;

/// The keys of `m`, each once, in the order the map yields them.
fn keys_of<V>(m: &HashMap<usize, V>) -> (r: Vec<usize>)
    ensures
        r@.to_set() == m@.dom(),
        r@.no_duplicates(),
{
    let mut r: Vec<usize> = Vec::new();
    let ghost keys = vstd::std_specs::hash::spec_keys_iter(m).remaining();
    for k in it: m.keys()
        invariant
            it.seq() == keys,
            r@.len() == it.index(),
            forall|j: int| 0 <= j < it.index() ==> r@[j] == *keys[j],
    {
        r.push(*k);
    }
    proof {
        assert(r@ =~= keys.unref());
    }
    r
}


/// The map that results from moving each entry of `old`, taken in the order
/// of `keys`, to the line that `outs` gives for it, and dropping those given
/// none: an entry moved later replaces one moved earlier to the same line.
pub open spec fn moved_lines<V>(old: Map<usize, V>, keys: Seq<usize>, outs: Seq<Option<usize>>) -> Map<
    usize,
    V,
>
    decreases keys.len(),
{
    if keys.len() == 0 || outs.len() != keys.len() {
        Map::empty()
    } else {
        let before = moved_lines(old, keys.drop_last(), outs.drop_last());
        match outs.last() {
            Some(n) => before.insert(n, old[keys.last()]),
            None => before,
        }
    }
}

/// Moving entries gives a line an entry exactly where some entry moved to
/// it, and then the entry moved there last: a later move to the same line
/// replaces an earlier one.
pub proof fn lemma_moved_lines_last_wins<V>(old: Map<usize, V>, keys: Seq<usize>, outs: Seq<Option<usize>>, n: usize)
    requires
        outs.len() == keys.len(),
    ensures
        moved_lines(old, keys, outs).contains_key(n) <==> exists|i: int|
            0 <= i < outs.len() && #[trigger] outs[i] == Some(n),
        forall|i: int|
            0 <= i < outs.len() && #[trigger] outs[i] == Some(n) && (forall|j: int|
                i < j < outs.len() ==> outs[j] != Some(n)) ==> moved_lines(old, keys, outs)[n]
                == old[keys[i]],
    decreases keys.len(),
{
    if keys.len() > 0 {
        let k2 = keys.drop_last();
        let o2 = outs.drop_last();
        lemma_moved_lines_last_wins(old, k2, o2, n);
        let last = outs.len() - 1;
        assert(outs.last() == outs[last]);
        assert forall|i: int| 0 <= i < o2.len() implies #[trigger] o2[i] == outs[i] by {}
        if outs[last] == Some(n) {
            assert forall|i: int|
                0 <= i < outs.len() && #[trigger] outs[i] == Some(n) && (forall|j: int|
                    i < j < outs.len() ==> outs[j] != Some(n)) implies moved_lines(old, keys, outs)[n]
                == old[keys[i]] by {
                if i < last {
                    assert(outs[last] != Some(n));
                }
            }
        } else {
            if exists|i: int| 0 <= i < outs.len() && #[trigger] outs[i] == Some(n) {
                let i = choose|i: int| 0 <= i < outs.len() && #[trigger] outs[i] == Some(n);
                assert(o2[i] == Some(n));
            }
            assert forall|i: int|
                0 <= i < outs.len() && #[trigger] outs[i] == Some(n) && (forall|j: int|
                    i < j < outs.len() ==> outs[j] != Some(n)) implies moved_lines(old, keys, outs)[n]
                == old[keys[i]] by {
                assert(o2[i] == Some(n));
                assert forall|j: int| i < j < o2.len() implies o2[j] != Some(n) by {
                    assert(o2[j] == outs[j]);
                }
                assert(k2[i] == keys[i]);
            }
        }
    }
}

/// Moving entries brings in no new value: where every value of `old` at
/// the lines taken passes `p`, every value after the move does.
proof fn lemma_moved_lines_values<V>(old: Map<usize, V>, keys: Seq<usize>, outs: Seq<Option<usize>>, p: spec_fn(V) -> bool)
    requires
        forall|i: int| 0 <= i < keys.len() ==> p(old[#[trigger] keys[i]]),
    ensures
        forall|n: usize| #[trigger] moved_lines(old, keys, outs).contains_key(n) ==> p(moved_lines(old, keys, outs)[n]),
    decreases keys.len(),
{
    if keys.len() > 0 && outs.len() == keys.len() {
        let k2 = keys.drop_last();
        assert forall|i: int| 0 <= i < k2.len() implies p(old[#[trigger] k2[i]]) by {
            assert(k2[i] == keys[i]);
        }
        lemma_moved_lines_values(old, k2, outs.drop_last(), p);
        assert(p(old[keys[keys.len() - 1]]));
        let before = moved_lines(old, k2, outs.drop_last());
        assert forall|n: usize| #[trigger] moved_lines(old, keys, outs).contains_key(n) implies p(
            moved_lines(old, keys, outs)[n],
        ) by {
            match outs.last() {
                Some(m) => {
                    if n != m {
                        assert(before.contains_key(n));
                    }
                },
                None => {},
            }
        }
    }
}

/// Remapping brings in no new value: where every value before passes `p`,
/// every value after does.
pub proof fn lemma_remapped_values<V>(
    before: Map<usize, V>,
    after: Map<usize, V>,
    moves: spec_fn(usize, Option<usize>) -> bool,
    p: spec_fn(V) -> bool,
)
    requires
        remapped_with(before, after, moves),
        forall|line: usize| #[trigger] before.contains_key(line) ==> p(before[line]),
    ensures
        forall|line: usize| #[trigger] after.contains_key(line) ==> p(after[line]),
{
    let (keys, outs) = choose|keys: Seq<usize>, outs: Seq<Option<usize>>|
        {
            &&& keys.no_duplicates()
            &&& keys.to_set() == before.dom()
            &&& outs.len() == keys.len()
            &&& forall|i: int| 0 <= i < keys.len() ==> moves(keys[i], #[trigger] outs[i])
            &&& after == moved_lines(before, keys, outs)
        };
    assert forall|i: int| 0 <= i < keys.len() implies p(before[#[trigger] keys[i]]) by {
        assert(keys.to_set().contains(keys[i]));
    }
    lemma_moved_lines_values(before, keys, outs, p);
}

/// `after` is `before` with every entry moved to a line that `moves` allows
/// for its line, or dropped where `moves` allows none: the entries are taken
/// in some order, each once.
pub open spec fn remapped_with<V>(
    before: Map<usize, V>,
    after: Map<usize, V>,
    moves: spec_fn(usize, Option<usize>) -> bool,
) -> bool {
    exists|keys: Seq<usize>, outs: Seq<Option<usize>>|
        #![trigger moved_lines(before, keys, outs)]
        {
            &&& keys.no_duplicates()
            &&& keys.to_set() == before.dom()
            &&& outs.len() == keys.len()
            &&& forall|i: int| 0 <= i < keys.len() ==> moves(keys[i], #[trigger] outs[i])
            &&& after == moved_lines(before, keys, outs)
        }
}

/// `after` is `before` with every entry moved to the line `f` gave for its
/// line, the entries taken in some order, each once, and `f` called once for
/// each.
pub open spec fn remapped_by<V, F: Fn(usize) -> Option<usize>>(
    before: Map<usize, V>,
    after: Map<usize, V>,
    f: F,
) -> bool {
    remapped_with(before, after, |line: usize, out: Option<usize>| f.ensures((line,), out))
}

/// A map keyed by a `usize` index: a 0-based source line, or a view.
#[derive(Debug)]
pub struct IndexMap<V> {
    map: HashMap<usize, V>,
}

impl<V> View for IndexMap<V> {
    type V = Map<usize, V>;

    closed spec fn view(&self) -> Map<usize, V> {
        self.map@
    }
}

impl<V> IndexMap<V> {
    /// An empty map.
    pub fn new() -> (r: Self)
        ensures
            r@ == Map::<usize, V>::empty(),
    {
        IndexMap { map: HashMap::new() }
    }

    /// Whether no line has an entry.
    pub fn is_empty(&self) -> (r: bool)
        ensures
            r == (self@.dom() == Set::<usize>::empty()),
    {
        let r = self.map.is_empty();
        proof {
            if !r {
                let k = self@.dom().choose();
                assert(self@.dom().contains(k));
            } else {
                assert(self@.dom() =~= Set::<usize>::empty());
            }
        }
        r
    }

    /// The entry of `line`, if it has one.
    pub fn get(&self, line: usize) -> (r: Option<&V>)
        ensures
            match r {
                Some(v) => self@.contains_key(line) && *v == self@[line],
                None => !self@.contains_key(line),
            },
    {
        self.map.get(&line)
    }

    /// Whether `line` has an entry.
    pub fn contains(&self, line: usize) -> (r: bool)
        ensures
            r == self@.contains_key(line),
    {
        self.map.contains_key(&line)
    }

    /// Gives `line` the entry `value`, replacing any it had.
    pub fn insert(&mut self, line: usize, value: V)
        ensures
            final(self)@ == old(self)@.insert(line, value),
    {
        self.map.insert(line, value);
    }

    /// The keys of the map, each once, in the order the map yields them.
    pub fn keys(&self) -> (r: Vec<usize>)
        ensures
            r@.to_set() == self@.dom(),
            r@.no_duplicates(),
    {
        keys_of(&self.map)
    }

    /// Removes the entry of `line` and hands it out, if it has one.
    pub fn take(&mut self, line: usize) -> (r: Option<V>)
        ensures
            final(self)@ == old(self)@.remove(line),
            match r {
                Some(v) => old(self)@.contains_key(line) && v == old(self)@[line],
                None => !old(self)@.contains_key(line),
            },
    {
        self.map.remove(&line)
    }

    /// Removes the entry of `line`, if any.
    pub fn remove(&mut self, line: usize)
        ensures
            final(self)@ == old(self)@.remove(line),
    {
        self.map.remove(&line);
    }

    /// Removes every entry.
    pub fn clear(&mut self)
        ensures
            final(self)@ == Map::<usize, V>::empty(),
    {
        self.map.clear();
    }

    /// Moves every entry to the line `f` gives for its line, dropping the
    /// entries `f` gives none. The entries are taken in the order the map
    /// yields them, which is not fixed: where two entries move to one line,
    /// the one taken later stays.
    pub fn remap<F: Fn(usize) -> Option<usize>>(&mut self, f: F)
        requires
            forall|line: usize| f.requires((line,)),
        ensures
            remapped_by(old(self)@, final(self)@, f),
    {
        let ghost orig = self@;
        if self.map.is_empty() {
            proof {
                assert(orig.dom() =~= Set::<usize>::empty());
                let keys = Seq::<usize>::empty();
                let outs = Seq::<Option<usize>>::empty();
                assert(keys.to_set() =~= orig.dom());
                assert(self@ =~= moved_lines(orig, keys, outs));
                assert(remapped_by(orig, self@, f));
            }
            return;
        }
        let mut old_map: HashMap<usize, V> = HashMap::new();
        std::mem::swap(&mut old_map, &mut self.map);
        let keys = keys_of(&old_map);
        let ghost mut outs: Seq<Option<usize>> = Seq::empty();
        let mut i: usize = 0;
        while i < keys.len()
            invariant
                orig == old(self)@,
                keys@.no_duplicates(),
                keys@.to_set() == orig.dom(),
                i <= keys@.len(),
                outs.len() == i,
                forall|j: int| 0 <= j < i ==> f.ensures((keys@[j],), #[trigger] outs[j]),
                forall|line: usize| f.requires((line,)),
                forall|j: int|
                    i <= j < keys@.len() ==> old_map@.contains_key(#[trigger] keys@[j]) && old_map@[keys@[j]]
                        == orig[keys@[j]],
                self@ == moved_lines(orig, keys@.take(i as int), outs),
            decreases keys@.len() - i,
        {
            let k = keys[i];
            let out = f(k);
            let ghost before_map = old_map@;
            let taken = old_map.remove(&k);
            proof {
                assert(old_map@ == before_map.remove(k));
                assert forall|j: int| i + 1 <= j < keys@.len() implies old_map@.contains_key(
                    #[trigger] keys@[j],
                ) && old_map@[keys@[j]] == orig[keys@[j]] by {
                    assert(keys@[j] != keys@[i as int]);
                    assert(before_map.contains_key(keys@[j]));
                }
                assert(keys@.take(i as int + 1).drop_last() =~= keys@.take(i as int));
                assert(keys@.take(i as int + 1).last() == k);
                assert(outs.push(out).drop_last() =~= outs);
            }
            match out {
                Some(n) => {
                    match taken {
                        Some(v) => {
                            self.map.insert(n, v);
                        },
                        None => {},
                    }
                },
                None => {},
            }
            proof {
                outs = outs.push(out);
            }
            i = i + 1;
        }
        proof {
            assert(keys@.take(i as int) =~= keys@);
            assert(remapped_by(orig, self@, f));
        }
    }
}

impl<V: Clone> Clone for IndexMap<V> {
    fn clone(&self) -> (r: Self)
        ensures
            r@ == self@,
    {
        IndexMap { map: self.map.clone() }
    }
}

} // verus!
