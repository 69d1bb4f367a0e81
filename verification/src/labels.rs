//! The labels of a sample: a mapping from label name to label value that is
//! kept, and handed out, in increasing order of the names.

use crate::text::chars_of;
use vstd::prelude::*;

verus! {

/// A label as the specifications see it: its name and its value.
pub type Pair = (Seq<char>, Seq<char>);

/// The order of label names: lexicographic by code point, a proper prefix
/// before the longer name. This is the order in which `str` compares.
pub open spec fn name_before(a: Seq<char>, b: Seq<char>) -> bool
    decreases a.len(),
{
    if b.len() == 0 {
        false
    } else if a.len() == 0 {
        true
    } else if a[0] == b[0] {
        name_before(a.drop_first(), b.drop_first())
    } else {
        a[0] < b[0]
    }
}

/// Whether the names of `pairs` strictly increase; no name occurs twice then.
pub open spec fn increasing(pairs: Seq<Pair>) -> bool {
    forall|i: int, j: int|
        0 <= i < j < pairs.len() ==> name_before(#[trigger] pairs[i].0, #[trigger] pairs[j].0)
}

/// The mapping that results from setting the labels of `pairs` one after the
/// other, first to last: where a name occurs more than once, its last value
/// stays.
pub open spec fn pairs_map(pairs: Seq<Pair>) -> Map<Seq<char>, Seq<char>>
    decreases pairs.len(),
{
    if pairs.len() == 0 {
        Map::empty()
    } else {
        pairs_map(pairs.drop_last()).insert(pairs.last().0, pairs.last().1)
    }
}

/// No name comes before itself.
pub proof fn lemma_name_before_irreflexive(a: Seq<char>)
    ensures
        !name_before(a, a),
    decreases a.len(),
{
    if a.len() > 0 {
        lemma_name_before_irreflexive(a.drop_first());
    }
}

/// The order of names is transitive.
pub proof fn lemma_name_before_transitive(a: Seq<char>, b: Seq<char>, c: Seq<char>)
    requires
        name_before(a, b),
        name_before(b, c),
    ensures
        name_before(a, c),
    decreases a.len(),
{
    if a.len() > 0 && a[0] == b[0] && b[0] == c[0] {
        lemma_name_before_transitive(a.drop_first(), b.drop_first(), c.drop_first());
    }
}

/// The order of names is total: of two different names one comes first.
pub proof fn lemma_name_before_total(a: Seq<char>, b: Seq<char>)
    ensures
        a == b || name_before(a, b) || name_before(b, a),
    decreases a.len(),
{
    if a.len() == 0 || b.len() == 0 {
        if a.len() == 0 && b.len() == 0 {
            assert(a =~= b);
        }
    } else if a[0] == b[0] {
        lemma_name_before_total(a.drop_first(), b.drop_first());
        if a.drop_first() == b.drop_first() {
            assert(a =~= seq![a[0]] + a.drop_first());
            assert(b =~= seq![b[0]] + b.drop_first());
        }
    }
}

/// The mapping of a sequence of labels has exactly the names that occur in
/// it.
pub proof fn lemma_pairs_map_names(pairs: Seq<Pair>, name: Seq<char>)
    ensures
        pairs_map(pairs).dom().finite(),
        pairs_map(pairs).contains_key(name) <==> exists|i: int|
            0 <= i < pairs.len() && (#[trigger] pairs[i]).0 == name,
    decreases pairs.len(),
{
    if pairs.len() > 0 {
        let front = pairs.drop_last();
        lemma_pairs_map_names(front, name);
        if pairs_map(pairs).contains_key(name) {
            if pairs.last().0 == name {
                assert(pairs[pairs.len() - 1].0 == name);
            } else {
                let i = choose|i: int| 0 <= i < front.len() && (#[trigger] front[i]).0 == name;
                assert(pairs[i].0 == name);
            }
        } else {
            assert forall|i: int| 0 <= i < pairs.len() implies (#[trigger] pairs[i]).0
                != name by {
                if i < front.len() {
                    assert(front[i].0 != name);
                }
            }
        }
    }
}

/// Last occurrence wins: the mapping of a sequence of labels gives a name
/// the value of the last label that has that name.
pub proof fn lemma_last_occurrence_wins(pairs: Seq<Pair>, i: int)
    requires
        0 <= i < pairs.len(),
        forall|j: int| i < j < pairs.len() ==> (#[trigger] pairs[j]).0 != pairs[i].0,
    ensures
        pairs_map(pairs).contains_key(pairs[i].0),
        pairs_map(pairs)[pairs[i].0] == pairs[i].1,
    decreases pairs.len(),
{
    if i < pairs.len() - 1 {
        let front = pairs.drop_last();
        assert(pairs[pairs.len() - 1].0 != pairs[i].0);
        assert forall|j: int| i < j < front.len() implies (#[trigger] front[j]).0
            != front[i].0 by {
            assert(pairs[j].0 != pairs[i].0);
        }
        lemma_last_occurrence_wins(front, i);
    }
}

/// As many names as labels, where no name occurs twice.
pub proof fn lemma_pairs_map_len(pairs: Seq<Pair>)
    requires
        increasing(pairs),
    ensures
        pairs_map(pairs).dom().finite(),
        pairs_map(pairs).dom().len() == pairs.len(),
    decreases pairs.len(),
{
    if pairs.len() > 0 {
        let front = pairs.drop_last();
        let last = pairs.last();
        assert forall|i: int, j: int| 0 <= i < j < front.len() implies name_before(
            #[trigger] front[i].0,
            #[trigger] front[j].0,
        ) by {
            assert(name_before(pairs[i].0, pairs[j].0));
        }
        lemma_pairs_map_len(front);
        lemma_pairs_map_names(front, last.0);
        if pairs_map(front).contains_key(last.0) {
            let i = choose|i: int| 0 <= i < front.len() && (#[trigger] front[i]).0 == last.0;
            assert(name_before(pairs[i].0, pairs[pairs.len() - 1].0));
            lemma_name_before_irreflexive(last.0);
        }
    } else {
        lemma_pairs_map_names(pairs, Seq::empty());
    }
}

/// Putting a label whose name occurs nowhere from `at` on into a sequence at
/// `at` sets that name in the mapping and leaves the others.
proof fn lemma_pairs_map_insert(pairs: Seq<Pair>, at: int, pair: Pair)
    requires
        0 <= at <= pairs.len(),
        forall|j: int| at <= j < pairs.len() ==> (#[trigger] pairs[j]).0 != pair.0,
    ensures
        pairs_map(pairs.insert(at, pair)) == pairs_map(pairs).insert(pair.0, pair.1),
    decreases pairs.len() - at,
{
    let longer = pairs.insert(at, pair);
    if at == pairs.len() {
        assert(longer.drop_last() =~= pairs);
    } else {
        let front = pairs.drop_last();
        let last = pairs.last();
        assert(pairs[pairs.len() - 1].0 != pair.0);
        assert(longer.drop_last() =~= front.insert(at, pair));
        assert(longer.last() == last);
        assert forall|j: int| at <= j < front.len() implies (#[trigger] front[j]).0
            != pair.0 by {
            assert(pairs[j].0 != pair.0);
        }
        lemma_pairs_map_insert(front, at, pair);
        assert(pairs_map(front).insert(pair.0, pair.1).insert(last.0, last.1) =~= pairs_map(
            front,
        ).insert(last.0, last.1).insert(pair.0, pair.1));
    }
}

/// Replacing the value of the label at `at`, whose name occurs nowhere after
/// `at`, sets that name in the mapping and leaves the others.
proof fn lemma_pairs_map_update(pairs: Seq<Pair>, at: int, value: Seq<char>)
    requires
        0 <= at < pairs.len(),
        forall|j: int| at < j < pairs.len() ==> (#[trigger] pairs[j]).0 != pairs[at].0,
    ensures
        pairs_map(pairs.update(at, (pairs[at].0, value))) == pairs_map(pairs).insert(
            pairs[at].0,
            value,
        ),
    decreases pairs.len() - at,
{
    let name = pairs[at].0;
    let changed = pairs.update(at, (name, value));
    let front = pairs.drop_last();
    let last = pairs.last();
    if at == pairs.len() - 1 {
        assert(changed.drop_last() =~= front);
        assert(pairs_map(front).insert(name, value) =~= pairs_map(front).insert(
            name,
            last.1,
        ).insert(name, value));
    } else {
        assert(pairs[pairs.len() - 1].0 != name);
        assert(changed.drop_last() =~= front.update(at, (name, value)));
        assert(changed.last() == last);
        assert forall|j: int| at < j < front.len() implies (#[trigger] front[j]).0
            != front[at].0 by {
            assert(pairs[j].0 != pairs[at].0);
        }
        lemma_pairs_map_update(front, at, value);
        assert(pairs_map(front).insert(name, value).insert(last.0, last.1) =~= pairs_map(
            front,
        ).insert(last.0, last.1).insert(name, value));
    }
}

/// The labels of an entry list, as the specifications see them.
pub open spec fn pairs_of(entries: Seq<(String, String)>) -> Seq<Pair> {
    Seq::new(entries.len(), |i: int| (entries[i].0@, entries[i].1@))
}

/// Whether `a` comes before `b` in the order of label names.
fn chars_before(a: &Vec<char>, b: &Vec<char>) -> (r: bool)
    ensures
        r == name_before(a@, b@),
{
    let mut i: usize = 0;
    assert(a@.skip(0) =~= a@ && b@.skip(0) =~= b@);
    while i < a.len() && i < b.len()
        invariant
            i <= a@.len(),
            i <= b@.len(),
            name_before(a@, b@) == name_before(a@.skip(i as int), b@.skip(i as int)),
        decreases a@.len() - i,
    {
        let ghost x = a@.skip(i as int);
        let ghost y = b@.skip(i as int);
        if a[i] != b[i] {
            return a[i] < b[i];
        }
        proof {
            assert(x.drop_first() =~= a@.skip(i + 1));
            assert(y.drop_first() =~= b@.skip(i + 1));
        }
        i += 1;
    }
    i < b.len()
}

/// Labels by name. Each name has one value; the entries are held in
/// increasing order of the names.
#[derive(Debug, PartialEq)]
pub struct Labels {
    entries: Vec<(String, String)>,
}

impl View for Labels {
    type V = Map<Seq<char>, Seq<char>>;

    closed spec fn view(&self) -> Map<Seq<char>, Seq<char>> {
        pairs_map(pairs_of(self.entries@))
    }
}

impl Clone for Labels {
    fn clone(&self) -> (copy: Self)
        ensures
            copy@ == self@,
    {
        proof {
            use_type_invariant(self);
        }
        let mut entries: Vec<(String, String)> = Vec::new();
        let mut i: usize = 0;
        while i < self.entries.len()
            invariant
                i <= self.entries@.len(),
                entries@ == self.entries@.take(i as int),
            decreases self.entries@.len() - i,
        {
            entries.push((self.entries[i].0.clone(), self.entries[i].1.clone()));
            assert(entries@ =~= self.entries@.take(i + 1));
            i += 1;
        }
        assert(entries@ =~= self.entries@);
        Labels { entries }
    }
}

impl Labels {
    #[verifier::type_invariant]
    spec fn ordered(&self) -> bool {
        increasing(pairs_of(self.entries@))
    }

    /// No labels.
    pub fn new() -> (labels: Self)
        ensures
            labels@ == Map::<Seq<char>, Seq<char>>::empty(),
    {
        Labels { entries: Vec::new() }
    }

    /// Number of labels.
    pub fn len(&self) -> (n: usize)
        ensures
            self@.dom().finite(),
            n == self@.dom().len(),
    {
        proof {
            use_type_invariant(self);
            lemma_pairs_map_len(pairs_of(self.entries@));
        }
        self.entries.len()
    }

    /// Whether there is no label.
    pub fn is_empty(&self) -> (b: bool)
        ensures
            b == (self@ == Map::<Seq<char>, Seq<char>>::empty()),
    {
        proof {
            use_type_invariant(self);
            let pairs = pairs_of(self.entries@);
            if pairs.len() > 0 {
                lemma_last_occurrence_wins(pairs, pairs.len() - 1);
            }
        }
        self.entries.len() == 0
    }

    /// The labels in increasing order of their names, each name once.
    pub fn entries(&self) -> (entries: &Vec<(String, String)>)
        ensures
            increasing(pairs_of(entries@)),
            pairs_map(pairs_of(entries@)) == self@,
            entries@.len() == self@.dom().len(),
    {
        proof {
            use_type_invariant(self);
            lemma_pairs_map_len(pairs_of(self.entries@));
        }
        &self.entries
    }

    /// Position of the first entry whose name does not come before `name`,
    /// and whether that entry has the name itself. The entries are in order,
    /// so the position is found by halving.
    fn position(&self, name: &Vec<char>) -> (r: (usize, bool))
        ensures
            r.0 <= self.entries@.len(),
            r.1 ==> r.0 < self.entries@.len(),
            forall|i: int|
                0 <= i < r.0 ==> name_before(#[trigger] pairs_of(self.entries@)[i].0, name@),
            forall|j: int|
                r.0 <= j < self.entries@.len() ==> if r.1 && j == r.0 {
                    (#[trigger] pairs_of(self.entries@)[j]).0 == name@
                } else {
                    name_before(name@, (#[trigger] pairs_of(self.entries@)[j]).0)
                },
    {
        proof {
            use_type_invariant(self);
        }
        let ghost pairs = pairs_of(self.entries@);
        let mut low: usize = 0;
        let mut high: usize = self.entries.len();
        while low < high
            invariant
                pairs == pairs_of(self.entries@),
                increasing(pairs),
                low <= high <= self.entries@.len(),
                forall|i: int| 0 <= i < low ==> name_before(#[trigger] pairs[i].0, name@),
                forall|j: int|
                    high <= j < pairs.len() ==> !name_before(#[trigger] pairs[j].0, name@),
            decreases high - low,
        {
            let middle = low + (high - low) / 2;
            let held = chars_of(self.entries[middle].0.as_str());
            if chars_before(&held, name) {
                proof {
                    assert forall|i: int| 0 <= i < middle + 1 implies name_before(
                        #[trigger] pairs[i].0,
                        name@,
                    ) by {
                        if i < middle {
                            assert(name_before(pairs[i].0, pairs[middle as int].0));
                            lemma_name_before_transitive(pairs[i].0, held@, name@);
                        }
                    }
                }
                low = middle + 1;
            } else {
                proof {
                    assert forall|j: int| middle <= j < pairs.len() implies !name_before(
                        #[trigger] pairs[j].0,
                        name@,
                    ) by {
                        if j > middle && name_before(pairs[j].0, name@) {
                            assert(name_before(pairs[middle as int].0, pairs[j].0));
                            lemma_name_before_transitive(held@, pairs[j].0, name@);
                        }
                    }
                }
                high = middle;
            }
        }
        let found = if low < self.entries.len() {
            let held = chars_of(self.entries[low].0.as_str());
            !chars_before(name, &held)
        } else {
            false
        };
        proof {
            lemma_name_before_irreflexive(name@);
            assert forall|j: int| low <= j < pairs.len() implies if found && j == low {
                (#[trigger] pairs[j]).0 == name@
            } else {
                name_before(name@, (#[trigger] pairs[j]).0)
            } by {
                lemma_name_before_total(pairs[j].0, name@);
                lemma_name_before_total(pairs[low as int].0, name@);
                if j > low {
                    assert(name_before(pairs[low as int].0, pairs[j].0));
                    if pairs[j].0 == name@ {
                        assert(name_before(pairs[low as int].0, name@));
                    }
                }
            }
        }
        (low, found)
    }

    /// The value of the label `name`, if there is one.
    pub fn get(&self, name: &str) -> (value: Option<&String>)
        ensures
            match value {
                Some(v) => self@.contains_key(name@) && self@[name@] == v@,
                None => !self@.contains_key(name@),
            },
    {
        let key = chars_of(name);
        let (at, found) = self.position(&key);
        let ghost pairs = pairs_of(self.entries@);
        if found {
            proof {
                assert forall|j: int| at < j < pairs.len() implies (#[trigger] pairs[j]).0
                    != pairs[at as int].0 by {
                    assert(name_before(name@, pairs[j].0));
                    lemma_name_before_irreflexive(name@);
                }
                lemma_last_occurrence_wins(pairs, at as int);
            }
            Some(&self.entries[at].1)
        } else {
            proof {
                lemma_pairs_map_names(pairs, name@);
                lemma_name_before_irreflexive(name@);
                assert forall|i: int| 0 <= i < pairs.len() implies (#[trigger] pairs[i]).0
                    != name@ by {
                    if i < at {
                        assert(name_before(pairs[i].0, name@));
                    } else {
                        assert(name_before(name@, pairs[i].0));
                    }
                }
            }
            None
        }
    }

    /// Sets the label `name` to `value`, in place of any value it had.
    pub fn insert(&mut self, name: String, value: String)
        ensures
            final(self)@ == old(self)@.insert(name@, value@),
    {
        let key = chars_of(name.as_str());
        let (at, found) = self.position(&key);
        let ghost pairs = pairs_of(self.entries@);
        proof {
            use_type_invariant(&*self);
            lemma_name_before_irreflexive(name@);
        }
        let mut entries: Vec<(String, String)> = Vec::new();
        std::mem::swap(&mut self.entries, &mut entries);
        if found {
            proof {
                assert forall|j: int| at < j < pairs.len() implies (#[trigger] pairs[j]).0
                    != pairs[at as int].0 by {
                    assert(name_before(name@, pairs[j].0));
                }
                lemma_pairs_map_update(pairs, at as int, value@);
            }
            entries.set(at, (name, value));
            proof {
                let changed = pairs_of(entries@);
                assert(changed =~= pairs.update(at as int, (name@, value@)));
                assert forall|i: int, j: int| 0 <= i < j < changed.len() implies name_before(
                    #[trigger] changed[i].0,
                    #[trigger] changed[j].0,
                ) by {
                    assert(name_before(pairs[i].0, pairs[j].0));
                }
            }
        } else {
            proof {
                assert forall|j: int| at <= j < pairs.len() implies (#[trigger] pairs[j]).0
                    != name@ by {
                    assert(name_before(name@, pairs[j].0));
                }
                lemma_pairs_map_insert(pairs, at as int, (name@, value@));
            }
            entries.insert(at, (name, value));
            proof {
                let longer = pairs_of(entries@);
                assert(longer =~= pairs.insert(at as int, (name@, value@)));
                assert forall|i: int, j: int| 0 <= i < j < longer.len() implies name_before(
                    #[trigger] longer[i].0,
                    #[trigger] longer[j].0,
                ) by {
                    if j < at {
                        assert(name_before(pairs[i].0, pairs[j].0));
                    } else if j == at {
                        assert(name_before(pairs[i].0, name@));
                    } else if i < at {
                        assert(name_before(pairs[i].0, pairs[j - 1].0));
                    } else if i == at {
                        assert(name_before(name@, pairs[j - 1].0));
                    } else {
                        assert(name_before(pairs[i - 1].0, pairs[j - 1].0));
                    }
                }
            }
        }
        self.entries = entries;
    }
}

} // verus!
