//! The key→value mapping the pipeline works on. Keys are unique; a value is
//! either translatable text or an opaque leaf (held in serialized form) that
//! is passed through untouched. The mapping keeps its entries in insertion
//! order; its view is the `Map` from key characters to value models.

use vstd::prelude::*;
use vstd::string::StringExecFns;

verus! {

/// A value of a mapping entry: text subject to translation, or an opaque
/// leaf carried through unchanged in its serialized form.
pub enum EntryValue {
    Text(String),
    Opaque(String),
}

/// The mathematical shape of an [`EntryValue`].
pub enum ValueModel {
    Text(Seq<char>),
    Opaque(Seq<char>),
}

impl View for EntryValue {
    type V = ValueModel;

    open spec fn view(&self) -> ValueModel {
        match self {
            EntryValue::Text(s) => ValueModel::Text(s@),
            EntryValue::Opaque(s) => ValueModel::Opaque(s@),
        }
    }
}

impl Clone for EntryValue {
    fn clone(&self) -> (r: Self)
        ensures
            r@ == self@,
    {
        match self {
            EntryValue::Text(s) => EntryValue::Text(s.clone()),
            EntryValue::Opaque(s) => EntryValue::Opaque(s.clone()),
        }
    }
}

struct Pair {
    key: String,
    value: EntryValue,
}

/// The map described by a sequence of key/value entries: later entries win,
/// though under [`distinct_keys`] there is nothing to win over.
pub open spec fn map_of(es: Seq<(Seq<char>, ValueModel)>) -> Map<Seq<char>, ValueModel>
    decreases es.len(),
{
    if es.len() == 0 {
        Map::empty()
    } else {
        map_of(es.drop_last()).insert(es.last().0, es.last().1)
    }
}

/// The map after inserting each entry of `es` into `m`, in order.
pub open spec fn insert_entries(
    m: Map<Seq<char>, ValueModel>,
    es: Seq<(Seq<char>, ValueModel)>,
) -> Map<Seq<char>, ValueModel>
    decreases es.len(),
{
    if es.len() == 0 {
        m
    } else {
        insert_entries(m, es.drop_last()).insert(es.last().0, es.last().1)
    }
}

/// What `insert_entries` holds: the keys of both sides; an inserted key that
/// occurs once in `es` holds its entry's value, an untouched key keeps its
/// old value.
pub proof fn lemma_insert_entries_contains(
    m: Map<Seq<char>, ValueModel>,
    es: Seq<(Seq<char>, ValueModel)>,
    k: Seq<char>,
)
    ensures
        insert_entries(m, es).contains_key(k) <==> (m.contains_key(k) || exists|j: int|
            0 <= j < es.len() && (#[trigger] es[j]).0 == k),
        (forall|j: int| 0 <= j < es.len() ==> (#[trigger] es[j]).0 != k) && m.contains_key(k)
            ==> insert_entries(m, es)[k] == m[k],
    decreases es.len(),
{
    if es.len() > 0 {
        lemma_insert_entries_contains(m, es.drop_last(), k);
        assert(forall|j: int| 0 <= j < es.len() - 1 ==> es.drop_last()[j] == es[j]);
        if exists|j: int| 0 <= j < es.len() && (#[trigger] es[j]).0 == k {
            let j = choose|j: int| 0 <= j < es.len() && (#[trigger] es[j]).0 == k;
            if j < es.len() - 1 {
                assert(es.drop_last()[j].0 == k);
            }
        }
    }
}

pub open spec fn distinct_keys(es: Seq<(Seq<char>, ValueModel)>) -> bool {
    forall|i: int, j: int| 0 <= i < j < es.len() ==> es[i].0 != es[j].0
}

/// The position of key `k` in a key sequence with distinct members.
pub open spec fn key_index(ks: Seq<Seq<char>>, k: Seq<char>) -> int {
    choose|i: int| 0 <= i < ks.len() && ks[i] == k
}

pub struct Mapping {
    pairs: Vec<Pair>,
}

impl View for Mapping {
    type V = Map<Seq<char>, ValueModel>;

    open spec fn view(&self) -> Map<Seq<char>, ValueModel> {
        map_of(self.entries())
    }
}

impl Mapping {
    /// The entries in order: key characters paired with value models.
    pub closed spec fn entries(self) -> Seq<(Seq<char>, ValueModel)> {
        Seq::new(self.pairs@.len(), |i: int| (self.pairs@[i].key@, self.pairs@[i].value@))
    }

    /// The keys in entry order.
    pub open spec fn keys(self) -> Seq<Seq<char>> {
        Seq::new(self.entries().len(), |i: int| self.entries()[i].0)
    }

    /// Key uniqueness, the invariant every operation preserves.
    pub open spec fn wf(self) -> bool {
        distinct_keys(self.entries())
    }

    pub fn new() -> (r: Mapping)
        ensures
            r.wf(),
            r.entries() == Seq::<(Seq<char>, ValueModel)>::empty(),
            r@ == Map::<Seq<char>, ValueModel>::empty(),
    {
        let r = Mapping { pairs: Vec::new() };
        proof {
            assert(r.entries() =~= Seq::<(Seq<char>, ValueModel)>::empty());
        }
        r
    }

    pub fn len(&self) -> (n: usize)
        ensures
            n == self.entries().len(),
    {
        self.pairs.len()
    }

    pub fn is_empty(&self) -> (r: bool)
        ensures
            r == (self.entries().len() == 0),
    {
        self.pairs.len() == 0
    }

    pub fn key_at(&self, i: usize) -> (r: &String)
        requires
            i < self.entries().len(),
        ensures
            r@ == self.keys()[i as int],
    {
        &self.pairs[i].key
    }

    pub fn value_at(&self, i: usize) -> (r: &EntryValue)
        requires
            i < self.entries().len(),
        ensures
            r@ == self.entries()[i as int].1,
    {
        &self.pairs[i].value
    }

    fn index_of(&self, k: &str) -> (r: Option<usize>)
        ensures
            match r {
                Some(i) => i < self.entries().len() && self.entries()[i as int].0 == k@
                    && forall|j: int| 0 <= j < i ==> self.entries()[j].0 != k@,
                None => forall|j: int|
                    0 <= j < self.entries().len() ==> self.entries()[j].0 != k@,
            },
    {
        let needle = String::from_str(k);
        let mut i: usize = 0;
        while i < self.pairs.len()
            invariant
                0 <= i <= self.pairs@.len(),
                needle@ == k@,
                forall|j: int| 0 <= j < i ==> self.entries()[j].0 != k@,
            decreases self.pairs@.len() - i,
        {
            if self.pairs[i].key == needle {
                return Some(i);
            }
            i = i + 1;
        }
        None
    }

    pub fn contains_key(&self, k: &str) -> (r: bool)
        requires
            self.wf(),
        ensures
            r == self@.contains_key(k@),
    {
        proof {
            lemma_map_of_contains(self.entries(), k@);
        }
        let r = self.index_of(k);
        match r {
            Some(_) => true,
            None => false,
        }
    }

    pub fn get(&self, k: &str) -> (r: Option<&EntryValue>)
        requires
            self.wf(),
        ensures
            match r {
                Some(v) => self@.contains_key(k@) && v@ == self@[k@],
                None => !self@.contains_key(k@),
            },
    {
        proof {
            lemma_map_of_contains(self.entries(), k@);
        }
        let idx = self.index_of(k);
        match idx {
            Some(i) => {
                proof {
                    lemma_map_of_index(self.entries(), i as int);
                }
                Some(&self.pairs[i].value)
            },
            None => None,
        }
    }

    /// Adds or overwrites the entry for `k`. An existing key keeps its
    /// position; a new key goes to the end.
    pub fn insert(&mut self, k: String, v: EntryValue)
        requires
            old(self).wf(),
        ensures
            final(self).wf(),
            final(self)@ == old(self)@.insert(k@, v@),
            old(self)@.contains_key(k@) ==> final(self).entries() == old(self).entries().update(
                key_index(old(self).keys(), k@),
                (k@, v@),
            ),
            !old(self)@.contains_key(k@) ==> final(self).entries() == old(self).entries().push(
                (k@, v@),
            ),
            final(self).keys() == if old(self)@.contains_key(k@) {
                old(self).keys()
            } else {
                old(self).keys().push(k@)
            },
    {
        proof {
            lemma_map_of_contains(self.entries(), k@);
        }
        let ghost es0 = self.entries();
        let idx = self.index_of(&k.as_str());
        match idx {
            Some(i) => {
                proof {
                    assert(0 <= i < es0.len() && es0[i as int].0 == k@);
                    assert(forall|j: int| 0 <= j < i ==> es0[j].0 != k@);
                    assert(key_index(old(self).keys(), k@) == i as int) by {
                        let w = key_index(old(self).keys(), k@);
                        assert(old(self).keys()[i as int] == k@);
                        if w != i as int {
                            assert(es0[w].0 == k@ && es0[i as int].0 == k@);
                        }
                    }
                }
                self.pairs[i].value = v;
                proof {
                    assert(self.entries() =~= es0.update(i as int, (k@, v@)));
                    lemma_map_of_update(es0, i as int, v@);
                    assert(self.keys() =~= old(self).keys());
                }
            },
            None => {
                self.pairs.push(Pair { key: k, value: v });
                proof {
                    assert(self.entries() =~= es0.push((k@, v@)));
                    assert(self.entries().drop_last() =~= es0);
                    assert(self.keys() =~= old(self).keys().push(k@));
                }
            },
        }
    }

    /// Removes the entry for `k` if it is there; other entries keep their
    /// order.
    pub fn remove(&mut self, k: &str)
        requires
            old(self).wf(),
        ensures
            final(self).wf(),
            final(self)@ == old(self)@.remove(k@),
            !old(self)@.contains_key(k@) ==> final(self).entries() == old(self).entries(),
            old(self)@.contains_key(k@) ==> final(self).entries() == old(self).entries().remove(
                key_index(old(self).keys(), k@),
            ),
    {
        proof {
            lemma_map_of_contains(self.entries(), k@);
        }
        let ghost es0 = self.entries();
        let idx = self.index_of(k);
        match idx {
            Some(i) => {
                proof {
                    assert(key_index(old(self).keys(), k@) == i as int) by {
                        let w = key_index(old(self).keys(), k@);
                        assert(old(self).keys()[i as int] == k@);
                        if w != i as int {
                            assert(es0[w].0 == k@ && es0[i as int].0 == k@);
                        }
                    }
                }
                self.pairs.remove(i);
                proof {
                    assert(self.entries() =~= es0.remove(i as int));
                    lemma_map_of_remove(es0, i as int);
                }
            },
            None => {
                proof {
                    lemma_map_of_remove_absent(es0, k@);
                    assert(self.entries() =~= es0);
                }
            },
        }
    }
}

impl Clone for Mapping {
    fn clone(&self) -> (r: Self)
        ensures
            r.entries() == self.entries(),
            r@ == self@,
            r.wf() == self.wf(),
    {
        let mut out: Vec<Pair> = Vec::new();
        let mut i: usize = 0;
        while i < self.pairs.len()
            invariant
                0 <= i <= self.pairs@.len(),
                out@.len() == i,
                forall|j: int|
                    0 <= j < i ==> out@[j].key@ == self.pairs@[j].key@ && out@[j].value@
                        == self.pairs@[j].value@,
            decreases self.pairs@.len() - i,
        {
            out.push(
                Pair { key: self.pairs[i].key.clone(), value: self.pairs[i].value.clone() },
            );
            i = i + 1;
        }
        let r = Mapping { pairs: out };
        proof {
            assert(r.entries() =~= self.entries());
        }
        r
    }
}

/// A key is in the map exactly when some entry holds it.
pub proof fn lemma_map_of_contains(es: Seq<(Seq<char>, ValueModel)>, k: Seq<char>)
    ensures
        map_of(es).contains_key(k) <==> exists|i: int| 0 <= i < es.len() && es[i].0 == k,
    decreases es.len(),
{
    if es.len() > 0 {
        lemma_map_of_contains(es.drop_last(), k);
        if es.last().0 == k {
            assert(es[es.len() - 1].0 == k);
        } else {
            if map_of(es).contains_key(k) {
                let i = choose|i: int| 0 <= i < es.drop_last().len() && es.drop_last()[i].0 == k;
                assert(es[i].0 == k);
            }
            if exists|i: int| 0 <= i < es.len() && es[i].0 == k {
                let i = choose|i: int| 0 <= i < es.len() && es[i].0 == k;
                assert(i < es.len() - 1);
                assert(es.drop_last()[i].0 == k);
            }
        }
    }
}

/// Under distinct keys, the map agrees with each entry.
pub proof fn lemma_map_of_index(es: Seq<(Seq<char>, ValueModel)>, i: int)
    requires
        distinct_keys(es),
        0 <= i < es.len(),
    ensures
        map_of(es).contains_key(es[i].0),
        map_of(es)[es[i].0] == es[i].1,
    decreases es.len(),
{
    if i == es.len() - 1 {
    } else {
        assert(distinct_keys(es.drop_last()));
        assert(es.drop_last()[i] == es[i]);
        lemma_map_of_index(es.drop_last(), i);
        assert(es.last().0 != es[i].0);
    }
}

proof fn lemma_map_of_update(es: Seq<(Seq<char>, ValueModel)>, i: int, v: ValueModel)
    requires
        distinct_keys(es),
        0 <= i < es.len(),
    ensures
        distinct_keys(es.update(i, (es[i].0, v))),
        map_of(es.update(i, (es[i].0, v))) == map_of(es).insert(es[i].0, v),
    decreases es.len(),
{
    let es1 = es.update(i, (es[i].0, v));
    assert(distinct_keys(es1)) by {
        assert(forall|a: int| 0 <= a < es.len() ==> es1[a].0 == es[a].0);
    }
    if i == es.len() - 1 {
        assert(es1.drop_last() =~= es.drop_last());
        assert(es1.last() == (es[i].0, v));
        assert(map_of(es1) =~= map_of(es).insert(es[i].0, v));
    } else {
        assert(distinct_keys(es.drop_last()));
        assert(es.drop_last()[i] == es[i]);
        lemma_map_of_update(es.drop_last(), i, v);
        assert(es1.drop_last() =~= es.drop_last().update(i, (es[i].0, v)));
        assert(es1.last() == es.last());
        assert(es.last().0 != es[i].0);
        assert(map_of(es1) =~= map_of(es).insert(es[i].0, v));
    }
}

proof fn lemma_map_of_remove(es: Seq<(Seq<char>, ValueModel)>, i: int)
    requires
        distinct_keys(es),
        0 <= i < es.len(),
    ensures
        distinct_keys(es.remove(i)),
        map_of(es.remove(i)) == map_of(es).remove(es[i].0),
    decreases es.len(),
{
    let es1 = es.remove(i);
    assert(distinct_keys(es1)) by {
        assert(forall|a: int|
            0 <= a < es1.len() ==> es1[a] == (if a < i {
                es[a]
            } else {
                es[a + 1]
            }));
    }
    if i == es.len() - 1 {
        assert(es1 =~= es.drop_last());
        lemma_map_of_contains(es.drop_last(), es[i].0);
        assert(forall|j: int| 0 <= j < es.drop_last().len() ==> es.drop_last()[j] == es[j]);
        assert(!map_of(es.drop_last()).contains_key(es[i].0));
        assert(map_of(es1) =~= map_of(es).remove(es[i].0));
    } else {
        assert(distinct_keys(es.drop_last()));
        assert(es.drop_last()[i] == es[i]);
        lemma_map_of_remove(es.drop_last(), i);
        assert(es1.drop_last() =~= es.drop_last().remove(i));
        assert(es1.last() == es.last());
        assert(es.last().0 != es[i].0);
        assert(map_of(es1) =~= map_of(es).remove(es[i].0));
    }
}

proof fn lemma_map_of_remove_absent(es: Seq<(Seq<char>, ValueModel)>, k: Seq<char>)
    requires
        !map_of(es).contains_key(k),
    ensures
        map_of(es) == map_of(es).remove(k),
{
    assert(map_of(es) =~= map_of(es).remove(k));
}

} // verus!
