//! A map from string keys to values, kept as a vector of entries with
//! pairwise distinct keys.

use vstd::prelude::*;

verus! {

/// The map that a sequence of entries describes: later entries win.
pub open spec fn map_of<V>(s: Seq<(String, V)>) -> Map<Seq<char>, V>
    decreases s.len(),
{
    if s.len() == 0 {
        Map::empty()
    } else {
        map_of(s.drop_last()).insert(s.last().0@, s.last().1)
    }
}

/// No two entries share a key.
pub open spec fn distinct_keys<V>(s: Seq<(String, V)>) -> bool {
    forall|i: int, j: int| 0 <= i < j < s.len() ==> s[i].0@ != s[j].0@
}

/// A key is in the map exactly when some entry holds it.
proof fn lemma_map_of_dom<V>(s: Seq<(String, V)>, k: Seq<char>)
    ensures
        map_of(s).contains_key(k) <==> exists|i: int| 0 <= i < s.len() && s[i].0@ == k,
    decreases s.len(),
{
    if s.len() > 0 {
        lemma_map_of_dom(s.drop_last(), k);
        if map_of(s.drop_last()).contains_key(k) {
            let i = choose|i: int| 0 <= i < s.len() - 1 && s.drop_last()[i].0@ == k;
            assert(s[i].0@ == k);
        }
        if exists|i: int| 0 <= i < s.len() && s[i].0@ == k {
            let i = choose|i: int| 0 <= i < s.len() && s[i].0@ == k;
            if i < s.len() - 1 {
                assert(s.drop_last()[i].0@ == k);
            }
        }
    }
}

/// With distinct keys, each entry gives the value of its key.
proof fn lemma_map_of_index<V>(s: Seq<(String, V)>, i: int)
    requires
        distinct_keys(s),
        0 <= i < s.len(),
    ensures
        map_of(s).contains_key(s[i].0@),
        map_of(s)[s[i].0@] == s[i].1,
    decreases s.len(),
{
    if i < s.len() - 1 {
        assert(distinct_keys(s.drop_last()));
        lemma_map_of_index(s.drop_last(), i);
        assert(s.drop_last()[i] == s[i]);
    }
}

/// A map from strings to values of type `V`.
pub struct StrMap<V> {
    entries: Vec<(String, V)>,
}

impl<V> View for StrMap<V> {
    type V = Map<Seq<char>, V>;

    closed spec fn view(&self) -> Map<Seq<char>, V> {
        map_of(self.entries@)
    }
}

impl<V> StrMap<V> {
    #[verifier::type_invariant]
    spec fn inv(self) -> bool {
        distinct_keys(self.entries@)
    }

    /// Position of the entry for `key`, if any.
    fn find(&self, key: &str) -> (r: Option<usize>)
        ensures
            match r {
                Some(i) => i < self.entries@.len() && self.entries@[i as int].0@ == key@,
                None => forall|i: int| 0 <= i < self.entries@.len() ==> self.entries@[i].0@ != key@,
            },
    {
        let wanted = String::from_str(key);
        let mut i: usize = 0;
        while i < self.entries.len()
            invariant
                i <= self.entries@.len(),
                wanted@ == key@,
                forall|j: int| 0 <= j < i ==> self.entries@[j].0@ != key@,
            decreases self.entries@.len() - i,
        {
            if self.entries[i].0 == wanted {
                return Some(i);
            }
            i = i + 1;
        }
        None
    }

    /// An empty map.
    pub fn new() -> (r: Self)
        ensures
            r@ == Map::<Seq<char>, V>::empty(),
    {
        StrMap { entries: Vec::new() }
    }

    proof fn lemma_dom_len(&self)
        requires
            distinct_keys(self.entries@),
        ensures
            self@.dom().len() == self.entries@.len(),
            self@.dom().finite(),
    {
        let s = self.entries@;
        lemma_dom_len_seq(s);
    }

    /// Sets the value of `key` to `value`, replacing any value it had.
    pub fn insert(&mut self, key: String, value: V)
        ensures
            final(self)@ == old(self)@.insert(key@, value),
    {
        proof {
            use_type_invariant(&*self);
        }
        match self.find(key.as_str()) {
            Some(i) => {
                let ghost s = self.entries@;
                let mut entries = Vec::new();
                std::mem::swap(&mut entries, &mut self.entries);
                entries.set(i, (key, value));
                let ghost t = entries@;
                assert(distinct_keys(t));
                proof {
                    assert forall|k: Seq<char>|
                        #[trigger] map_of(t).contains_key(k) == map_of(s).contains_key(k) by {
                        lemma_map_of_dom(t, k);
                        lemma_map_of_dom(s, k);
                        if map_of(t).contains_key(k) {
                            let j = choose|j: int| 0 <= j < t.len() && t[j].0@ == k;
                            assert(s[j].0@ == k);
                        }
                        if map_of(s).contains_key(k) {
                            let j = choose|j: int| 0 <= j < s.len() && s[j].0@ == k;
                            assert(t[j].0@ == k);
                        }
                    }
                    assert forall|k: Seq<char>| #![auto] map_of(t).contains_key(k)
                        implies map_of(t)[k] == map_of(s).insert(t[i as int].0@, t[i as int].1)[k] by {
                        lemma_map_of_dom(t, k);
                        let j = choose|j: int| 0 <= j < t.len() && t[j].0@ == k;
                        lemma_map_of_index(t, j);
                        if j != i {
                            lemma_map_of_index(s, j);
                        }
                    }
                    lemma_map_of_index(s, i as int);
                    assert(map_of(t) =~= map_of(s).insert(t[i as int].0@, t[i as int].1));
                }
                self.entries = entries;
            },
            None => {
                let ghost s = self.entries@;
                let mut entries = Vec::new();
                std::mem::swap(&mut entries, &mut self.entries);
                entries.push((key, value));
                assert(entries@.drop_last() =~= s);
                self.entries = entries;
            },
        }
    }

    /// The value of `key`, if it has one.
    pub fn get(&self, key: &str) -> (r: Option<&V>)
        ensures
            match r {
                Some(v) => self@.contains_key(key@) && *v == self@[key@],
                None => !self@.contains_key(key@),
            },
    {
        proof {
            use_type_invariant(self);
            lemma_map_of_dom(self.entries@, key@);
        }
        match self.find(key) {
            Some(i) => {
                proof {
                    lemma_map_of_index(self.entries@, i as int);
                }
                Some(&self.entries[i].1)
            },
            None => None,
        }
    }

    /// Does `key` have a value?
    pub fn contains_key(&self, key: &str) -> (r: bool)
        ensures
            r == self@.contains_key(key@),
    {
        proof {
            lemma_map_of_dom(self.entries@, key@);
        }
        self.find(key).is_some()
    }

    /// The keys, each once, in no particular order.
    pub fn keys(&self) -> (r: Vec<String>)
        ensures
            r@.len() == self@.dom().len(),
            forall|i: int| 0 <= i < r@.len() ==> #[trigger] self@.contains_key(r@[i]@),
            forall|k: Seq<char>| #[trigger] self@.contains_key(k)
                ==> exists|i: int| 0 <= i < r@.len() && r@[i]@ == k,
            forall|i: int, j: int| 0 <= i < j < r@.len() ==> r@[i]@ != r@[j]@,
    {
        proof {
            use_type_invariant(self);
            self.lemma_dom_len();
        }
        let mut r: Vec<String> = Vec::new();
        let mut i: usize = 0;
        while i < self.entries.len()
            invariant
                i <= self.entries@.len(),
                distinct_keys(self.entries@),
                r@.len() == i,
                forall|j: int| 0 <= j < i ==> r@[j]@ == self.entries@[j].0@,
            decreases self.entries@.len() - i,
        {
            r.push(self.entries[i].0.clone());
            i = i + 1;
        }
        proof {
            assert forall|j: int| 0 <= j < r@.len() implies #[trigger] self@.contains_key(r@[j]@) by {
                lemma_map_of_index(self.entries@, j);
            }
            assert forall|k: Seq<char>| #[trigger] self@.contains_key(k)
                implies exists|j: int| 0 <= j < r@.len() && r@[j]@ == k by {
                lemma_map_of_dom(self.entries@, k);
                let j = choose|j: int| 0 <= j < self.entries@.len() && self.entries@[j].0@ == k;
                assert(r@[j]@ == k);
            }
        }
        r
    }

    /// Some value of the map, if it has any: the one stored first.
    pub fn first_value(&self) -> (r: Option<&V>)
        ensures
            match r {
                Some(v) => exists|k: Seq<char>| self@.contains_key(k) && self@[k] == *v,
                None => self@ == Map::<Seq<char>, V>::empty(),
            },
    {
        proof {
            use_type_invariant(self);
        }
        if self.entries.len() > 0 {
            proof {
                lemma_map_of_index(self.entries@, 0);
                let k0 = self.entries@[0].0@;
                assert(self@.contains_key(k0) && self@[k0] == self.entries@[0].1);
            }
            Some(&self.entries[0].1)
        } else {
            None
        }
    }

    /// Adds every entry of `other`, whose values win over those already here.
    pub fn extend(&mut self, other: StrMap<V>)
        ensures
            final(self)@ == old(self)@.union_prefer_right(other@),
    {
        proof {
            use_type_invariant(&other);
        }
        let StrMap { entries: mut rest } = other;
        while rest.len() > 0
            invariant
                distinct_keys(rest@),
                self@.union_prefer_right(map_of(rest@)) == old(self)@.union_prefer_right(other@),
            decreases rest@.len(),
        {
            let ghost before = rest@;
            let ghost prev = self@;
            match rest.pop() {
                Some((k, v)) => {
                    proof {
                        let p = before.drop_last();
                        assert(p =~= rest@);
                        assert(distinct_keys(p));
                        lemma_map_of_dom(p, k@);
                        if map_of(p).contains_key(k@) {
                            let i = choose|i: int| 0 <= i < p.len() && p[i].0@ == k@;
                            assert(before[i].0@ == before[before.len() - 1].0@);
                        }
                    }
                    self.insert(k, v);
                    assert(self@.union_prefer_right(map_of(rest@))
                        =~= prev.union_prefer_right(map_of(before)));
                },
                None => {},
            }
        }
        assert(self@.union_prefer_right(map_of(rest@)) =~= self@);
    }

    /// Removes every key.
    pub fn clear(&mut self)
        ensures
            final(self)@ == Map::<Seq<char>, V>::empty(),
    {
        self.entries = Vec::new();
    }
}

proof fn lemma_dom_len_seq<V>(s: Seq<(String, V)>)
    requires
        distinct_keys(s),
    ensures
        map_of(s).dom().finite(),
        map_of(s).dom().len() == s.len(),
    decreases s.len(),
{
    if s.len() > 0 {
        let p = s.drop_last();
        assert(distinct_keys(p));
        lemma_dom_len_seq(p);
        lemma_map_of_dom(p, s.last().0@);
        if map_of(p).contains_key(s.last().0@) {
            let i = choose|i: int| 0 <= i < p.len() && p[i].0@ == s.last().0@;
            assert(s[i].0@ == s[s.len() - 1].0@);
        }
    }
}

} // verus!
