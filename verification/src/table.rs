use vstd::prelude::*;

verus! {

/// Value stored under the key `(a, b)`: the last entry with that key wins.
pub open spec fn find_pair<V>(e: Seq<(String, String, V)>, a: Seq<char>, b: Seq<char>) -> Option<V>
    decreases e.len(),
{
    if e.len() == 0 {
        None
    } else if e.last().0@ == a && e.last().1@ == b {
        Some(e.last().2)
    } else {
        find_pair(e.drop_last(), a, b)
    }
}

/// Value stored under the key `a`: the last entry with that key wins.
pub open spec fn find_name<V>(e: Seq<(String, V)>, a: Seq<char>) -> Option<V>
    decreases e.len(),
{
    if e.len() == 0 {
        None
    } else if e.last().0@ == a {
        Some(e.last().1)
    } else {
        find_name(e.drop_last(), a)
    }
}

proof fn lemma_find_pair_update<V>(
    e: Seq<(String, String, V)>,
    i: int,
    entry: (String, String, V),
    x: Seq<char>,
    y: Seq<char>,
)
    requires
        0 <= i < e.len(),
        entry.0@ == e[i].0@,
        entry.1@ == e[i].1@,
        forall|j: int| i < j < e.len() ==> !(#[trigger] e[j].0@ == e[i].0@ && e[j].1@ == e[i].1@),
    ensures
        find_pair(e.update(i, entry), x, y) == if x == e[i].0@ && y == e[i].1@ {
            Some(entry.2)
        } else {
            find_pair(e, x, y)
        },
    decreases e.len(),
{
    let e2 = e.update(i, entry);
    if i == e.len() - 1 {
        assert(e2.drop_last() =~= e.drop_last());
    } else {
        assert(e2.drop_last() =~= e.drop_last().update(i, entry));
        assert(e2.last() == e.last());
        assert(e.last() == e[e.len() - 1]);
        lemma_find_pair_update(e.drop_last(), i, entry, x, y);
    }
}

proof fn lemma_find_name_update<V>(e: Seq<(String, V)>, i: int, entry: (String, V), x: Seq<char>)
    requires
        0 <= i < e.len(),
        entry.0@ == e[i].0@,
        forall|j: int| i < j < e.len() ==> #[trigger] e[j].0@ != e[i].0@,
    ensures
        find_name(e.update(i, entry), x) == if x == e[i].0@ {
            Some(entry.1)
        } else {
            find_name(e, x)
        },
    decreases e.len(),
{
    let e2 = e.update(i, entry);
    if i == e.len() - 1 {
        assert(e2.drop_last() =~= e.drop_last());
    } else {
        assert(e2.drop_last() =~= e.drop_last().update(i, entry));
        assert(e2.last() == e.last());
        assert(e.last() == e[e.len() - 1]);
        lemma_find_name_update(e.drop_last(), i, entry, x);
    }
}

/// The map that a list of entries keyed by a pair of strings stands for.
pub open spec fn pair_map<V>(e: Seq<(String, String, V)>) -> Map<(Seq<char>, Seq<char>), V> {
    Map::new(
        |k: (Seq<char>, Seq<char>)| find_pair(e, k.0, k.1) is Some,
        |k: (Seq<char>, Seq<char>)| find_pair(e, k.0, k.1).unwrap(),
    )
}

/// The map that a list of entries keyed by a string stands for.
pub open spec fn name_map<V>(e: Seq<(String, V)>) -> Map<Seq<char>, V> {
    Map::new(|k: Seq<char>| find_name(e, k) is Some, |k: Seq<char>| find_name(e, k).unwrap())
}

/// A table keyed by a pair of strings.
pub struct PairTable<V> {
    entries: Vec<(String, String, V)>,
}

impl<V> View for PairTable<V> {
    type V = Map<(Seq<char>, Seq<char>), V>;

    closed spec fn view(&self) -> Map<(Seq<char>, Seq<char>), V> {
        pair_map(self.entries@)
    }
}

impl<V> PairTable<V> {
    pub fn new() -> (t: Self)
        ensures
            t@ == Map::<(Seq<char>, Seq<char>), V>::empty(),
    {

        let t = PairTable { entries: Vec::new() };
        assert(t@ =~= Map::<(Seq<char>, Seq<char>), V>::empty());
        t
    }

    /// The table that a list of entries stands for; later entries win.
    pub fn from_entries(entries: Vec<(String, String, V)>) -> (t: Self)
        ensures
            t@ == pair_map(entries@),
    {
        PairTable { entries }
    }

    /// A list of entries that stands for the table.
    pub fn into_entries(self) -> (e: Vec<(String, String, V)>)
        ensures
            pair_map(e@) == self@,
    {
        self.entries
    }

    /// Position of the last entry with key `(a, b)`.
    fn position(&self, a: &String, b: &String) -> (r: Option<usize>)
        ensures
            r is None ==> find_pair(self.entries@, a@, b@) is None,
            r matches Some(i) ==> {
                &&& i < self.entries@.len()
                &&& self.entries@[i as int].0@ == a@
                &&& self.entries@[i as int].1@ == b@
                &&& find_pair(self.entries@, a@, b@) == Some(self.entries@[i as int].2)
                &&& forall|j: int| i < j < self.entries@.len() ==> !(#[trigger] self.entries@[j].0@ == a@ && self.entries@[j].1@ == b@)
            },
    {
        let mut n = self.entries.len();
        assert(self.entries@.take(n as int) =~= self.entries@);
        while n > 0
            invariant
                n <= self.entries@.len(),
                find_pair(self.entries@, a@, b@) == find_pair(self.entries@.take(n as int), a@, b@),
                forall|j: int| n <= j < self.entries@.len() ==> !(#[trigger] self.entries@[j].0@ == a@ && self.entries@[j].1@ == b@),
            decreases n,
        {
            let e = &self.entries[n - 1];
            let ghost t = self.entries@.take(n as int);
            assert(t.drop_last() =~= self.entries@.take(n - 1));
            assert(t.last() == self.entries@[n - 1]);
            if e.0 == *a && e.1 == *b {
                return Some(n - 1);
            }
            n -= 1;
        }
        None
    }

    /// The value stored under `(a, b)`.
    pub fn get_ref(&self, a: &String, b: &String) -> (r: Option<&V>)
        ensures
            r is Some == self@.contains_key((a@, b@)),
            r matches Some(v) ==> *v == self@[(a@, b@)],
    {
        match self.position(a, b) {
            Some(i) => Some(&self.entries[i].2),
            None => None,
        }
    }

    /// Stores `v` under `(a, b)`, replacing any earlier value.
    pub fn set(&mut self, a: String, b: String, v: V)
        ensures
            final(self)@ == old(self)@.insert((a@, b@), v),
    {
        let ghost key = (a@, b@);
        let ghost before = self@;
        match self.position(&a, &b) {
            Some(i) => {
                let ghost e = self.entries@;
                let entry = (a, b, v);
                proof {
                    assert forall|x: Seq<char>, y: Seq<char>| #[trigger] find_pair(e.update(i as int, entry), x, y) == if x == e[i as int].0@ && y == e[i as int].1@ {
                        Some(v)
                    } else {
                        find_pair(e, x, y)
                    } by {
                        lemma_find_pair_update(e, i as int, entry, x, y);
                    }
                }
                self.entries.set(i, entry);
            },
            None => {
                let ghost e = self.entries@;
                self.entries.push((a, b, v));
                proof {
                    assert forall|x: Seq<char>, y: Seq<char>| #[trigger] find_pair(self.entries@, x, y) == if x == key.0 && y == key.1 {
                        Some(v)
                    } else {
                        find_pair(e, x, y)
                    } by {
                        assert(self.entries@.drop_last() =~= e);
                    }
                }
            },
        }
        assert(self@ =~= before.insert(key, v));
    }
}

impl<V: Copy> PairTable<V> {
    /// The value stored under `(a, b)`.
    pub fn get(&self, a: &String, b: &String) -> (r: Option<V>)
        ensures
            r == if self@.contains_key((a@, b@)) {
                Some(self@[(a@, b@)])
            } else {
                None
            },
    {
        match self.get_ref(a, b) {
            Some(v) => Some(*v),
            None => None,
        }
    }
}

/// A table keyed by a string.
pub struct NameTable<V> {
    entries: Vec<(String, V)>,
}

impl<V> View for NameTable<V> {
    type V = Map<Seq<char>, V>;

    closed spec fn view(&self) -> Map<Seq<char>, V> {
        name_map(self.entries@)
    }
}

/// Position of the last entry with key `a`.
pub(crate) fn name_position<V>(entries: &Vec<(String, V)>, a: &String) -> (r: Option<usize>)
    ensures
        r is None ==> find_name(entries@, a@) is None,
        r matches Some(i) ==> {
            &&& i < entries@.len()
            &&& entries@[i as int].0@ == a@
            &&& find_name(entries@, a@) == Some(entries@[i as int].1)
            &&& forall|j: int| i < j < entries@.len() ==> #[trigger] entries@[j].0@ != a@
        },
{
    let mut n = entries.len();
    assert(entries@.take(n as int) =~= entries@);
    while n > 0
        invariant
            n <= entries@.len(),
            find_name(entries@, a@) == find_name(entries@.take(n as int), a@),
            forall|j: int| n <= j < entries@.len() ==> #[trigger] entries@[j].0@ != a@,
        decreases n,
    {
        let e = &entries[n - 1];
        let ghost t = entries@.take(n as int);
        assert(t.drop_last() =~= entries@.take(n - 1));
        assert(t.last() == entries@[n - 1]);
        if e.0 == *a {
            return Some(n - 1);
        }
        n -= 1;
    }
    None
}

impl<V> NameTable<V> {
    pub fn new() -> (t: Self)
        ensures
            t@ == Map::<Seq<char>, V>::empty(),
    {
        let t = NameTable { entries: Vec::new() };
        assert(t@ =~= Map::<Seq<char>, V>::empty());
        t
    }

    fn position(&self, a: &String) -> (r: Option<usize>)
        ensures
            r is None ==> find_name(self.entries@, a@) is None,
            r matches Some(i) ==> {
                &&& i < self.entries@.len()
                &&& self.entries@[i as int].0@ == a@
                &&& find_name(self.entries@, a@) == Some(self.entries@[i as int].1)
                &&& forall|j: int| i < j < self.entries@.len() ==> #[trigger] self.entries@[j].0@ != a@
            },
    {
        name_position(&self.entries, a)
    }

    /// The table that a list of entries stands for; later entries win.
    pub fn from_entries(entries: Vec<(String, V)>) -> (t: Self)
        ensures
            t@ == name_map(entries@),
    {
        NameTable { entries }
    }

    /// A list of entries that stands for the table.
    pub fn into_entries(self) -> (e: Vec<(String, V)>)
        ensures
            name_map(e@) == self@,
    {
        self.entries
    }

    /// The value stored under `a`.
    pub fn get_ref(&self, a: &String) -> (r: Option<&V>)
        ensures
            r is Some == self@.contains_key(a@),
            r matches Some(v) ==> *v == self@[a@],
    {
        match self.position(a) {
            Some(i) => Some(&self.entries[i].1),
            None => None,
        }
    }

    /// Stores `v` under `a`, replacing any earlier value.
    pub fn set(&mut self, a: String, v: V)
        ensures
            final(self)@ == old(self)@.insert(a@, v),
    {
        let ghost key = a@;
        let ghost before = self@;
        match self.position(&a) {
            Some(i) => {
                let ghost e = self.entries@;
                let entry = (a, v);
                proof {
                    assert forall|x: Seq<char>| #[trigger] find_name(e.update(i as int, entry), x) == if x == e[i as int].0@ {
                        Some(v)
                    } else {
                        find_name(e, x)
                    } by {
                        lemma_find_name_update(e, i as int, entry, x);
                    }
                }
                self.entries.set(i, entry);
            },
            None => {
                let ghost e = self.entries@;
                self.entries.push((a, v));
                proof {
                    assert forall|x: Seq<char>| #[trigger] find_name(self.entries@, x) == if x == key {
                        Some(v)
                    } else {
                        find_name(e, x)
                    } by {
                        assert(self.entries@.drop_last() =~= e);
                    }
                }
            },
        }
        assert(self@ =~= before.insert(key, v));
    }
}

impl<V: Copy> NameTable<V> {
    /// The value stored under `a`.
    pub fn get(&self, a: &String) -> (r: Option<V>)
        ensures
            r == if self@.contains_key(a@) {
                Some(self@[a@])
            } else {
                None
            },
    {
        match self.get_ref(a) {
            Some(v) => Some(*v),
            None => None,
        }
    }
}

impl<T> NameTable<Vec<T>> {
    /// Moves the list stored under `a` out of the table (an empty list when there is none),
    /// leaving an empty list in its place.
    pub fn take_list(&mut self, a: &String) -> (r: Vec<T>)
        ensures
            r@ == if old(self)@.contains_key(a@) {
                old(self)@[a@]@
            } else {
                Seq::<T>::empty()
            },
            final(self)@.dom() == old(self)@.dom(),
            old(self)@.contains_key(a@) ==> final(self)@[a@]@ == Seq::<T>::empty(),
            forall|k: Seq<char>| k != a@ && #[trigger] old(self)@.contains_key(k) ==> final(self)@[k] == old(self)@[k],
    {
        match self.position(a) {
            Some(i) => {
                let ghost e = self.entries@;
                let mut list: Vec<T> = Vec::new();
                std::mem::swap(&mut list, &mut self.entries[i].1);
                proof {
                    let entry = self.entries@[i as int];
                    assert(self.entries@ == e.update(i as int, entry));
                    assert forall|x: Seq<char>| #[trigger] find_name(self.entries@, x) == if x == e[i as int].0@ {
                        Some(entry.1)
                    } else {
                        find_name(e, x)
                    } by {
                        lemma_find_name_update(e, i as int, entry, x);
                    }
                    assert(self@.dom() =~= old(self)@.dom());
                }
                list
            },
            None => Vec::new(),
        }
    }
}

} // verus!
