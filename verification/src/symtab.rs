use vstd::prelude::*;

verus! {

/// Position of the first entry named `name` in `s`, or `s.len()` if there
/// is none.
pub open spec fn first_named<V>(s: Seq<(String, V)>, name: Seq<char>) -> nat
    decreases s.len(),
{
    if s.len() == 0 {
        0
    } else if s[0].0@ == name {
        0
    } else {
        1 + first_named(s.drop_first(), name)
    }
}

/// The value stored under `name`, if any.
pub open spec fn lookup<V>(s: Seq<(String, V)>, name: Seq<char>) -> Option<V> {
    let i = first_named(s, name);
    if i < s.len() {
        Some(s[i as int].1)
    } else {
        None
    }
}

/// The entries after storing `v` under `name`: an entry already named so
/// keeps its place and its key and takes the new value; otherwise the pair
/// is appended.
pub open spec fn store<V>(s: Seq<(String, V)>, name: String, v: V) -> Seq<(String, V)> {
    let i = first_named(s, name@);
    if i < s.len() {
        s.update(i as int, (s[i as int].0, v))
    } else {
        s.push((name, v))
    }
}

/// No two entries share a name.
pub open spec fn distinct_names<V>(s: Seq<(String, V)>) -> bool {
    forall|i: int, j: int| 0 <= i < j < s.len() ==> s[i].0@ != s[j].0@
}

/// `first_named` is the first index whose name matches.
pub proof fn lemma_first_named<V>(s: Seq<(String, V)>, name: Seq<char>)
    ensures
        first_named(s, name) <= s.len(),
        first_named(s, name) < s.len() ==> s[first_named(s, name) as int].0@ == name,
        forall|j: int| 0 <= j < first_named(s, name) ==> s[j].0@ != name,
    decreases s.len(),
{
    if s.len() > 0 && s[0].0@ != name {
        lemma_first_named(s.drop_first(), name);
        assert forall|j: int| 0 <= j < first_named(s, name) implies s[j].0@ != name by {
            if j > 0 {
                assert(s[j] == s.drop_first()[j - 1]);
            }
        }
    }
}

/// Under distinct names, the entry found is the only one with that name.
pub proof fn lemma_lookup_distinct<V>(s: Seq<(String, V)>, name: Seq<char>, k: int)
    requires
        distinct_names(s),
        0 <= k < s.len(),
        s[k].0@ == name,
    ensures
        first_named(s, name) == k,
        lookup(s, name) == Some(s[k].1),
{
    lemma_first_named(s, name);
}

/// Storing keeps the names distinct.
pub proof fn lemma_store_distinct<V>(s: Seq<(String, V)>, name: String, v: V)
    requires
        distinct_names(s),
    ensures
        distinct_names(store(s, name, v)),
        lookup(store(s, name, v), name@) == Some(v),
{
    lemma_first_named(s, name@);
    let r = store(s, name, v);
    let i = first_named(s, name@);
    if i < s.len() {
        assert forall|a: int, b: int| 0 <= a < b < r.len() implies r[a].0@ != r[b].0@ by {
            assert(r[a].0 == s[a].0);
            assert(r[b].0 == s[b].0);
        }
        lemma_lookup_distinct(r, name@, i as int);
    } else {
        lemma_lookup_distinct(r, name@, s.len() as int);
    }
}

/// A read gives back the last write: after storing `v` under `name`, the
/// value under `name` is `v`, and the value under any other name is what
/// it was before.
pub proof fn law_lookup_after_store<V>(s: Seq<(String, V)>, name: String, v: V, other: Seq<char>)
    ensures
        lookup(store(s, name, v), name@) == Some(v),
        other != name@ ==> lookup(store(s, name, v), other) == lookup(s, other),
{
    let r = store(s, name, v);
    lemma_first_named(s, name@);
    lemma_first_named(s, other);
    lemma_first_named(r, name@);
    lemma_first_named(r, other);
    let i = first_named(s, name@);
    let a = first_named(s, other);
    let b = first_named(r, other);
    assert forall|j: int| 0 <= j < s.len() implies #[trigger] r[j].0 == s[j].0 by {}
    if i < s.len() {
        let f = first_named(r, name@);
        if f < i {
            assert(r[f as int].0 == s[f as int].0);
        }
        assert(r[i as int].0@ == name@);
        assert(f == i);
    } else {
        assert(r[s.len() as int].0 == name);
        assert(first_named(r, name@) == s.len());
    }
    if other != name@ {
        if a < b {
            assert(a < s.len() ==> r[a as int].0@ == other);
        }
        if b < a {
            if b < s.len() {
                assert(s[b as int].0@ == other);
            }
        }
        assert(a == b || (a == s.len() && b == r.len()));
    }
}

/// A table of named values, kept in the order the names were first stored.
pub struct NameMap<V> {
    entries: Vec<(String, V)>,
}

impl<V> View for NameMap<V> {
    type V = Seq<(String, V)>;

    closed spec fn view(&self) -> Seq<(String, V)> {
        self.entries@
    }
}

impl<V> NameMap<V> {
    /// Well-formedness: no name occurs twice.
    pub open spec fn wf(&self) -> bool {
        distinct_names(self@)
    }

    /// An empty table.
    pub fn new() -> (m: Self)
        ensures
            m@ == Seq::<(String, V)>::empty(),
            m.wf(),
    {
        NameMap { entries: Vec::new() }
    }

    /// Number of entries.
    pub fn len(&self) -> (n: usize)
        ensures
            n == self@.len(),
    {
        self.entries.len()
    }

    /// The name and value of entry `i`.
    pub fn entry(&self, i: usize) -> (r: (&String, &V))
        requires
            i < self@.len(),
        ensures
            *r.0 == self@[i as int].0,
            *r.1 == self@[i as int].1,
    {
        let e = &self.entries[i];
        (&e.0, &e.1)
    }

    /// Position of the first entry named `name`, or the length.
    pub fn position(&self, name: &String) -> (i: usize)
        ensures
            i == first_named(self@, name@),
    {
        proof {
            lemma_first_named(self@, name@);
        }
        let mut i: usize = 0;
        while i < self.entries.len()
            invariant
                i <= self@.len(),
                forall|j: int| 0 <= j < i ==> self@[j].0@ != name@,
                first_named(self@, name@) <= self@.len(),
                first_named(self@, name@) < self@.len() ==> self@[first_named(self@, name@) as int].0@ == name@,
                forall|j: int| 0 <= j < first_named(self@, name@) ==> self@[j].0@ != name@,
            decreases self@.len() - i,
        {
            if self.entries[i].0 == *name {
                return i;
            }
            i = i + 1;
        }
        i
    }

    /// The value stored under `name`.
    pub fn get(&self, name: &String) -> (r: Option<&V>)
        ensures
            match r {
                Some(v) => lookup(self@, name@) == Some(*v),
                None => lookup(self@, name@) is None,
            },
    {
        let i = self.position(name);
        if i < self.entries.len() {
            Some(&self.entries[i].1)
        } else {
            None
        }
    }

    /// Whether a value is stored under `name`.
    pub fn contains_key(&self, name: &String) -> (r: bool)
        ensures
            r == (lookup(self@, name@) is Some),
    {
        self.position(name) < self.entries.len()
    }

    /// Stores `v` under `name`, replacing the value of an entry that has it.
    pub fn insert(&mut self, name: String, v: V)
        requires
            old(self).wf(),
        ensures
            final(self)@ == store(old(self)@, name, v),
            final(self).wf(),
    {
        proof {
            lemma_store_distinct(self@, name, v);
        }
        let i = self.position(&name);
        if i < self.entries.len() {
            let key = self.entries[i].0.clone();
            self.entries.set(i, (key, v));
        } else {
            self.entries.push((name, v));
        }
    }
}

} // verus!
