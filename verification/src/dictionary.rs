//! A small dictionary from names to values that remembers the order in which
//! its names were first entered. No name stands in it twice.

use vstd::prelude::*;

verus! {

/// Entries of a name and a value each, in the order in which they were made.
pub struct Dictionary<V> {
    entries: Vec<(String, V)>,
}

/// The value of the last of the first `upto` entries that is filed under `name`.
pub open spec fn last_entry<V>(entries: Seq<(Seq<char>, V)>, name: Seq<char>, upto: int) -> Option<V>
    decreases upto,
{
    if upto <= 0 {
        None
    } else if entries[upto - 1].0 == name {
        Some(entries[upto - 1].1)
    } else {
        last_entry(entries, name, upto - 1)
    }
}

/// Whether no two entries have the same name.
pub open spec fn unique_names<V>(entries: Seq<(Seq<char>, V)>) -> bool {
    forall|i: int, j: int| 0 <= i < j < entries.len() ==> (#[trigger] entries[i]).0 != (#[trigger] entries[j]).0
}

/// The place of the last of the first `upto` entries that is filed under `name`.
pub open spec fn last_place<V>(entries: Seq<(Seq<char>, V)>, name: Seq<char>, upto: int) -> Option<int>
    decreases upto,
{
    if upto <= 0 {
        None
    } else if entries[upto - 1].0 == name {
        Some(upto - 1)
    } else {
        last_place(entries, name, upto - 1)
    }
}

/// The entries after `value` is filed under `name`: in the place of the
/// entry of that name where there is one, and else behind all entries.
pub open spec fn inserted<V>(entries: Seq<(Seq<char>, V)>, name: Seq<char>, value: V) -> Seq<(Seq<char>, V)> {
    match last_place(entries, name, entries.len() as int) {
        Some(place) => entries.update(place, (name, value)),
        None => entries.push((name, value)),
    }
}

/// What `last_place` finds is an entry of that name, and it finds one
/// wherever there is one.
pub proof fn lemma_last_place<V>(entries: Seq<(Seq<char>, V)>, name: Seq<char>, upto: int)
    requires
        0 <= upto <= entries.len(),
    ensures
        match last_place(entries, name, upto) {
            Some(place) => 0 <= place < upto && entries[place].0 == name,
            None => forall|i: int| 0 <= i < upto ==> (#[trigger] entries[i]).0 != name,
        },
    decreases upto,
{
    if upto > 0 && entries[upto - 1].0 != name {
        lemma_last_place(entries, name, upto - 1);
    }
}

/// Filing a value under a name leaves no name twice, and the value is
/// what the name then leads to.
pub proof fn lemma_inserted<V>(entries: Seq<(Seq<char>, V)>, name: Seq<char>, value: V)
    requires
        unique_names(entries),
    ensures
        unique_names(inserted(entries, name, value)),
        last_entry(inserted(entries, name, value), name, inserted(entries, name, value).len() as int) == Some(
            value,
        ),
{
    let after = inserted(entries, name, value);
    lemma_last_place(entries, name, entries.len() as int);
    match last_place(entries, name, entries.len() as int) {
        Some(place) => {
            assert forall|i: int, j: int| 0 <= i < j < after.len() implies (#[trigger] after[i]).0 != (
            #[trigger] after[j]).0 by {
                assert(after[i].0 == entries[i].0);
                assert(after[j].0 == entries[j].0);
            }
            lemma_unique_entry(after, name, place, after.len() as int);
        },
        None => {
            assert forall|i: int, j: int| 0 <= i < j < after.len() implies (#[trigger] after[i]).0 != (
            #[trigger] after[j]).0 by {
                assert(after[i] == entries[i]);
                if j < entries.len() {
                    assert(after[j] == entries[j]);
                }
            }
        },
    }
}

/// Where no name stands twice, a name leads to the value of its entry.
pub proof fn lemma_unique_entry<V>(entries: Seq<(Seq<char>, V)>, name: Seq<char>, place: int, upto: int)
    requires
        unique_names(entries),
        0 <= place < upto <= entries.len(),
        entries[place].0 == name,
    ensures
        last_entry(entries, name, upto) == Some(entries[place].1),
    decreases upto,
{
    if upto - 1 != place {
        assert(entries[upto - 1].0 != entries[place].0);
        lemma_unique_entry(entries, name, place, upto - 1);
    }
}

impl<V> View for Dictionary<V> {
    type V = Seq<(Seq<char>, V)>;

    /// The entries as pairs of name and value, oldest first.
    closed spec fn view(&self) -> Seq<(Seq<char>, V)> {
        self.entries@.map_values(|entry: (String, V)| (entry.0@, entry.1))
    }
}

impl<V> Dictionary<V> {
    #[verifier::type_invariant]
    closed spec fn names_once(&self) -> bool {
        unique_names(self@)
    }

    /// Whether no name stands in the dictionary twice, as is the case for
    /// every dictionary.
    pub open spec fn has_unique_names(&self) -> bool {
        unique_names(self@)
    }

    /// What the dictionary answers for `name`.
    pub open spec fn lookup(&self, name: Seq<char>) -> Option<V> {
        last_entry(self@, name, self@.len() as int)
    }

    pub fn new() -> (dictionary: Self)
        ensures
            dictionary@ == Seq::<(Seq<char>, V)>::empty(),
            dictionary.has_unique_names(),
    {
        let entries: Vec<(String, V)> = Vec::new();
        assert(entries@.map_values(|entry: (String, V)| (entry.0@, entry.1)) =~= Seq::<(Seq<char>, V)>::empty());
        Self { entries }
    }

    pub fn len(&self) -> (len: usize)
        ensures
            len == self@.len(),
            self.has_unique_names(),
    {
        proof {
            use_type_invariant(self);
        }
        self.entries.len()
    }

    /// Files `value` under `name`: in the place of the entry of that name
    /// where there is one, and else behind all entries.
    pub fn insert(&mut self, name: String, value: V)
        ensures
            final(self)@ == inserted(old(self)@, name@, value),
            (forall|i: int| 0 <= i < old(self)@.len() ==> (#[trigger] old(self)@[i]).0 != name@) ==> final(self)@
                == old(self)@.push((name@, value)),
            final(self).lookup(name@) == Some(value),
            final(self).has_unique_names(),
    {
        proof {
            use_type_invariant(&*self);
            lemma_inserted(self@, name@, value);
            lemma_last_place(self@, name@, self@.len() as int);
        }
        let ghost before = self@;
        let mut entries: Vec<(String, V)> = Vec::new();
        proof {
            assert(entries@.map_values(|entry: (String, V)| (entry.0@, entry.1)) =~= Seq::<(Seq<char>, V)>::empty());
        }
        core::mem::swap(&mut self.entries, &mut entries);
        let mut upto: usize = entries.len();
        let mut found: bool = false;
        while upto > 0 && !found
            invariant
                upto <= before.len(),
                entries@.map_values(|entry: (String, V)| (entry.0@, entry.1)) == before,
                last_place(before, name@, before.len() as int) == last_place(before, name@, upto as int),
                found ==> upto > 0 && before[upto - 1].0 == name@,
            decreases
                    (if found {
                        0int
                    } else {
                        upto + 1
                    }),
        {
            if entries[upto - 1].0 == name {
                found = true;
            } else {
                upto = upto - 1;
            }
        }
        if found {
            entries[upto - 1] = (name, value);
            proof {
                assert(entries@.map_values(|entry: (String, V)| (entry.0@, entry.1)) =~= before.update(
                    upto - 1,
                    (name@, value),
                ));
            }
        } else {
            entries.push((name, value));
            proof {
                assert(entries@.map_values(|entry: (String, V)| (entry.0@, entry.1)) =~= before.push((name@, value)));
            }
        }
        core::mem::swap(&mut self.entries, &mut entries);
    }

    /// The name of the entry at `position`.
    pub fn name_at(&self, position: usize) -> (name: &String)
        requires
            position < self@.len(),
        ensures
            name@ == self@[position as int].0,
            self.has_unique_names(),
    {
        proof {
            use_type_invariant(self);
        }
        &self.entries[position].0
    }

    /// The value of the entry at `position`.
    pub fn value_at(&self, position: usize) -> (value: &V)
        requires
            position < self@.len(),
        ensures
            *value == self@[position as int].1,
    {
        &self.entries[position].1
    }

    /// The value filed under `name`, if there is one.
    pub fn get(&self, name: &str) -> (value: Option<&V>)
        ensures
            value == match self.lookup(name@) {
                Some(found) => Some(&found),
                None => None,
            },
    {
        let wanted = name.to_owned();
        let mut upto: usize = self.entries.len();
        while upto > 0
            invariant
                upto <= self@.len(),
                wanted@ == name@,
                self.lookup(name@) == last_entry(self@, name@, upto as int),
            decreases upto,
        {
            if self.entries[upto - 1].0 == wanted {
                return Some(&self.entries[upto - 1].1);
            }
            upto = upto - 1;
        }
        None
    }
}

impl Dictionary<String> {
    /// A dictionary with the same entries in the same order.
    pub fn duplicate(&self) -> (copy: Self)
        ensures
            copy@ == self@,
    {
        proof {
            use_type_invariant(self);
        }
        let mut entries: Vec<(String, String)> = Vec::new();
        let mut at: usize = 0;
        while at < self.entries.len()
            invariant
                at <= self.entries@.len(),
                entries@.len() == at,
                forall|i: int| 0 <= i < at ==> (#[trigger] entries@[i]).0@ == self.entries@[i].0@ && entries@[i].1
                    == self.entries@[i].1,
            decreases self.entries@.len() - at,
        {
            let name = self.entries[at].0.clone();
            let value = self.entries[at].1.clone();
            entries.push((name, value));
            at = at + 1;
        }
        assert(entries@.map_values(|entry: (String, String)| (entry.0@, entry.1)) =~= self@);
        Self { entries }
    }
}

} // verus!
