use vstd::prelude::*;

verus! {

/// `str::eq` compares two string slices by content: it returns `true` exactly
/// when both hold the same sequence of characters.
pub assume_specification[ <str as PartialEq>::eq ](a: &str, b: &str) -> (r: bool)
    ensures
        r == (a@ == b@),
;

/// The entry at index `i` exists and is filed under `name`.
pub open spec fn has_key(entries: Seq<(String, String)>, i: int, name: Seq<char>) -> bool {
    0 <= i < entries.len() && entries[i].0@ == name
}

/// No two entries are filed under the same name.
pub open spec fn distinct_keys(entries: Seq<(String, String)>) -> bool {
    forall|i: int, j: int|
        0 <= i < j < entries.len() ==> (#[trigger] entries[i]).0@ != (#[trigger] entries[j]).0@
}

/// The mapping that a list of entries stands for.
pub open spec fn entries_map(entries: Seq<(String, String)>) -> Map<Seq<char>, Seq<char>> {
    Map::new(
        |name: Seq<char>| exists|i: int| has_key(entries, i, name),
        |name: Seq<char>| entries[choose|i: int| has_key(entries, i, name)].1@,
    )
}

/// With distinct names, each entry is what the mapping holds under its name.
pub proof fn lemma_entry_in_map(entries: Seq<(String, String)>, i: int)
    requires
        distinct_keys(entries),
        0 <= i < entries.len(),
    ensures
        entries_map(entries).contains_key(entries[i].0@),
        entries_map(entries)[entries[i].0@] == entries[i].1@,
{
    let name = entries[i].0@;
    assert(has_key(entries, i, name));
    let j = choose|j: int| has_key(entries, j, name);
    assert(has_key(entries, j, name));
    if j != i {
        if j < i {
            assert(entries[j].0@ != entries[i].0@);
        } else {
            assert(entries[i].0@ != entries[j].0@);
        }
    }
}

/// Replacing the entry filed under `name`, or appending one where none is,
/// keeps the names distinct and updates the mapping at `name` alone.
proof fn lemma_put_entry(
    before: Seq<(String, String)>,
    after: Seq<(String, String)>,
    at: int,
    name: String,
    value: String,
)
    requires
        distinct_keys(before),
        0 <= at <= before.len(),
        at < before.len() ==> before[at].0@ == name@ && after == before.update(at, (name, value)),
        at == before.len() ==> after == before.push((name, value)),
        at == before.len() ==> forall|i: int| !has_key(before, i, name@),
    ensures
        distinct_keys(after),
        entries_map(after) == entries_map(before).insert(name@, value@),
{
    assert(distinct_keys(after)) by {
        assert forall|i: int, j: int| 0 <= i < j < after.len() implies
            (#[trigger] after[i]).0@ != (#[trigger] after[j]).0@
        by {
            if at < before.len() {
                assert(after[i].0@ == before[i].0@);
                assert(after[j].0@ == before[j].0@);
            } else if j == at {
                assert(!has_key(before, i, name@));
            }
        }
    }
    assert(after.len() > at);
    assert(after[at] == (name, value));
    lemma_entry_in_map(after, at);
    let lhs = entries_map(after);
    let rhs = entries_map(before).insert(name@, value@);
    assert forall|k: Seq<char>| lhs.contains_key(k) <==> rhs.contains_key(k) by {
        if k != name@ {
            if lhs.contains_key(k) {
                let i = choose|i: int| has_key(after, i, k);
                assert(has_key(before, i, k));
            }
            if entries_map(before).contains_key(k) {
                let i = choose|i: int| has_key(before, i, k);
                assert(has_key(after, i, k));
            }
        }
    }
    assert forall|k: Seq<char>| lhs.contains_key(k) implies lhs[k] == rhs[k] by {
        if k != name@ {
            let i = choose|i: int| has_key(after, i, k);
            assert(has_key(before, i, k));
            lemma_entry_in_map(after, i);
            lemma_entry_in_map(before, i);
        }
    }
    assert(lhs =~= rhs);
}

/// A set of labels: a finite mapping from label name to label value, in which
/// every name occurs once.
#[derive(Debug)]
pub struct Labels {
    entries: Vec<(String, String)>,
}

impl View for Labels {
    type V = Map<Seq<char>, Seq<char>>;

    closed spec fn view(&self) -> Map<Seq<char>, Seq<char>> {
        entries_map(self.entries@)
    }
}

impl Labels {
    #[verifier::type_invariant]
    closed spec fn distinct(&self) -> bool {
        distinct_keys(self.entries@)
    }

    /// The empty label set.
    pub fn new() -> (labels: Labels)
        ensures
            labels@ == Map::<Seq<char>, Seq<char>>::empty(),
    {
        let labels = Labels { entries: Vec::new() };
        assert(labels@ =~= Map::<Seq<char>, Seq<char>>::empty());
        labels
    }

    /// The labels as a list of name and value, each name once.
    pub fn entries(&self) -> (entries: &Vec<(String, String)>)
        ensures
            distinct_keys(entries@),
            entries_map(entries@) == self@,
    {
        proof {
            use_type_invariant(self);
        }
        &self.entries
    }

    /// The index of the entry filed under `name`, or the number of entries
    /// where there is none.
    fn find(entries: &Vec<(String, String)>, name: &str) -> (at: usize)
        ensures
            at <= entries.len(),
            at < entries.len() ==> has_key(entries@, at as int, name@),
            at == entries.len() ==> forall|i: int| !has_key(entries@, i, name@),
    {
        let mut at: usize = 0;
        while at < entries.len()
            invariant
                at <= entries.len(),
                forall|i: int| 0 <= i < at ==> !has_key(entries@, i, name@),
            decreases entries.len() - at,
        {
            if entries[at].0.as_str().eq(name) {
                return at;
            }
            at = at + 1;
        }
        at
    }

    /// The value of the label `name`, if the set has one.
    pub fn get(&self, name: &str) -> (value: Option<&String>)
        ensures
            value is Some <==> self@.contains_key(name@),
            value matches Some(v) ==> v@ == self@[name@],
    {
        proof {
            use_type_invariant(self);
        }
        let at = Labels::find(&self.entries, name);
        if at < self.entries.len() {
            proof {
                lemma_entry_in_map(self.entries@, at as int);
            }
            Some(&self.entries[at].1)
        } else {
            None
        }
    }

    /// Sets the label `name` to `value`, replacing the value it had.
    pub fn insert(&mut self, name: String, value: String)
        ensures
            final(self)@ == old(self)@.insert(name@, value@),
    {
        proof {
            use_type_invariant(&*self);
        }
        let mut entries: Vec<(String, String)> = Vec::new();
        core::mem::swap(&mut self.entries, &mut entries);
        let ghost before = entries@;
        let at = Labels::find(&entries, name.as_str());
        proof {
            if at < before.len() {
                let after = before.update(at as int, (name, value));
                lemma_put_entry(before, after, at as int, name, value);
            } else {
                let after = before.push((name, value));
                lemma_put_entry(before, after, at as int, name, value);
            }
        }
        if at < entries.len() {
            entries[at] = (name, value);
        } else {
            entries.push((name, value));
        }
        self.entries = entries;
    }
}

impl Clone for Labels {
    /// A copy with the same labels.
    fn clone(&self) -> (copy: Labels)
        ensures
            copy@ == self@,
    {
        proof {
            use_type_invariant(self);
        }
        let mut entries: Vec<(String, String)> = Vec::new();
        let mut i: usize = 0;
        while i < self.entries.len()
            invariant
                i <= self.entries.len(),
                entries@ == self.entries@.take(i as int),
            decreases self.entries.len() - i,
        {
            let name = self.entries[i].0.clone();
            let value = self.entries[i].1.clone();
            entries.push((name, value));
            assert(entries@ =~= self.entries@.take(i + 1));
            i = i + 1;
        }
        assert(entries@ =~= self.entries@);
        Labels { entries }
    }
}

} // verus!
