use vstd::prelude::*;

verus! {

/// One value of a message document, as the messaging logic reads it. `Other` stands
/// for every kind of value that the logic never looks into.
#[derive(Debug, PartialEq)]
pub enum Field {
    Null,
    Bool(bool),
    I32(i32),
    Str(String),
    Binary(Vec<u8>),
    Object(Doc),
    Other,
}

/// A message document: named values, in order.
#[derive(Debug, PartialEq)]
pub struct Doc {
    pub fields: Vec<(String, Field)>,
}

/// The index of the first of `fs`, from `i` on, named `name`.
pub open spec fn find_from(fs: Seq<(String, Field)>, name: Seq<char>, i: int) -> Option<int>
    decreases fs.len() - i,
{
    if i < 0 || i >= fs.len() {
        None
    } else if fs[i].0@ == name {
        Some(i)
    } else {
        find_from(fs, name, i + 1)
    }
}

/// The value of the first field of `d` named `name`.
pub open spec fn field_of(d: Doc, name: Seq<char>) -> Option<Field> {
    match find_from(d.fields@, name, 0) {
        Some(i) => Some(d.fields@[i].1),
        None => None,
    }
}

/// Searching by name reads only the names: two lists of fields with the same names
/// give the same answer.
pub proof fn lemma_find_same_names(fs: Seq<(String, Field)>, gs: Seq<(String, Field)>, name: Seq<char>, i: int)
    requires
        fs.len() == gs.len(),
        forall|j: int| 0 <= j < fs.len() ==> #[trigger] fs[j].0 == gs[j].0,
    ensures
        find_from(fs, name, i) == find_from(gs, name, i),
    decreases fs.len() - i,
{
    if 0 <= i < fs.len() {
        assert(fs[i].0 == gs[i].0);
        lemma_find_same_names(fs, gs, name, i + 1);
    }
}

/// What is found from `i` on is a field of that name at or after `i`.
pub proof fn lemma_find_found(fs: Seq<(String, Field)>, name: Seq<char>, i: int)
    ensures
        find_from(fs, name, i) matches Some(k) ==> 0 <= i <= k < fs.len() && fs[k].0@ == name,
    decreases fs.len() - i,
{
    if 0 <= i < fs.len() && fs[i].0@ != name {
        lemma_find_found(fs, name, i + 1);
    }
}

/// The first field named `name` is the one at `k` when no field before it has that
/// name.
pub proof fn lemma_field_at(d: Doc, k: int, name: Seq<char>)
    requires
        0 <= k < d.fields@.len(),
        d.fields@[k].0@ == name,
        forall|j: int| 0 <= j < k ==> (#[trigger] d.fields@[j]).0@ != name,
    ensures
        find_from(d.fields@, name, 0) == Some(k),
        field_of(d, name) == Some(d.fields@[k].1),
{
    lemma_find_upto(d.fields@, k, name, 0);
}

proof fn lemma_find_upto(fs: Seq<(String, Field)>, k: int, name: Seq<char>, i: int)
    requires
        0 <= i <= k < fs.len(),
        fs[k].0@ == name,
        forall|j: int| 0 <= j < k ==> (#[trigger] fs[j]).0@ != name,
    ensures
        find_from(fs, name, i) == Some(k),
    decreases k - i,
{
    if i < k {
        assert(fs[i].0@ != name);
        lemma_find_upto(fs, k, name, i + 1);
    }
}

impl Doc {
    /// The empty document.
    pub fn new() -> (d: Doc)
        ensures
            d.fields@.len() == 0,
    {
        Doc { fields: Vec::new() }
    }

    /// The index of the first field named `name`.
    pub fn position(&self, name: &str) -> (r: Option<usize>)
        ensures
            r matches Some(i) ==> find_from(self.fields@, name@, 0) == Some(i as int) && i < self.fields@.len(),
            r is None ==> find_from(self.fields@, name@, 0) is None,
    {
        let key = name.to_owned();
        let mut i: usize = 0;
        while i < self.fields.len()
            invariant
                i <= self.fields@.len(),
                key@ == name@,
                find_from(self.fields@, name@, i as int) == find_from(self.fields@, name@, 0),
            decreases self.fields@.len() - i,
        {
            if self.fields[i].0 == key {
                proof {
                    lemma_find_found(self.fields@, name@, 0);
                }
                return Some(i);
            }
            i = i + 1;
        }
        None
    }

    /// The value of the first field named `name`.
    pub fn get(&self, name: &str) -> (r: Option<&Field>)
        ensures
            r matches Some(f) ==> field_of(*self, name@) == Some(*f),
            r is None ==> field_of(*self, name@) is None,
    {
        match self.position(name) {
            Some(i) => Some(&self.fields[i].1),
            None => None,
        }
    }

    /// Takes out the value of the first field named `name`, leaving `Null` in its
    /// place; the names stay as they were.
    pub fn take(&mut self, name: &str) -> (r: Option<Field>)
        ensures
            r == field_of(*old(self), name@),
            find_from(old(self).fields@, name@, 0) matches Some(i) ==> final(self).fields@[i].1 == Field::Null,
            final(self).fields@.len() == old(self).fields@.len(),
            forall|j: int| 0 <= j < old(self).fields@.len() ==> #[trigger] final(self).fields@[j].0
                == old(self).fields@[j].0,
            forall|j: int|
                0 <= j < old(self).fields@.len() && Some(j) != find_from(old(self).fields@, name@, 0)
                    ==> #[trigger] final(self).fields@[j] == old(self).fields@[j],
    {
        match self.position(name) {
            Some(i) => {
                let ghost before = self.fields@;
                let (key, value) = self.fields.remove(i);
                self.fields.insert(i, (key, Field::Null));
                assert(self.fields@ =~= before.update(i as int, (before[i as int].0, Field::Null)));
                Some(value)
            },
            None => None,
        }
    }
}

/// After taking the field `taken`, the first field of every name is where it was, and
/// the value of every other name is as before.
pub proof fn lemma_take_keeps(d: Doc, d2: Doc, taken: Seq<char>, name: Seq<char>)
    requires
        d2.fields@.len() == d.fields@.len(),
        forall|j: int| 0 <= j < d.fields@.len() ==> #[trigger] d2.fields@[j].0 == d.fields@[j].0,
        forall|j: int|
            0 <= j < d.fields@.len() && Some(j) != find_from(d.fields@, taken, 0) ==> #[trigger] d2.fields@[j]
                == d.fields@[j],
        name != taken,
    ensures
        field_of(d2, name) == field_of(d, name),
{
    lemma_find_same_names(d.fields@, d2.fields@, name, 0);
    lemma_find_found(d.fields@, name, 0);
    lemma_find_found(d.fields@, taken, 0);
    if let Some(k) = find_from(d.fields@, name, 0) {
        assert(d2.fields@[k] == d.fields@[k]);
    }
}

} // verus!
