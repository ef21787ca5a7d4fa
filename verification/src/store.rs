use vstd::prelude::*;

verus! {

/// One entry of a password file, as the file stores it.
#[derive(Debug)]
pub struct PassInfo {
    pub username: String,
    pub password: String,
    pub url: Option<String>,
}

/// The value of a `PassInfo`.
pub struct PassRecord {
    pub username: Seq<char>,
    pub password: Seq<char>,
    pub url: Option<Seq<char>>,
}

/// The value of an optional text.
pub open spec fn opt_view(s: Option<String>) -> Option<Seq<char>> {
    match s {
        Some(t) => Some(t@),
        None => None,
    }
}

impl View for PassInfo {
    type V = PassRecord;

    open spec fn view(&self) -> PassRecord {
        PassRecord { username: self.username@, password: self.password@, url: opt_view(self.url) }
    }
}

/// A named entry, as a value.
pub type Entry = (Seq<char>, PassRecord);

/// No two entries have the same name.
pub open spec fn names_distinct(entries: Seq<Entry>) -> bool {
    forall|i: int, j: int| 0 <= i < j < entries.len() ==> entries[i].0 != entries[j].0
}

/// The index of the last entry named `name`, or -1 when there is none.
pub open spec fn position(entries: Seq<Entry>, name: Seq<char>) -> int
    decreases entries.len(),
{
    if entries.len() == 0 {
        -1
    } else if entries.last().0 == name {
        entries.len() - 1
    } else {
        position(entries.drop_last(), name)
    }
}

/// The record stored under `name`.
pub open spec fn lookup(entries: Seq<Entry>, name: Seq<char>) -> Option<PassRecord> {
    let i = position(entries, name);
    if i >= 0 {
        Some(entries[i].1)
    } else {
        None
    }
}

/// The entries after storing `record` under `name`: an entry of that name gets the new
/// record in its place, otherwise the entry is added at the end.
pub open spec fn inserted(entries: Seq<Entry>, name: Seq<char>, record: PassRecord) -> Seq<Entry> {
    let i = position(entries, name);
    if i >= 0 {
        entries.update(i, (name, record))
    } else {
        entries.push((name, record))
    }
}

/// `position` finds the entry of that name, if there is one, and it is the only one
/// when names are distinct.
pub proof fn lemma_position(entries: Seq<Entry>, name: Seq<char>)
    ensures
        -1 <= position(entries, name) < entries.len(),
        position(entries, name) == -1 <==> forall|i: int|
            0 <= i < entries.len() ==> #[trigger] entries[i].0 != name,
        position(entries, name) >= 0 ==> entries[position(entries, name)].0 == name,
        names_distinct(entries) ==> forall|i: int|
            0 <= i < entries.len() && #[trigger] entries[i].0 == name ==> i == position(entries, name),
    decreases entries.len(),
{
    if entries.len() > 0 {
        let rest = entries.drop_last();
        lemma_position(rest, name);
        assert forall|i: int| 0 <= i < rest.len() implies rest[i] == entries[i] by {}
    }
}

/// `a` and `b` hold the same entries, perhaps in another order.
pub open spec fn same_entries(a: Seq<Entry>, b: Seq<Entry>) -> bool {
    &&& a.len() == b.len()
    &&& forall|e: Entry| a.contains(e) <==> b.contains(e)
}

/// A password file: entries with distinct names, in the order in which they were added.
pub struct Pass {
    data: Vec<(String, PassInfo)>,
}

impl View for Pass {
    type V = Seq<Entry>;

    closed spec fn view(&self) -> Seq<Entry> {
        self.data@.map_values(|e: (String, PassInfo)| (e.0@, e.1@))
    }
}

impl Pass {
    /// Entry names are distinct.
    #[verifier::type_invariant]
    pub closed spec fn well_formed(self) -> bool {
        names_distinct(self@)
    }

    /// Names are distinct in every `Pass`.
    pub fn names_are_distinct(&self)
        ensures
            names_distinct(self@),
    {
        proof {
            use_type_invariant(self);
        }
    }

    /// An empty password file.
    pub fn new() -> (p: Pass)
        ensures
            p@ == Seq::<Entry>::empty(),
    {
        let p = Pass { data: Vec::new() };
        assert(p@ =~= Seq::<Entry>::empty());
        p
    }

    /// The number of entries.
    pub fn len(&self) -> (n: usize)
        ensures
            n == self@.len(),
    {
        self.data.len()
    }

    /// The entries, in order.
    pub fn entries(&self) -> (es: &Vec<(String, PassInfo)>)
        ensures
            es@.len() == self@.len(),
            forall|i: int|
                0 <= i < es@.len() ==> (#[trigger] es@[i]).0@ == self@[i].0 && es@[i].1@ == self@[i].1,
    {
        &self.data
    }

    /// The entry stored under `name`.
    pub fn get(&self, name: &String) -> (res: Option<&PassInfo>)
        ensures
            match res {
                Some(info) => lookup(self@, name@) == Some(info@),
                None => lookup(self@, name@) is None,
            },
    {
        proof {
            use_type_invariant(self);
            lemma_position(self@, name@);
        }
        let n = self.data.len();
        let mut i: usize = 0;
        while i < n
            invariant
                n == self.data@.len(),
                i <= n,
                self@.len() == n,
                forall|j: int| 0 <= j < i ==> #[trigger] self@[j].0 != name@,
                names_distinct(self@),
            decreases n - i,
        {
            assert(self@[i as int].0 == self.data@[i as int].0@);
            if self.data[i].0 == *name {
                proof {
                    lemma_position(self@, name@);
                }
                return Some(&self.data[i].1);
            }
            i = i + 1;
        }
        None
    }

    /// Stores `info` under `name`, replacing and returning the entry that had that name.
    pub fn insert(&mut self, name: String, info: PassInfo) -> (prev: Option<PassInfo>)
        ensures
            final(self)@ == inserted(old(self)@, name@, info@),
            match prev {
                Some(p) => lookup(old(self)@, name@) == Some(p@),
                None => lookup(old(self)@, name@) is None,
            },
    {
        proof {
            use_type_invariant(&*self);
            lemma_position(self@, name@);
        }
        let ghost before = self@;
        let mut data: Vec<(String, PassInfo)> = Vec::new();
        std::mem::swap(&mut data, &mut self.data);
        assert(data@.map_values(|e: (String, PassInfo)| (e.0@, e.1@)) == before);
        let n = data.len();
        let mut i: usize = 0;
        while i < n
            invariant
                n == data@.len(),
                i <= n,
                before == data@.map_values(|e: (String, PassInfo)| (e.0@, e.1@)),
                forall|j: int| 0 <= j < i ==> #[trigger] before[j].0 != name@,
                names_distinct(before),
                before == old(self)@,
            decreases n - i,
        {
            assert(before[i as int].0 == data@[i as int].0@);
            if data[i].0 == name {
                proof {
                    lemma_position(before, name@);
                }
                let (_, prev) = data.remove(i);
                data.insert(i, (name, info));
                proof {
                    let after = data@.map_values(|e: (String, PassInfo)| (e.0@, e.1@));
                    assert(after =~= inserted(before, name@, info@));
                    lemma_inserted_distinct(before, name@, info@);
                }
                self.data = data;
                return Some(prev);
            }
            i = i + 1;
        }
        data.push((name, info));
        proof {
            let after = data@.map_values(|e: (String, PassInfo)| (e.0@, e.1@));
            assert(after =~= inserted(before, name@, info@));
            lemma_inserted_distinct(before, name@, info@);
        }
        self.data = data;
        None
    }
}

/// Storing under a name keeps names distinct.
pub proof fn lemma_inserted_distinct(entries: Seq<Entry>, name: Seq<char>, record: PassRecord)
    requires
        names_distinct(entries),
    ensures
        names_distinct(inserted(entries, name, record)),
{
    lemma_position(entries, name);
}

/// What a read gives back of a write: after storing `record` under `name`, looking up
/// `name` gives `record`, and looking up any other name gives what it gave before. The
/// number of entries grows by one exactly when `name` was not stored yet.
pub proof fn lemma_lookup_inserted(
    entries: Seq<Entry>,
    name: Seq<char>,
    record: PassRecord,
    other: Seq<char>,
)
    requires
        names_distinct(entries),
    ensures
        lookup(inserted(entries, name, record), name) == Some(record),
        other != name ==> lookup(inserted(entries, name, record), other) == lookup(entries, other),
        inserted(entries, name, record).len() == entries.len() + if lookup(entries, name) is Some {
            0int
        } else {
            1int
        },
{
    let after = inserted(entries, name, record);
    lemma_position(entries, name);
    lemma_position(entries, other);
    lemma_inserted_distinct(entries, name, record);
    lemma_position(after, name);
    lemma_position(after, other);
    let p = position(entries, name);
    if p >= 0 {
        assert(after[p].0 == name);
    } else {
        assert(after[entries.len() as int].0 == name);
    }
    if other != name {
        let q = position(entries, other);
        if q >= 0 {
            assert(after[q] == entries[q]);
        } else {
            assert forall|i: int| 0 <= i < after.len() implies after[i].0 != other by {
                if i < entries.len() && i != p {
                    assert(after[i] == entries[i]);
                }
            }
        }
    }
}

/// The entries after storing `record` under `name` are that entry and the entries of
/// other names.
proof fn lemma_inserted_contains(entries: Seq<Entry>, name: Seq<char>, record: PassRecord)
    requires
        names_distinct(entries),
    ensures
        forall|e: Entry|
            inserted(entries, name, record).contains(e) <==> (e == (name, record) || (
            entries.contains(e) && e.0 != name)),
{
    let after = inserted(entries, name, record);
    lemma_position(entries, name);
    let p = position(entries, name);
    let k = if p >= 0 {
        p
    } else {
        entries.len() as int
    };
    assert(after[k] == (name, record));
    assert forall|e: Entry| after.contains(e) <==> (e == (name, record) || (entries.contains(e)
        && e.0 != name)) by {
        if after.contains(e) {
            let i = choose|i: int| 0 <= i < after.len() && after[i] == e;
            if i != k {
                assert(after[i] == entries[i]);
            }
        }
        if entries.contains(e) && e.0 != name {
            let i = choose|i: int| 0 <= i < entries.len() && entries[i] == e;
            assert(i != k);
            assert(after[i] == entries[i]);
        }
    }
}

/// Storing the same record under the same name in two orderings of the same entries
/// gives two orderings of the same entries: the order in which a file lists its
/// entries does not change what a write leaves.
pub proof fn lemma_inserted_same_entries(
    a: Seq<Entry>,
    b: Seq<Entry>,
    name: Seq<char>,
    record: PassRecord,
)
    requires
        names_distinct(a),
        names_distinct(b),
        same_entries(a, b),
    ensures
        same_entries(inserted(a, name, record), inserted(b, name, record)),
{
    lemma_inserted_contains(a, name, record);
    lemma_inserted_contains(b, name, record);
    lemma_position(a, name);
    lemma_position(b, name);
    let pa = position(a, name);
    let pb = position(b, name);
    if pa >= 0 {
        assert(a.contains(a[pa]));
        let j = choose|j: int| 0 <= j < b.len() && b[j] == a[pa];
        assert(b[j].0 == name);
    }
    if pb >= 0 {
        assert(b.contains(b[pb]));
        let j = choose|j: int| 0 <= j < a.len() && a[j] == b[pb];
        assert(a[j].0 == name);
    }
    assert(pa >= 0 <==> pb >= 0);
    assert(inserted(a, name, record).len() == inserted(b, name, record).len());
    assert forall|e: Entry| inserted(a, name, record).contains(e) <==> inserted(b, name, record).contains(e) by {
        assert(a.contains(e) <==> b.contains(e));
    }
}

/// Storing the same record under the same name twice leaves the entries as the first
/// store left them.
pub proof fn lemma_inserted_twice(entries: Seq<Entry>, name: Seq<char>, record: PassRecord)
    requires
        names_distinct(entries),
    ensures
        inserted(inserted(entries, name, record), name, record) == inserted(entries, name, record),
{
    let once = inserted(entries, name, record);
    lemma_position(entries, name);
    lemma_inserted_distinct(entries, name, record);
    lemma_position(once, name);
    let p = position(entries, name);
    let k = if p >= 0 {
        p
    } else {
        entries.len() as int
    };
    assert(once[k] == (name, record));
    assert(position(once, name) == k);
    assert(once.update(k, (name, record)) =~= once);
}

} // verus!
