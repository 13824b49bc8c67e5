//! How far each file of a run is.

use vstd::prelude::*;
use vstd::string::*;

verus! {

/// Segments done and segments in all of one file.
pub struct FileCount {
    pub name: String,
    pub done: u64,
    pub total: u64,
}

/// Counts by file name.
pub open spec fn counts_of(entries: Seq<FileCount>) -> Map<Seq<char>, (u64, u64)>
    decreases entries.len(),
{
    if entries.len() == 0 {
        Map::empty()
    } else {
        counts_of(entries.drop_last()).insert(
            entries.last().name@,
            (entries.last().done, entries.last().total),
        )
    }
}

/// No name stands twice.
pub open spec fn names_differ(entries: Seq<FileCount>) -> bool {
    forall|i: int, j: int|
        0 <= i < j < entries.len() ==> #[trigger] entries[i].name@ != #[trigger] entries[j].name@
}

/// The files of which every segment is done.
pub open spec fn complete_files(counts: Map<Seq<char>, (u64, u64)>) -> Set<Seq<char>> {
    counts.dom().filter(|name: Seq<char>| counts[name].1 > 0 && counts[name].0 >= counts[name].1)
}

/// The files of which some segments are done, but that are not complete.
pub open spec fn files_in_flight(counts: Map<Seq<char>, (u64, u64)>) -> Set<Seq<char>> {
    counts.dom().filter(
        |name: Seq<char>|
            !(counts[name].1 > 0 && counts[name].0 >= counts[name].1) && counts[name].0 > 0,
    )
}

proof fn lemma_counts(entries: Seq<FileCount>)
    requires
        names_differ(entries),
    ensures
        counts_of(entries).dom().finite(),
        counts_of(entries).len() == entries.len(),
        forall|i: int|
            0 <= i < entries.len() ==> counts_of(entries).dom().contains(
                #[trigger] entries[i].name@,
            ) && counts_of(entries)[entries[i].name@] == (entries[i].done, entries[i].total),
        forall|name: Seq<char>| #[trigger]
            counts_of(entries).dom().contains(name) ==> exists|i: int|
                0 <= i < entries.len() && #[trigger] entries[i].name@ == name,
    decreases entries.len(),
{
    if entries.len() > 0 {
        let rest = entries.drop_last();
        lemma_counts(rest);
        let last = entries.last();
        assert forall|i: int| 0 <= i < entries.len() implies counts_of(entries).dom().contains(
            #[trigger] entries[i].name@,
        ) && counts_of(entries)[entries[i].name@] == (entries[i].done, entries[i].total) by {
            if i < rest.len() {
                assert(rest[i] == entries[i]);
            }
        }
        assert forall|name: Seq<char>| #[trigger]
            counts_of(entries).dom().contains(name) implies exists|i: int|
            0 <= i < entries.len() && #[trigger] entries[i].name@ == name by {
            if name == last.name@ {
                assert(entries[entries.len() - 1].name@ == name);
            } else {
                assert(counts_of(rest).dom().contains(name));
                let i = choose|i: int| 0 <= i < rest.len() && #[trigger] rest[i].name@ == name;
                assert(entries[i].name@ == name);
            }
        }
        assert(!counts_of(rest).dom().contains(last.name@)) by {
            if counts_of(rest).dom().contains(last.name@) {
                let i = choose|i: int|
                    0 <= i < rest.len() && #[trigger] rest[i].name@ == last.name@;
                assert(entries[i].name@ == entries[entries.len() - 1].name@);
            }
        }
    }
}

proof fn lemma_update(entries: Seq<FileCount>, k: int, entry: FileCount)
    requires
        names_differ(entries),
        0 <= k < entries.len(),
        entry.name@ == entries[k].name@,
    ensures
        names_differ(entries.update(k, entry)),
        counts_of(entries.update(k, entry)) == counts_of(entries).insert(
            entry.name@,
            (entry.done, entry.total),
        ),
{
    let updated = entries.update(k, entry);
    assert(names_differ(updated)) by {
        assert forall|i: int, j: int| 0 <= i < j < updated.len() implies #[trigger] updated[i].name@
            != #[trigger] updated[j].name@ by {
            assert(updated[i].name@ == entries[i].name@);
            assert(updated[j].name@ == entries[j].name@);
        }
    }
    lemma_counts(entries);
    lemma_counts(updated);
    let a = counts_of(updated);
    let b = counts_of(entries).insert(entry.name@, (entry.done, entry.total));
    assert forall|name: Seq<char>| a.dom().contains(name) == b.dom().contains(name) by {
        if a.dom().contains(name) {
            let i = choose|i: int| 0 <= i < updated.len() && #[trigger] updated[i].name@ == name;
            assert(entries[i].name@ == name);
        }
        if b.dom().contains(name) {
            if name == entry.name@ {
                assert(updated[k].name@ == name);
            } else {
                let i = choose|i: int|
                    0 <= i < entries.len() && #[trigger] entries[i].name@ == name;
                assert(updated[i].name@ == name);
            }
        }
    }
    assert forall|name: Seq<char>| a.dom().contains(name) implies a[name] == b[name] by {
        let i = choose|i: int| 0 <= i < updated.len() && #[trigger] updated[i].name@ == name;
        if i == k {
            assert(a[updated[k].name@] == (updated[k].done, updated[k].total));
        } else {
            assert(updated[i] == entries[i]);
            assert(name != entry.name@) by {
                assert(entries[i].name@ != entries[k].name@);
            }
            assert(counts_of(entries)[entries[i].name@] == (entries[i].done, entries[i].total));
        }
    }
    assert(a =~= b);
}

/// The files of a run by name, each with its count of segments.
pub struct FileTable {
    entries: Vec<FileCount>,
}

impl View for FileTable {
    type V = Map<Seq<char>, (u64, u64)>;

    closed spec fn view(&self) -> Map<Seq<char>, (u64, u64)> {
        counts_of(self.entries@)
    }
}

impl FileTable {
    #[verifier::type_invariant]
    closed spec fn inv(&self) -> bool {
        names_differ(self.entries@)
    }

    /// No files.
    pub fn new() -> (table: FileTable)
        ensures
            table@ == Map::<Seq<char>, (u64, u64)>::empty(),
    {
        FileTable { entries: Vec::new() }
    }

    /// Number of files.
    pub fn len(&self) -> (n: usize)
        ensures
            n == self@.len(),
    {
        proof {
            use_type_invariant(self);
            lemma_counts(self.entries@);
        }
        self.entries.len()
    }

    /// Whether there are no files.
    pub fn is_empty(&self) -> (r: bool)
        ensures
            r == (self@.len() == 0),
    {
        self.len() == 0
    }

    fn position(&self, name: &String) -> (k: Option<usize>)
        ensures
            match k {
                Some(i) => i < self.entries@.len() && self.entries@[i as int].name@ == name@,
                None => !self@.dom().contains(name@),
            },
    {
        proof {
            use_type_invariant(self);
            lemma_counts(self.entries@);
        }
        let n: usize = self.entries.len();
        let mut i: usize = 0;
        while i < n
            invariant
                i <= n,
                n == self.entries@.len(),
                forall|j: int| 0 <= j < i ==> #[trigger] self.entries@[j].name@ != name@,
            decreases n - i,
        {
            if self.entries[i].name == *name {
                return Some(i);
            }
            i = i + 1;
        }
        None
    }

    /// The counts of a file, done first.
    pub fn get(&self, name: &String) -> (counts: Option<(u64, u64)>)
        ensures
            match counts {
                Some(c) => self@.dom().contains(name@) && self@[name@] == c,
                None => !self@.dom().contains(name@),
            },
    {
        proof {
            use_type_invariant(self);
            lemma_counts(self.entries@);
        }
        match self.position(name) {
            Some(i) => Some((self.entries[i].done, self.entries[i].total)),
            None => None,
        }
    }

    /// Set the counts of a file, in place of those that it had.
    pub fn insert(&mut self, name: String, counts: (u64, u64))
        ensures
            final(self)@ == old(self)@.insert(name@, counts),
    {
        proof {
            use_type_invariant(&*self);
            lemma_counts(self.entries@);
        }
        let ghost before = self.entries@;
        let entry: FileCount = FileCount { name, done: counts.0, total: counts.1 };
        let place: Option<usize> = self.position(&entry.name);
        let mut table: FileTable = FileTable::new();
        std::mem::swap(self, &mut table);
        let mut entries: Vec<FileCount> = table.entries;
        match place {
            Some(i) => {
                proof {
                    lemma_update(before, i as int, entry);
                }
                entries.set(i, entry);
            },
            None => {
                let ghost after = before.push(entry);
                proof {
                    assert(after.drop_last() =~= before);
                    assert(names_differ(after)) by {
                        assert forall|i: int, j: int|
                            0 <= i < j < after.len() implies #[trigger] after[i].name@
                            != #[trigger] after[j].name@ by {
                            assert(after[i] == before[i]);
                            assert(before[i].name@ != entry.name@);
                            if j < before.len() {
                                assert(after[j] == before[j]);
                            }
                        }
                    }
                }
                entries.push(entry);
            },
        }
        *self = FileTable { entries };
    }

    /// Files that have every segment done, and files partially in flight.
    pub fn tally(&self) -> (t: (usize, usize))
        ensures
            t.0 == complete_files(self@).len(),
            t.1 == files_in_flight(self@).len(),
    {
        proof {
            use_type_invariant(self);
            lemma_counts(self.entries@);
        }
        let n: usize = self.entries.len();
        let mut done: usize = 0;
        let mut in_flight: usize = 0;
        let mut i: usize = 0;
        proof {
            assert(complete_files(counts_of(self.entries@.take(0))) =~= Set::empty());
            assert(files_in_flight(counts_of(self.entries@.take(0))) =~= Set::empty());
        }
        while i < n
            invariant
                i <= n,
                n == self.entries@.len(),
                names_differ(self.entries@),
                done + in_flight <= i,
                done == complete_files(counts_of(self.entries@.take(i as int))).len(),
                in_flight == files_in_flight(counts_of(self.entries@.take(i as int))).len(),
            decreases n - i,
        {
            proof {
                lemma_tally_step(self.entries@, i as int);
            }
            let d: u64 = self.entries[i].done;
            let total: u64 = self.entries[i].total;
            if total > 0 && d >= total {
                done = done + 1;
            } else if d > 0 {
                in_flight = in_flight + 1;
            }
            i = i + 1;
        }
        assert(self.entries@.take(n as int) =~= self.entries@);
        (done, in_flight)
    }
}

proof fn lemma_tally_step(entries: Seq<FileCount>, i: int)
    requires
        names_differ(entries),
        0 <= i < entries.len(),
    ensures
        ({
            let e = entries[i];
            let a = counts_of(entries.take(i));
            let b = counts_of(entries.take(i + 1));
            let complete = e.total > 0 && e.done >= e.total;
            &&& complete_files(b).len() == complete_files(a).len() + if complete {
                1int
            } else {
                0
            }
            &&& files_in_flight(b).len() == files_in_flight(a).len() + if !complete && e.done > 0 {
                1int
            } else {
                0
            }
        }),
{
    let e = entries[i];
    let a = counts_of(entries.take(i));
    let b = counts_of(entries.take(i + 1));
    assert(entries.take(i + 1).drop_last() =~= entries.take(i));
    lemma_counts(entries.take(i));
    lemma_counts(entries.take(i + 1));
    assert(!a.dom().contains(e.name@)) by {
        if a.dom().contains(e.name@) {
            let k = choose|k: int|
                0 <= k < i && #[trigger] entries.take(i)[k].name@ == e.name@;
            assert(entries[k].name@ == entries[i].name@);
        }
    }
    a.dom().lemma_len_filter(|name: Seq<char>| a[name].1 > 0 && a[name].0 >= a[name].1);
    a.dom().lemma_len_filter(
        |name: Seq<char>| !(a[name].1 > 0 && a[name].0 >= a[name].1) && a[name].0 > 0,
    );
    if e.total > 0 && e.done >= e.total {
        assert(complete_files(b) =~= complete_files(a).insert(e.name@));
        assert(files_in_flight(b) =~= files_in_flight(a));
    } else {
        assert(complete_files(b) =~= complete_files(a));
        if e.done > 0 {
            assert(files_in_flight(b) =~= files_in_flight(a).insert(e.name@));
        } else {
            assert(files_in_flight(b) =~= files_in_flight(a));
        }
    }
}

/// A file is complete or in flight, never both.
pub proof fn law_no_file_counts_twice(counts: Map<Seq<char>, (u64, u64)>)
    ensures
        complete_files(counts).disjoint(files_in_flight(counts)),
        complete_files(counts).subset_of(counts.dom()),
        files_in_flight(counts).subset_of(counts.dom()),
{
}

} // verus!
