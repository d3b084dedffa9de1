//! Counting files by extension.

use vstd::hash_map::StringHashMap;
use vstd::prelude::*;
use vstd::string::*;

use crate::records::FileView;

verus! {

/// How many of `files` have this extension.
pub open spec fn count_of(files: Seq<FileView>, extension: Seq<char>) -> nat
    decreases files.len(),
{
    if files.len() == 0 {
        0
    } else {
        count_of(files.drop_last(), extension) + if files.last().extension == extension {
            1nat
        } else {
            0
        }
    }
}

/// How many bytes the files with this extension have.
pub open spec fn bytes_of(files: Seq<FileView>, extension: Seq<char>) -> nat
    decreases files.len(),
{
    if files.len() == 0 {
        0
    } else {
        bytes_of(files.drop_last(), extension) + if files.last().extension == extension {
            files.last().size
        } else {
            0
        }
    }
}

/// How many bytes `files` have.
pub open spec fn total_size(files: Seq<FileView>) -> nat
    decreases files.len(),
{
    if files.len() == 0 {
        0
    } else {
        total_size(files.drop_last()) + files.last().size
    }
}

/// The count of one extension.
pub struct Counted {
    pub extension: String,
    pub count: u64,
    pub bytes: u64,
}

/// The count of one extension, as mathematical values.
#[verifier::ext_equal]
pub struct CountView {
    pub extension: Seq<char>,
    pub count: nat,
    pub bytes: nat,
}

impl View for Counted {
    type V = CountView;

    open spec fn view(&self) -> CountView {
        CountView {
            extension: self.extension@,
            count: self.count as nat,
            bytes: self.bytes as nat,
        }
    }
}

/// The counts of a list, as mathematical values.
pub open spec fn count_views(counts: Seq<Counted>) -> Seq<CountView> {
    counts.map_values(|c: Counted| c@)
}

/// Whether `counts` has an entry for this extension.
pub open spec fn lists(counts: Seq<CountView>, extension: Seq<char>) -> bool {
    exists|i: int| 0 <= i < counts.len() && #[trigger] counts[i].extension == extension
}

/// Whether `counts` counts `files`: one entry for each extension that occurs, and for no
/// other, with the number and the bytes of its files.
pub open spec fn is_tally(counts: Seq<CountView>, files: Seq<FileView>) -> bool {
    &&& forall|i: int, j: int|
        0 <= i < j < counts.len() ==> (#[trigger] counts[i]).extension != (
        #[trigger] counts[j]).extension
    &&& forall|i: int|
        0 <= i < counts.len() ==> {
            &&& (#[trigger] counts[i]).count == count_of(files, counts[i].extension)
            &&& counts[i].bytes == bytes_of(files, counts[i].extension)
            &&& counts[i].count > 0
        }
    &&& forall|k: int|
        0 <= k < files.len() ==> lists(counts, (#[trigger] files[k]).extension)
}

/// A part is no more than the whole.
pub proof fn lemma_part_of_total(files: Seq<FileView>, extension: Seq<char>)
    ensures
        count_of(files, extension) <= files.len(),
        bytes_of(files, extension) <= total_size(files),
    decreases files.len(),
{
    if files.len() > 0 {
        lemma_part_of_total(files.drop_last(), extension);
    }
}

/// An extension that is counted occurs.
pub proof fn lemma_counted_occurs(files: Seq<FileView>, extension: Seq<char>)
    ensures
        count_of(files, extension) > 0 <==> exists|k: int|
            0 <= k < files.len() && (#[trigger] files[k]).extension == extension,
        count_of(files, extension) == 0 ==> bytes_of(files, extension) == 0,
    decreases files.len(),
{
    if files.len() > 0 {
        let front = files.drop_last();
        lemma_counted_occurs(front, extension);
        if count_of(front, extension) > 0 {
            let k = choose|k: int|
                0 <= k < front.len() && (#[trigger] front[k]).extension == extension;
            assert(files[k].extension == extension);
        }
        if files.last().extension == extension {
            assert(files[files.len() - 1].extension == extension);
        }
        if exists|k: int| 0 <= k < files.len() && (#[trigger] files[k]).extension == extension {
            let k = choose|k: int|
                0 <= k < files.len() && (#[trigger] files[k]).extension == extension;
            if k < front.len() {
                assert(front[k].extension == extension);
            }
        }
    }
}

/// The extensions that were met so far, each with its count.
pub struct Tally {
    counts: Vec<Counted>,
    positions: StringHashMap<usize>,
}

impl Tally {
    /// The counts, in the order in which the extensions were met.
    pub closed spec fn counts(self) -> Seq<CountView> {
        count_views(self.counts@)
    }

    /// Whether the table of positions fits the list of counts.
    pub closed spec fn wf(self) -> bool {
        &&& forall|i: int|
            0 <= i < self.counts@.len() ==> {
                &&& self.positions@.contains_key((#[trigger] self.counts@[i]).extension@)
                &&& self.positions@[self.counts@[i].extension@] == i
            }
        &&& forall|e: Seq<char>| #[trigger]
            self.positions@.contains_key(e) ==> {
                &&& self.positions@[e] < self.counts@.len()
                &&& self.counts@[self.positions@[e] as int].extension@ == e
            }
    }

    /// Nothing counted yet.
    pub fn new() -> (r: Tally)
        ensures
            r.wf(),
            is_tally(r.counts(), Seq::empty()),
            r.counts().len() == 0,
    {
        Tally { counts: Vec::new(), positions: StringHashMap::new() }
    }

    /// Counts one more file.
    pub(crate) fn record(
        &mut self,
        extension: &String,
        size: u64,
        Ghost(files): Ghost<Seq<FileView>>,
        Ghost(file): Ghost<FileView>,
    )
        requires
            old(self).wf(),
            is_tally(old(self).counts(), files),
            file.extension == extension@,
            file.size == size,
            total_size(files) + size <= u64::MAX,
            files.len() < u64::MAX,
        ensures
            final(self).wf(),
            is_tally(final(self).counts(), files.push(file)),
    {
        let ghost before = self.counts();
        let ghost after = files.push(file);
        let position: Option<usize> = match self.positions.get(extension.as_str()) {
            Some(i) => Some(*i),
            None => None,
        };
        proof {
            lemma_part_of_total(files, extension@);
            lemma_counted_occurs(files, extension@);
            assert(after.drop_last() =~= files);
            assert forall|k: int| 0 <= k < files.len() implies after[k] == files[k] by {}
        }
        match position {
            Some(i) => {
                let count: u64 = self.counts[i].count;
                let bytes: u64 = self.counts[i].bytes;
                assert(before[i as int] == self.counts@[i as int]@);
                self.counts.set(
                    i,
                    Counted { extension: extension.clone(), count: count + 1, bytes: bytes + size },
                );
                proof {
                    let now = self.counts();
                    assert forall|j: int| 0 <= j < now.len() implies now[j].extension
                        == before[j].extension by {}
                    assert(now[i as int].extension == file.extension);
                    assert forall|k: int| 0 <= k < after.len() implies lists(
                        now,
                        (#[trigger] after[k]).extension,
                    ) by {
                        if k < files.len() {
                            assert(lists(before, files[k].extension));
                            let j = choose|j: int|
                                0 <= j < before.len() && #[trigger] before[j].extension
                                    == files[k].extension;
                            assert(now[j].extension == after[k].extension);
                        }
                    }
                    assert forall|j: int| 0 <= j < now.len() && j != i implies now[j]
                        == before[j] && now[j].extension != file.extension by {
                        assert(before[j].extension != before[i as int].extension);
                    }
                }
            },
            None => {
                let at: usize = self.counts.len();
                self.counts.push(Counted { extension: extension.clone(), count: 1, bytes: size });
                self.positions.insert(extension.clone(), at);
                proof {
                    let now = self.counts();
                    assert(now =~= before.push(self.counts@[at as int]@));
                    assert forall|j: int| 0 <= j < before.len() implies before[j].extension
                        != file.extension by {
                        assert(old(self).counts@[j].extension@ == before[j].extension);
                    }
                    assert(!lists(before, file.extension));
                    assert(count_of(files, file.extension) == 0) by {
                        if count_of(files, file.extension) > 0 {
                            let k = choose|k: int|
                                0 <= k < files.len() && (#[trigger] files[k]).extension
                                    == file.extension;
                            assert(lists(before, files[k].extension));
                        }
                    }
                    assert forall|k: int| 0 <= k < after.len() implies lists(
                        now,
                        (#[trigger] after[k]).extension,
                    ) by {
                        if k < files.len() {
                            assert(lists(before, files[k].extension));
                            let j = choose|j: int|
                                0 <= j < before.len() && #[trigger] before[j].extension
                                    == files[k].extension;
                            assert(now[j].extension == after[k].extension);
                        } else {
                            assert(now[at as int].extension == after[k].extension);
                        }
                    }
                }
            },
        }
    }

    /// How many extensions were met.
    pub fn len(&self) -> (r: usize)
        ensures
            r == self.counts().len(),
    {
        self.counts.len()
    }

    /// The count at position `i`.
    pub fn get(&self, i: usize) -> (r: &Counted)
        requires
            i < self.counts().len(),
        ensures
            r@ == self.counts()[i as int],
    {
        &self.counts[i]
    }
}

} // verus!
