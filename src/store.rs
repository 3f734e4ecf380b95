use vstd::prelude::*;
use vstd::string::*;
use crate::entry::{Entry, has_id, ids_unique, with_flag};

verus! {

/// Why the store could not take a write.
#[derive(Debug, Clone, Copy, PartialEq, Eq, Structural)]
pub enum StorageError {
    /// The write would break a rule of the table: no fresh id is left.
    ConstraintViolation,
    /// The medium behind the table failed.
    IOFailure,
}

impl StorageError {
    /// The message that an error shows.
    pub open spec fn text(self) -> Seq<char> {
        match self {
            StorageError::ConstraintViolation => "Storage error: no free id is left"@,
            StorageError::IOFailure => "Storage error: the medium failed"@,
        }
    }

    /// A message for the operator.
    pub fn message(&self) -> (r: String)
        ensures
            r@ == self.text(),
    {
        match self {
            StorageError::ConstraintViolation => {
                proof { reveal_strlit("Storage error: no free id is left"); }
                String::from_str("Storage error: no free id is left")
            },
            StorageError::IOFailure => {
                proof { reveal_strlit("Storage error: the medium failed"); }
                String::from_str("Storage error: the medium failed")
            },
        }
    }
}

/// The table of registrations, in insertion order.
///
/// Ids are handed out in increasing order and never reused; rows are never
/// removed, and only their winner flag ever changes.
pub struct EntryStore {
    entries: Vec<Entry>,
    next_id: u64,
}

impl View for EntryStore {
    type V = Seq<Entry>;

    closed spec fn view(&self) -> Seq<Entry> {
        self.entries@
    }
}

impl EntryStore {
    /// The id that the next insert will hand out.
    pub closed spec fn next_id(&self) -> u64 {
        self.next_id
    }

    /// Ids increase along the table and stay below the next one to hand out.
    pub closed spec fn wf(&self) -> bool {
        &&& self.next_id >= 1
        &&& forall|i: int, j: int|
            0 <= i < j < self.entries@.len() ==> (#[trigger] self.entries@[i]).id
                < (#[trigger] self.entries@[j]).id
        &&& forall|i: int| 0 <= i < self.entries@.len() ==> (#[trigger] self.entries@[i]).id < self.next_id
    }

    /// In a well-formed store no two entries share an id, and every id lies
    /// below the next one to hand out.
    pub proof fn lemma_ids(&self)
        requires
            self.wf(),
        ensures
            ids_unique(self@),
            forall|i: int| 0 <= i < self@.len() ==> (#[trigger] self@[i]).id < self.next_id(),
            forall|i: int, j: int| 0 <= i < j < self@.len() ==> (#[trigger] self@[i]).id < (#[trigger] self@[j]).id,
    {
    }

    /// An empty store whose first id is 1.
    pub fn new() -> (r: EntryStore)
        ensures
            r.wf(),
            r@ == Seq::<Entry>::empty(),
            r.next_id() == 1,
    {
        EntryStore { entries: Vec::new(), next_id: 1 }
    }

    /// The number of entries.
    pub fn len(&self) -> (r: usize)
        ensures
            r == self@.len(),
    {
        self.entries.len()
    }

    /// Appends an entry that is not a winner, under the next id.
    pub fn insert(&mut self, first_name: &str, surname: &str, email: &str, number: i32) -> (r: Result<
        Entry,
        StorageError,
    >)
        requires
            old(self).wf(),
        ensures
            final(self).wf(),
            r is Ok <==> old(self).next_id() < u64::MAX,
            match r {
                Ok(e) => {
                    &&& e.id == old(self).next_id()
                    &&& e.first_name@ == first_name@
                    &&& e.surname@ == surname@
                    &&& e.email@ == email@
                    &&& e.number == number
                    &&& !e.winner
                    &&& !has_id(old(self)@, e.id)
                    &&& final(self)@ == old(self)@.push(e)
                    &&& final(self).next_id() == e.id + 1
                },
                Err(err) => {
                    &&& err == StorageError::ConstraintViolation
                    &&& final(self)@ == old(self)@
                    &&& final(self).next_id() == old(self).next_id()
                },
            },
    {
        if self.next_id == u64::MAX {
            return Err(StorageError::ConstraintViolation);
        }
        let e = Entry {
            id: self.next_id,
            first_name: String::from_str(first_name),
            surname: String::from_str(surname),
            email: String::from_str(email),
            number,
            winner: false,
        };
        let r = e.duplicate();
        self.entries.push(e);
        self.next_id = self.next_id + 1;
        Ok(r)
    }

    /// Every entry, by ascending id.
    pub fn list_all(&self) -> (r: Vec<Entry>)
        ensures
            r@ == self@,
    {
        let mut out: Vec<Entry> = Vec::new();
        let mut i: usize = 0;
        while i < self.entries.len()
            invariant
                i <= self.entries@.len(),
                out@ == self.entries@.subrange(0, i as int),
            decreases self.entries@.len() - i,
        {
            out.push(self.entries[i].duplicate());
            i = i + 1;
            assert(out@ =~= self.entries@.subrange(0, i as int));
        }
        assert(out@ =~= self.entries@);
        out
    }

    /// Clears every winner flag, then sets it on exactly the entries whose id
    /// is listed, as one step.
    pub fn reset_and_mark_winners(&mut self, winner_ids: &Vec<u64>)
        requires
            old(self).wf(),
        ensures
            final(self).wf(),
            final(self).next_id() == old(self).next_id(),
            final(self)@.len() == old(self)@.len(),
            forall|i: int|
                0 <= i < old(self)@.len() ==> #[trigger] final(self)@[i] == with_flag(
                    old(self)@[i],
                    winner_ids@.contains(old(self)@[i].id),
                ),
    {
        let ghost before = self.entries@;
        let n = self.entries.len();
        let mut i: usize = 0;
        while i < n
            invariant
                n == before.len(),
                self.entries@.len() == n,
                i <= n,
                self.next_id == old(self).next_id,
                before == old(self)@,
                forall|k: int| i <= k < n ==> #[trigger] self.entries@[k] == before[k],
                forall|k: int|
                    0 <= k < i ==> #[trigger] self.entries@[k] == with_flag(
                        before[k],
                        winner_ids@.contains(before[k].id),
                    ),
                old(self).wf(),
            decreases n - i,
        {
            let flag = contains_id(winner_ids, self.entries[i].id);
            let mut e = self.entries[i].duplicate();
            e.winner = flag;
            self.entries.set(i, e);
            i = i + 1;
        }
        proof {
            assert forall|a: int, b: int| 0 <= a < b < self.entries@.len() implies (
            #[trigger] self.entries@[a]).id < (#[trigger] self.entries@[b]).id by {
                assert(before[a].id < before[b].id);
            }
            assert forall|a: int| 0 <= a < self.entries@.len() implies (
            #[trigger] self.entries@[a]).id < self.next_id by {
                assert(before[a].id < self.next_id);
            }
        }
    }
}

/// Whether `id` is listed in `ids`.
pub fn contains_id(ids: &Vec<u64>, id: u64) -> (r: bool)
    ensures
        r == ids@.contains(id),
{
    let mut i: usize = 0;
    while i < ids.len()
        invariant
            i <= ids@.len(),
            forall|k: int| 0 <= k < i ==> ids@[k] != id,
        decreases ids@.len() - i,
    {
        if ids[i] == id {
            assert(ids@[i as int] == id);
            return true;
        }
        i = i + 1;
    }
    false
}

} // verus!
