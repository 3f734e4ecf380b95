use vstd::prelude::*;
use crate::entry::{Entry, distance, has_id, ids_unique, with_flag};
use crate::export::{ExportError, decimal, entry_row, header_row, export, export_file_name, sheet_name, table_of, xlsx_fits, xlsx_of};
use crate::ranking::{in_rank_order, is_winner, lemma_closer_count_ignores_flags, lemma_winner_count, lemma_winner_is_closest, rank, winner_positions, WINNER_LIMIT};
use crate::store::{EntryStore, StorageError};
use crate::validation::{ValidationError, i32_of, validate, validation_error};

verus! {

broadcast use vstd::seq_lib::group_to_multiset_ensures;

/// Why a registration was not stored.
#[derive(Debug, Clone, Copy, PartialEq, Eq, Structural)]
pub enum RegistrationError {
    Validation(ValidationError),
    Storage(StorageError),
}

impl RegistrationError {
    /// The message that an error shows: that of the failed step.
    pub open spec fn text(self) -> Seq<char> {
        match self {
            RegistrationError::Validation(v) => v.text(),
            RegistrationError::Storage(s) => s.text(),
        }
    }

    /// A message for the person at the kiosk.
    pub fn message(&self) -> (r: String)
        ensures
            r@ == self.text(),
    {
        match self {
            RegistrationError::Validation(v) => v.message(),
            RegistrationError::Storage(s) => s.message(),
        }
    }
}

/// The table after a winner selection for `target` on `before`: every entry
/// kept in place, its flag set exactly when it wins.
pub open spec fn selection_result(before: Seq<Entry>, after: Seq<Entry>, target: int) -> bool {
    &&& after.len() == before.len()
    &&& forall|i: int|
        0 <= i < before.len() ==> #[trigger] after[i] == with_flag(
            before[i],
            is_winner(before, before[i], target),
        )
}

/// How many entries of `s` carry the winner flag.
pub open spec fn flag_count(s: Seq<Entry>) -> nat
    decreases s.len(),
{
    if s.len() == 0 {
        0
    } else {
        flag_count(s.drop_last()) + if s.last().winner {
            1nat
        } else {
            0nat
        }
    }
}

/// The registration desk: validation in front of the entry store, with
/// ranking and export on top.
pub struct RaffleKiosk {
    store: EntryStore,
}

impl View for RaffleKiosk {
    type V = Seq<Entry>;

    closed spec fn view(&self) -> Seq<Entry> {
        self.store@
    }
}

impl RaffleKiosk {
    pub closed spec fn wf(&self) -> bool {
        self.store.wf()
    }

    /// The id that the next registration will get.
    pub closed spec fn next_id(&self) -> u64 {
        self.store.next_id()
    }

    /// No two entries share an id, and each lies below the next id.
    pub proof fn lemma_ids(&self)
        requires
            self.wf(),
        ensures
            ids_unique(self@),
            forall|i: int| 0 <= i < self@.len() ==> (#[trigger] self@[i]).id < self.next_id(),
    {
        self.store.lemma_ids();
    }

    /// A kiosk with no registrations.
    pub fn new() -> (r: RaffleKiosk)
        ensures
            r.wf(),
            r@ == Seq::<Entry>::empty(),
            r.next_id() == 1,
    {
        RaffleKiosk { store: EntryStore::new() }
    }

    /// Validates a form and stores it as a new entry that has not won.
    pub fn submit_registration(
        &mut self,
        first_name: &str,
        surname: &str,
        email: &str,
        number_text: &str,
    ) -> (r: Result<Entry, RegistrationError>)
        requires
            old(self).wf(),
        ensures
            final(self).wf(),
            r is Ok <==> validation_error(first_name@, surname@, email@, number_text@) is None
                && old(self).next_id() < u64::MAX,
            match r {
                Ok(e) => {
                    &&& e.id == old(self).next_id()
                    &&& e.first_name@ == first_name@
                    &&& e.surname@ == surname@
                    &&& e.email@ == email@
                    &&& i32_of(number_text@) == Some(e.number)
                    &&& e.number >= 1
                    &&& !e.winner
                    &&& !has_id(old(self)@, e.id)
                    &&& final(self)@ == old(self)@.push(e)
                    &&& final(self).next_id() == e.id + 1
                },
                Err(RegistrationError::Validation(v)) => {
                    &&& validation_error(first_name@, surname@, email@, number_text@) == Some(v)
                    &&& final(self)@ == old(self)@
                    &&& final(self).next_id() == old(self).next_id()
                },
                Err(RegistrationError::Storage(s)) => {
                    &&& validation_error(first_name@, surname@, email@, number_text@) is None
                    &&& s == StorageError::ConstraintViolation
                    &&& final(self)@ == old(self)@
                    &&& final(self).next_id() == old(self).next_id()
                },
            },
    {
        let reg = match validate(first_name, surname, email, number_text) {
            Ok(reg) => reg,
            Err(v) => return Err(RegistrationError::Validation(v)),
        };
        match self.store.insert(first_name, surname, email, reg.number) {
            Ok(e) => Ok(e),
            Err(s) => Err(RegistrationError::Storage(s)),
        }
    }

    /// Every entry, by ascending id.
    pub fn entries(&self) -> (r: Vec<Entry>)
        ensures
            r@ == self@,
    {
        self.store.list_all()
    }

    /// The entries in display order for `target`: the winners for `target`
    /// first, then the others, each part by distance and then by id.
    pub fn get_display_table(&self, target: i32) -> (r: Vec<Entry>)
        requires
            self.wf(),
        ensures
            r@.to_multiset() == self@.to_multiset(),
            in_rank_order(r@, target as int),
            forall|i: int|
                0 <= i < r@.len() ==> (is_winner(self@, #[trigger] r@[i], target as int) <==> i
                    < WINNER_LIMIT),
    {
        proof {
            self.store.lemma_ids();
        }
        let all = self.store.list_all();
        let (order, _winners) = rank(&all, target);
        order
    }

    /// Marks the winners for `target`, replacing every earlier flag, and
    /// returns how many were marked.
    pub fn run_winner_selection(&mut self, target: i32) -> (r: usize)
        requires
            old(self).wf(),
        ensures
            final(self).wf(),
            final(self).next_id() == old(self).next_id(),
            selection_result(old(self)@, final(self)@, target as int),
            r == flag_count(final(self)@),
            r == if old(self)@.len() < WINNER_LIMIT {
                old(self)@.len()
            } else {
                WINNER_LIMIT as nat
            },
    {
        let all = self.store.list_all();
        let (_order, winners) = rank(&all, target);
        proof {
            self.store.lemma_ids();
        }
        let ghost before = self.store@;
        self.store.reset_and_mark_winners(&winners);
        proof {
            assert forall|i: int| 0 <= i < before.len() implies #[trigger] self.store@[i] == with_flag(
                before[i],
                is_winner(before, before[i], target as int),
            ) by {
                if winners@.contains(before[i].id) {
                    let k = choose|k: int|
                        0 <= k < all@.len() && (#[trigger] all@[k]).id == before[i].id && is_winner(
                            all@,
                            all@[k],
                            target as int,
                        );
                    if k != i {
                        assert(before[k].id != before[i].id);
                    }
                } else {
                    assert(all@[i].id == before[i].id);
                }
            }
        }
        proof {
            lemma_selection_marks_five(before, self.store@, target as int);
        }
        count_flags(&self.store.list_all())
    }

    /// The current table as a workbook, in insertion order, with the name of
    /// the file to write it to for an export made at `seconds` past the epoch.
    pub fn export_current_data(&self, seconds: u64) -> (r: Result<(String, Vec<u8>), ExportError>)
        ensures
            self@.len() == 0 <==> r == Err::<(String, Vec<u8>), ExportError>(ExportError::NoData),
            self@.len() > 0 ==> (r is Ok <==> xlsx_fits(sheet_name(), table_of(self@))),
            match r {
                Ok((name, bytes)) => {
                    &&& name@ == "registrations_"@ + decimal(seconds as int) + ".xlsx"@
                    &&& bytes@ == xlsx_of(sheet_name(), table_of(self@))
                },
                Err(e) => e == ExportError::NoData || (e == ExportError::WriteFailure && !xlsx_fits(
                    sheet_name(),
                    table_of(self@),
                )),
            },
    {
        let all = self.store.list_all();
        match export(&all) {
            Ok(bytes) => Ok((export_file_name(seconds), bytes)),
            Err(e) => Err(e),
        }
    }
}

/// How many entries carry the winner flag.
pub fn count_flags(entries: &Vec<Entry>) -> (r: usize)
    ensures
        r == flag_count(entries@),
{
    let mut n: usize = 0;
    let mut i: usize = 0;
    while i < entries.len()
        invariant
            i <= entries@.len(),
            n <= i,
            n == flag_count(entries@.subrange(0, i as int)),
        decreases entries@.len() - i,
    {
        assert(entries@.subrange(0, i + 1).drop_last() =~= entries@.subrange(0, i as int));
        if entries[i].winner {
            n = n + 1;
        }
        i = i + 1;
    }
    assert(entries@.subrange(0, i as int) =~= entries@);
    n
}

/// The positions of `s` whose entry carries the winner flag.
pub open spec fn flagged_positions(s: Seq<Entry>) -> Set<int> {
    Set::new(|i: int| 0 <= i < s.len() && s[i].winner)
}

/// Counting flags one by one gives the size of the set of flagged positions.
proof fn lemma_flag_count_positions(s: Seq<Entry>)
    ensures
        flagged_positions(s).finite(),
        flag_count(s) == flagged_positions(s).len(),
    decreases s.len(),
{
    if s.len() == 0 {
        assert(flagged_positions(s) =~= Set::<int>::empty());
    } else {
        let p = s.drop_last();
        lemma_flag_count_positions(p);
        let last = s.len() - 1;
        if s.last().winner {
            assert(flagged_positions(s) =~= flagged_positions(p).insert(last));
        } else {
            assert(flagged_positions(s) =~= flagged_positions(p));
        }
    }
}

/// A selection marks five entries, or every entry of a smaller table.
pub proof fn lemma_selection_marks_five(before: Seq<Entry>, after: Seq<Entry>, target: int)
    requires
        ids_unique(before),
        selection_result(before, after, target),
    ensures
        flag_count(after) == if before.len() < WINNER_LIMIT {
            before.len()
        } else {
            WINNER_LIMIT as nat
        },
{
    lemma_winner_count(before, target);
    lemma_flag_count_positions(after);
    assert forall|i: int| #[trigger] flagged_positions(after).contains(i) <==> winner_positions(before, target).contains(i) by {
        if 0 <= i < before.len() {
            assert(after[i] == with_flag(before[i], is_winner(before, before[i], target)));
        }
    }
    assert(flagged_positions(after) =~= winner_positions(before, target));
}

/// A registration that was just stored shows up in the display table exactly
/// once, as it was stored, and not as a winner.
pub proof fn lemma_submitted_entry_shown_once(before: Seq<Entry>, e: Entry, shown: Seq<Entry>)
    requires
        !has_id(before, e.id),
        !e.winner,
        shown.to_multiset() == before.push(e).to_multiset(),
    ensures
        exists|i: int|
            0 <= i < shown.len() && #[trigger] shown[i] == e && !shown[i].winner && forall|j: int|
                0 <= j < shown.len() && j != i ==> (#[trigger] shown[j]).id != e.id,
{
    let all = before.push(e);
    assert(all[before.len() as int] == e);
    assert(all.contains(e));
    assert(all.to_multiset().count(e) > 0);
    assert(shown.to_multiset().count(e) > 0);
    assert(shown.contains(e));
    let i = choose|i: int| 0 <= i < shown.len() && shown[i] == e;
    assert forall|j: int| 0 <= j < shown.len() && j != i implies (#[trigger] shown[j]).id != e.id by {
        if shown[j].id == e.id {
            let x = shown[j];
            assert(shown.contains(x));
            assert(shown.to_multiset().count(x) > 0);
            assert(all.to_multiset().count(x) > 0);
            assert(all.contains(x));
            let k = choose|k: int| 0 <= k < all.len() && all[k] == x;
            if k < before.len() {
                assert(before[k] == x);
                assert(before[k].id == e.id);
                assert(has_id(before, e.id));
            } else {
                assert(x == e);
                let rest = shown.remove(i);
                let jj = if j < i { j } else { j - 1 };
                assert(rest[jj] == x);
                assert(rest.contains(e));
                assert(rest.to_multiset() == shown.to_multiset().remove(e));
                assert(before.contains(e) == false) by {
                    if before.contains(e) {
                        let m = choose|m: int| 0 <= m < before.len() && before[m] == e;
                        assert(before[m].id == e.id);
                    }
                }
                assert(before.to_multiset().count(e) == 0);
                assert(all.to_multiset() == before.to_multiset().insert(e));
                assert(all.to_multiset().count(e) == 1);
                assert(rest.to_multiset().count(e) > 0);
                assert(shown.to_multiset().count(e) == 1);
            }
        }
    }
}

/// Running the selection again with the same target changes nothing.
pub proof fn lemma_selection_idempotent(s0: Seq<Entry>, s1: Seq<Entry>, s2: Seq<Entry>, target: int)
    requires
        selection_result(s0, s1, target),
        selection_result(s1, s2, target),
    ensures
        s2 == s1,
{
    assert forall|i: int| 0 <= i < s1.len() implies #[trigger] s2[i] == s1[i] by {
        assert(s1[i] == with_flag(s0[i], is_winner(s0, s0[i], target)));
        assert forall|k: int| 0 <= k < s0.len() implies (#[trigger] s0[k]).id == s1[k].id
            && s0[k].number == s1[k].number by {
            assert(s1[k] == with_flag(s0[k], is_winner(s0, s0[k], target)));
        }
        lemma_closer_count_ignores_flags(s0, s1, s0[i], s1[i], target);
    }
    assert(s2 =~= s1);
}

/// After a selection no entry left unmarked is closer to the target than a
/// marked one.
pub proof fn lemma_winners_are_closest(before: Seq<Entry>, after: Seq<Entry>, target: int, a: int, c: int)
    requires
        selection_result(before, after, target),
        0 <= a < after.len(),
        0 <= c < after.len(),
        after[a].winner,
        !after[c].winner,
    ensures
        distance(after[a].number as int, target) <= distance(after[c].number as int, target),
{
    assert(after[a] == with_flag(before[a], is_winner(before, before[a], target)));
    assert(after[c] == with_flag(before[c], is_winner(before, before[c], target)));
    assert(before.contains(before[c]));
    lemma_winner_is_closest(before, before[a], before[c], target);
}

/// The export of a table with one entry holds the header and that entry's row.
pub proof fn lemma_single_entry_export(e: Entry)
    ensures
        table_of(seq![e]) == seq![header_row(), entry_row(e)],
        table_of(seq![e]).len() == 2,
{
    assert(seq![e].map_values(|x: Entry| entry_row(x)) =~= seq![entry_row(e)]);
    assert(table_of(seq![e]) =~= seq![header_row(), entry_row(e)]);
}

} // verus!
