use vstd::prelude::*;

verus! {

/// One registration: an entrant's name, email and guessed number.
#[derive(Debug, Clone, PartialEq, Eq)]
pub struct Entry {
    pub id: u64,
    pub first_name: String,
    pub surname: String,
    pub email: String,
    pub number: i32,
    pub winner: bool,
}

/// How far a guess lies from the target number.
pub open spec fn distance(number: int, target: int) -> int {
    if number >= target {
        number - target
    } else {
        target - number
    }
}

/// The ranking order: smaller distance first, ties broken by the smaller id.
pub open spec fn ranks_before(a: Entry, b: Entry, target: int) -> bool {
    let da = distance(a.number as int, target);
    let db = distance(b.number as int, target);
    da < db || (da == db && a.id < b.id)
}

/// Whether no two entries of `s` share an id.
pub open spec fn ids_unique(s: Seq<Entry>) -> bool {
    forall|i: int, j: int| 0 <= i < j < s.len() ==> (#[trigger] s[i]).id != (#[trigger] s[j]).id
}

/// Whether some entry of `s` carries `id`.
pub open spec fn has_id(s: Seq<Entry>, id: u64) -> bool {
    exists|i: int| 0 <= i < s.len() && (#[trigger] s[i]).id == id
}

/// The same entry with its winner flag set to `w`.
pub open spec fn with_flag(e: Entry, w: bool) -> Entry {
    Entry { winner: w, ..e }
}

/// Distance of `number` to `target`, computed without overflow.
pub fn distance_of(number: i32, target: i32) -> (r: u64)
    ensures
        r as int == distance(number as int, target as int),
{
    let n = number as i64;
    let t = target as i64;
    if n >= t {
        (n - t) as u64
    } else {
        (t - n) as u64
    }
}

/// Whether `a` comes before `b` in the ranking order for `target`.
pub fn comes_before(a: &Entry, b: &Entry, target: i32) -> (r: bool)
    ensures
        r == ranks_before(*a, *b, target as int),
{
    let da = distance_of(a.number, target);
    let db = distance_of(b.number, target);
    da < db || (da == db && a.id < b.id)
}

impl Entry {
    /// A copy of this entry, equal to it in every field.
    pub fn duplicate(&self) -> (r: Entry)
        ensures
            r == *self,
    {
        Entry {
            id: self.id,
            first_name: self.first_name.clone(),
            surname: self.surname.clone(),
            email: self.email.clone(),
            number: self.number,
            winner: self.winner,
        }
    }
}

} // verus!
