use snow_raffle::{
    count_flags, EntryStore, ExportError, RaffleKiosk, RegistrationError, StorageError,
    ValidationError, WINNER_LIMIT,
};

fn kiosk_with(numbers: &[i32]) -> RaffleKiosk {
    let mut k = RaffleKiosk::new();
    for (i, n) in numbers.iter().enumerate() {
        let first = format!("P{}", i);
        k.submit_registration(&first, "Doe", "p@example.com", &n.to_string()).unwrap();
    }
    k
}

fn winner_numbers(k: &RaffleKiosk) -> Vec<i32> {
    let mut w: Vec<i32> = k.entries().iter().filter(|e| e.winner).map(|e| e.number).collect();
    w.sort();
    w
}

#[test]
fn submit_rejects_each_kind_of_bad_form() {
    let mut k = RaffleKiosk::new();
    assert_eq!(
        k.submit_registration("", "Doe", "a@b.com", "5").unwrap_err(),
        RegistrationError::Validation(ValidationError::MissingField)
    );
    assert_eq!(
        k.submit_registration("Jo", "Doe", "a@b.com", "abc").unwrap_err(),
        RegistrationError::Validation(ValidationError::NotANumber)
    );
    assert_eq!(
        k.submit_registration("Jo", "Doe", "a@b.com", "0").unwrap_err(),
        RegistrationError::Validation(ValidationError::OutOfRange)
    );
    assert!(k.entries().is_empty());
}

#[test]
fn submitted_entry_appears_once_in_display_table() {
    let mut k = kiosk_with(&[3, 9]);
    let e = k.submit_registration("Ann", "Lee", "ann@lee.org", "7").unwrap();
    assert_eq!(e.id, 3);
    let shown = k.get_display_table(7);
    assert_eq!(shown.len(), 3);
    let same: Vec<_> = shown.iter().filter(|x| x.id == e.id).collect();
    assert_eq!(same.len(), 1);
    assert_eq!(same[0].first_name, "Ann");
    assert_eq!(same[0].surname, "Lee");
    assert_eq!(same[0].email, "ann@lee.org");
    assert_eq!(same[0].number, 7);
    assert!(!same[0].winner);
}

#[test]
fn ids_start_at_one_and_increase() {
    let k = kiosk_with(&[1, 2, 3]);
    let ids: Vec<u64> = k.entries().iter().map(|e| e.id).collect();
    assert_eq!(ids, vec![1, 2, 3]);
}

#[test]
fn scenario_target_fifty() {
    let mut k = kiosk_with(&[10, 50, 55, 60, 65, 70]);
    assert_eq!(k.run_winner_selection(50), 5);
    assert_eq!(winner_numbers(&k), vec![50, 55, 60, 65, 70]);
    let ten = k.entries().into_iter().find(|e| e.number == 10).unwrap();
    assert!(!ten.winner);
    let order: Vec<i32> = k.get_display_table(50).iter().map(|e| e.number).collect();
    assert_eq!(order, vec![50, 55, 60, 65, 70, 10]);
}

#[test]
fn selection_twice_gives_same_winners() {
    let mut k = kiosk_with(&[4, 8, 15, 16, 23, 42, 7]);
    k.run_winner_selection(20);
    let first = k.entries();
    k.run_winner_selection(20);
    assert_eq!(k.entries(), first);
}

#[test]
fn winner_count_is_capped_at_five() {
    let mut empty = RaffleKiosk::new();
    assert_eq!(empty.run_winner_selection(3), 0);
    let mut three = kiosk_with(&[1, 2, 3]);
    assert_eq!(three.run_winner_selection(100), 3);
    assert_eq!(count_flags(&three.entries()), 3);
    let mut seven = kiosk_with(&[5, 5, 5, 5, 5, 5, 5]);
    assert_eq!(seven.run_winner_selection(5), WINNER_LIMIT);
    assert_eq!(count_flags(&seven.entries()), 5);
}

#[test]
fn equal_distances_go_to_the_lower_id() {
    let mut k = kiosk_with(&[55, 45, 60, 40, 65, 35, 70]);
    assert_eq!(k.run_winner_selection(50), 5);
    // 55 and 45 tie at 5, 60 and 40 at 10, 65 and 35 at 15: the earlier id wins.
    assert_eq!(winner_numbers(&k), vec![40, 45, 55, 60, 65]);
    let order: Vec<i32> = k.get_display_table(50).iter().map(|e| e.number).collect();
    assert_eq!(order, vec![55, 45, 60, 40, 65, 35, 70]);
}

#[test]
fn new_selection_replaces_old_flags() {
    let mut k = kiosk_with(&[1, 2, 3, 4, 5, 100, 101, 102, 103, 104]);
    k.run_winner_selection(1);
    assert_eq!(winner_numbers(&k), vec![1, 2, 3, 4, 5]);
    k.run_winner_selection(104);
    assert_eq!(winner_numbers(&k), vec![100, 101, 102, 103, 104]);
}

#[test]
fn no_loser_is_closer_than_a_winner() {
    let mut k = kiosk_with(&[90, 12, 33, 47, 51, 8, 64, 29]);
    let t = 40;
    k.run_winner_selection(t);
    let all = k.entries();
    for a in all.iter().filter(|e| e.winner) {
        for c in all.iter().filter(|e| !e.winner) {
            assert!((a.number - t).abs() <= (c.number - t).abs());
        }
    }
}

#[test]
fn display_table_shows_winners_first() {
    let mut k = kiosk_with(&[1, 200, 3, 150, 5, 120, 7]);
    k.run_winner_selection(130);
    let shown = k.get_display_table(130);
    let flags: Vec<bool> = shown.iter().map(|e| e.winner).collect();
    assert_eq!(flags, vec![true, true, true, true, true, false, false]);
    let numbers: Vec<i32> = shown.iter().map(|e| e.number).collect();
    assert_eq!(numbers, vec![120, 150, 200, 7, 5, 3, 1]);
}

#[test]
fn export_of_empty_kiosk_has_no_data() {
    let k = RaffleKiosk::new();
    assert_eq!(k.export_current_data(0).unwrap_err(), ExportError::NoData);
}

#[test]
fn export_after_one_registration() {
    let mut k = RaffleKiosk::new();
    k.submit_registration("Jo", "Doe", "a@b.com", "5").unwrap();
    let (name, bytes) = k.export_current_data(1700000000).unwrap();
    assert_eq!(name, "registrations_1700000000.xlsx");
    assert_eq!(&bytes[0..2], b"PK");
    let table = snow_raffle::export_table(&k.entries()).unwrap();
    assert_eq!(table.len(), 2);
    assert_eq!(table[1], vec!["1", "Jo", "Doe", "a@b.com", "5", "NO"]);
}

#[test]
fn store_marks_exactly_the_listed_ids() {
    let mut s = EntryStore::new();
    for n in [3, 4, 5] {
        s.insert("A", "B", "c@d", n).unwrap();
    }
    s.reset_and_mark_winners(&vec![2, 9]);
    let flags: Vec<bool> = s.list_all().iter().map(|e| e.winner).collect();
    assert_eq!(flags, vec![false, true, false]);
    s.reset_and_mark_winners(&vec![]);
    assert_eq!(count_flags(&s.list_all()), 0);
    assert_eq!(s.len(), 3);
}

#[test]
fn error_messages_are_distinct() {
    let m = [
        RegistrationError::Validation(ValidationError::MissingField).message(),
        RegistrationError::Storage(StorageError::ConstraintViolation).message(),
        StorageError::IOFailure.message(),
        ExportError::NoData.message(),
        ExportError::WriteFailure.message(),
    ];
    for i in 0..m.len() {
        assert!(!m[i].is_empty());
        for j in 0..i {
            assert_ne!(m[i], m[j]);
        }
    }
}
