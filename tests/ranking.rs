use snow_raffle::{
    comes_before, contains_id, count_closer, distance_of, entry_cells, export, export_file_name,
    rank, rank_order, select_winners, Entry, ExportError,
};

fn entry(id: u64, number: i32) -> Entry {
    Entry {
        id,
        first_name: format!("F{}", id),
        surname: "S".to_string(),
        email: "e@x".to_string(),
        number,
        winner: false,
    }
}

#[test]
fn distance_is_absolute_and_does_not_overflow() {
    assert_eq!(distance_of(10, 50), 40);
    assert_eq!(distance_of(70, 50), 20);
    assert_eq!(distance_of(50, 50), 0);
    assert_eq!(distance_of(i32::MIN, i32::MAX), 4294967295);
}

#[test]
fn ranking_order_breaks_ties_by_id() {
    assert!(comes_before(&entry(2, 48), &entry(1, 45), 50));
    assert!(comes_before(&entry(1, 45), &entry(2, 55), 50));
    assert!(!comes_before(&entry(2, 55), &entry(1, 45), 50));
    assert!(!comes_before(&entry(1, 45), &entry(1, 45), 50));
}

#[test]
fn closer_counts_for_a_small_table() {
    let t = vec![entry(1, 10), entry(2, 50), entry(3, 55)];
    assert_eq!(count_closer(&t, &t[0], 50), 2);
    assert_eq!(count_closer(&t, &t[1], 50), 0);
    assert_eq!(count_closer(&t, &t[2], 50), 1);
}

#[test]
fn rank_of_empty_table() {
    let (order, winners) = rank(&vec![], 7);
    assert!(order.is_empty());
    assert!(winners.is_empty());
}

#[test]
fn rank_sorts_and_selects() {
    let t: Vec<Entry> = [10, 50, 55, 60, 65, 70]
        .iter()
        .enumerate()
        .map(|(i, n)| entry(i as u64 + 1, *n))
        .collect();
    let (order, winners) = rank(&t, 50);
    let ids: Vec<u64> = order.iter().map(|e| e.id).collect();
    assert_eq!(ids, vec![2, 3, 4, 5, 6, 1]);
    assert_eq!(winners, vec![2, 3, 4, 5, 6]);
    assert_eq!(select_winners(&t, 50), winners);
    assert_eq!(rank_order(&t, 50), order);
    assert!(contains_id(&winners, 4));
    assert!(!contains_id(&winners, 1));
}

#[test]
fn export_cells_of_one_entry() {
    let mut e = entry(12, -34);
    assert_eq!(entry_cells(&e), vec!["12", "F12", "S", "e@x", "-34", "NO"]);
    e.winner = true;
    assert_eq!(entry_cells(&e)[5], "YES");
}

#[test]
fn export_bytes_and_file_name() {
    assert_eq!(export(&vec![]).unwrap_err(), ExportError::NoData);
    let bytes = export(&vec![entry(1, 5), entry(2, 9)]).unwrap();
    assert!(bytes.len() > 100);
    assert_eq!(&bytes[0..2], b"PK");
    assert_eq!(export_file_name(0), "registrations_0.xlsx");
    assert_eq!(export_file_name(18446744073709551615), "registrations_18446744073709551615.xlsx");
}

#[test]
fn winner_list_has_five_distinct_ids_on_full_ties() {
    let t: Vec<Entry> = (1..=7).map(|id| entry(id, 9)).collect();
    let winners = select_winners(&t, 9);
    assert_eq!(winners, vec![1, 2, 3, 4, 5]);
    let (_, from_rank) = rank(&t, 9);
    assert_eq!(from_rank, winners);
}

#[test]
fn winner_list_of_a_small_table_holds_every_id() {
    let t = vec![entry(4, 1), entry(9, 100)];
    assert_eq!(select_winners(&t, 50), vec![4, 9]);
}

#[test]
fn export_error_messages_are_fixed() {
    assert_eq!(ExportError::NoData.message(), "No data to export!");
    assert_eq!(
        ExportError::WriteFailure.message(),
        "Write error: the workbook could not be written"
    );
}
