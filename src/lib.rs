//! Registration storage and ranking engine of a raffle kiosk.
//!
//! Entries are validated, appended to an in-memory store that hands out
//! increasing ids, ranked by their distance to a target number, and exported
//! as a spreadsheet.
use vstd::prelude::*;

pub mod entry;
pub mod validation;
pub mod store;
pub mod ranking;
pub mod export;
pub mod kiosk;

pub use entry::{Entry, comes_before, distance_of};
pub use export::{ExportError, entry_cells, export, export_file_name, export_table};
pub use kiosk::{RaffleKiosk, RegistrationError, count_flags};
pub use ranking::{WINNER_LIMIT, count_closer, rank, rank_order, select_winners};
pub use store::{EntryStore, StorageError, contains_id};
pub use validation::{Registration, ValidationError, parse_number, validate};
