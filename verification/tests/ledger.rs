use split_app::expense::{
    delete_record, find_or_create, find_record, get_record, index_records, lend_expense,
    lend_expense_at, list_expenses, settle_up, settle_up_at, share_expense, share_expense_at,
    Expense, IndexEntry, LedgerError, Record,
};
use split_app::time::Timestamp;

fn at(secs: i64) -> Timestamp {
    Timestamp { secs, nanos: 0 }
}

fn text(s: &str) -> String {
    s.to_string()
}

fn share(who: &str, amount: i64, secs: i64) -> Expense {
    Expense::Share { who: text(who), amount, created_at: at(secs) }
}

fn two_records() -> Vec<Record> {
    let mut records = Vec::new();
    share_expense_at(&mut records, &text("trip"), &text("A"), 9000, at(10));
    share_expense_at(&mut records, &text("flat"), &text("B"), 500, at(20));
    share_expense_at(&mut records, &text("trip"), &text("B"), 3000, at(30));
    records
}

#[test]
fn new_record_is_empty_and_stamped_once() {
    let record = Record::new_at(&text("trip"), Timestamp { secs: 7, nanos: 9 });
    assert_eq!(record.name, "trip");
    assert_eq!(record.created_at, Timestamp { secs: 7, nanos: 9 });
    assert_eq!(record.modified_at, record.created_at);
    assert!(record.expenses.is_empty());
}

#[test]
fn new_record_reads_the_clock() {
    let record = Record::new(&text("trip"));
    assert_eq!(record.name, "trip");
    assert_eq!(record.created_at, record.modified_at);
    assert!(record.expenses.is_empty());
    // Later than 2020-01-01, and the nanoseconds stay within a second.
    assert!(record.created_at.secs > 1_577_836_800);
    assert!(record.created_at.secs < 253_402_300_800);
    assert!(record.created_at.nanos < 1_000_000_000);
}

#[test]
fn find_record_gives_the_first_match() {
    let mut records = two_records();
    records.push(Record::new_at(&text("flat"), at(40)));
    assert_eq!(find_record(&records, &text("trip")), Some(0));
    assert_eq!(find_record(&records, &text("flat")), Some(1));
    assert_eq!(find_record(&records, &text("none")), None);
    assert_eq!(find_record(&Vec::new(), &text("trip")), None);
}

#[test]
fn find_or_create_hands_out_the_existing_record() {
    let mut records = two_records();
    let record = find_or_create(&mut records, &text("flat"), at(99));
    assert_eq!(record.name, "flat");
    assert_eq!(record.created_at, at(20));
    record.modified_at = at(50);
    assert_eq!(records.len(), 2);
    assert_eq!(records[1].modified_at, at(50));
}

#[test]
fn find_or_create_appends_a_fresh_record() {
    let mut records = two_records();
    let record = find_or_create(&mut records, &text("party"), at(99));
    assert_eq!(record.name, "party");
    assert_eq!(record.created_at, at(99));
    assert_eq!(record.modified_at, at(99));
    assert!(record.expenses.is_empty());
    assert_eq!(records.len(), 3);
    assert_eq!(records[2].name, "party");
    assert_eq!(records[0].name, "trip");
    assert_eq!(records[1].name, "flat");
}

#[test]
fn get_record_without_create_fails_on_a_missing_name() {
    let mut records = two_records();
    let before = records.clone();
    assert_eq!(
        get_record(&mut records, &text("party"), false, at(99)).err(),
        Some(LedgerError::RecordNotFound)
    );
    assert_eq!(records, before);
}

#[test]
fn get_record_without_create_finds_an_existing_name() {
    let mut records = two_records();
    let record = get_record(&mut records, &text("trip"), false, at(99)).unwrap();
    assert_eq!(record.name, "trip");
    assert_eq!(record.expenses.len(), 2);
    assert_eq!(records.len(), 2);
}

#[test]
fn get_record_with_create_makes_the_record() {
    let mut records: Vec<Record> = Vec::new();
    let record = get_record(&mut records, &text("trip"), true, at(5)).unwrap();
    assert_eq!(record.created_at, at(5));
    assert_eq!(records.len(), 1);
    assert_eq!(records[0], Record::new_at(&text("trip"), at(5)));
}

#[test]
fn delete_on_a_missing_name_fails() {
    let mut records = two_records();
    let before = records.clone();
    assert_eq!(delete_record(&mut records, &text("party")), Err(LedgerError::RecordNotFound));
    assert_eq!(records, before);
    let mut none: Vec<Record> = Vec::new();
    assert_eq!(delete_record(&mut none, &text("trip")), Err(LedgerError::RecordNotFound));
}

#[test]
fn delete_removes_the_record_and_keeps_the_rest() {
    let mut records = two_records();
    assert_eq!(delete_record(&mut records, &text("trip")), Ok(()));
    assert_eq!(records.len(), 1);
    assert_eq!(records[0].name, "flat");
    assert_eq!(delete_record(&mut records, &text("trip")), Err(LedgerError::RecordNotFound));
}

#[test]
fn delete_removes_only_the_first_of_two_with_one_name() {
    let mut records = vec![
        Record::new_at(&text("a"), at(1)),
        Record::new_at(&text("b"), at(2)),
        Record::new_at(&text("a"), at(3)),
    ];
    assert_eq!(delete_record(&mut records, &text("a")), Ok(()));
    assert_eq!(records.len(), 2);
    assert_eq!(records[0].created_at, at(2));
    assert_eq!(records[1].created_at, at(3));
}

#[test]
fn share_on_a_missing_name_creates_the_record() {
    let mut records: Vec<Record> = Vec::new();
    share_expense_at(&mut records, &text("trip"), &text("A"), 9000, at(10));
    assert_eq!(
        records,
        vec![Record {
            name: text("trip"),
            created_at: at(10),
            modified_at: at(10),
            expenses: vec![share("A", 9000, 10)],
        }]
    );
}

#[test]
fn lend_on_a_missing_name_creates_the_record() {
    let mut records = two_records();
    lend_expense_at(&mut records, &text("party"), &text("A"), &text("B"), 2000, at(40));
    assert_eq!(records.len(), 3);
    assert_eq!(
        records[2],
        Record {
            name: text("party"),
            created_at: at(40),
            modified_at: at(40),
            expenses: vec![Expense::Lend {
                from: text("A"),
                to: text("B"),
                amount: 2000,
                created_at: at(40)
            }],
        }
    );
}

#[test]
fn a_created_record_is_then_stamped_with_the_event_time() {
    let mut records: Vec<Record> = Vec::new();
    {
        let record = find_or_create(&mut records, &text("trip"), at(10));
        assert_eq!(record.created_at, record.modified_at);
    }
    share_expense_at(&mut records, &text("trip"), &text("A"), 100, at(11));
    assert_eq!(records[0].created_at, at(10));
    assert_eq!(records[0].modified_at, at(11));
}

#[test]
fn events_are_appended_in_order_and_stamp_the_record() {
    let records = two_records();
    assert_eq!(records.len(), 2);
    assert_eq!(records[0].name, "trip");
    assert_eq!(records[0].created_at, at(10));
    assert_eq!(records[0].modified_at, at(30));
    assert_eq!(records[0].expenses, vec![share("A", 9000, 10), share("B", 3000, 30)]);
    assert_eq!(records[1].name, "flat");
    assert_eq!(records[1].created_at, at(20));
    assert_eq!(records[1].modified_at, at(20));
    assert_eq!(records[1].expenses, vec![share("B", 500, 20)]);
}

#[test]
fn settle_up_on_a_missing_name_fails() {
    let mut records = two_records();
    let before = records.clone();
    assert_eq!(settle_up_at(&mut records, &text("party"), at(40)), Err(LedgerError::RecordNotFound));
    assert_eq!(records, before);
    assert_eq!(settle_up(&mut records, &text("party")), Err(LedgerError::RecordNotFound));
    assert_eq!(records, before);
}

#[test]
fn settle_up_appends_the_event() {
    let mut records = two_records();
    assert_eq!(settle_up_at(&mut records, &text("flat"), at(40)), Ok(()));
    assert_eq!(records[1].modified_at, at(40));
    assert_eq!(records[1].created_at, at(20));
    assert_eq!(
        records[1].expenses,
        vec![share("B", 500, 20), Expense::SettleUp { created_at: at(40) }]
    );
    assert_eq!(records[0], two_records()[0]);
}

#[test]
fn operations_by_the_clock_stamp_event_and_record_alike() {
    let mut records: Vec<Record> = Vec::new();
    share_expense(&mut records, &text("trip"), &text("A"), 9000);
    lend_expense(&mut records, &text("trip"), &text("A"), &text("B"), 2000);
    assert_eq!(settle_up(&mut records, &text("trip")), Ok(()));
    assert_eq!(records.len(), 1);
    let record = &records[0];
    assert_eq!(record.expenses.len(), 3);
    match &record.expenses[0] {
        Expense::Share { who, amount, created_at } => {
            assert_eq!(who, "A");
            assert_eq!(*amount, 9000);
            assert_eq!(*created_at, record.created_at);
            assert!(created_at.secs > 1_577_836_800);
            assert!(created_at.nanos < 1_000_000_000);
        }
        other => panic!("unexpected event {:?}", other),
    }
    match &record.expenses[1] {
        Expense::Lend { from, to, amount, .. } => {
            assert_eq!(from, "A");
            assert_eq!(to, "B");
            assert_eq!(*amount, 2000);
        }
        other => panic!("unexpected event {:?}", other),
    }
    assert_eq!(record.expenses[2].created_at(), record.modified_at);
    assert!(record.created_at.is_not_after(&record.modified_at));
    assert!(record.expenses[0].created_at().is_not_after(&record.expenses[1].created_at()));
    assert!(record.expenses[1].created_at().is_not_after(&record.expenses[2].created_at()));
}

#[test]
fn list_on_a_missing_name_fails() {
    let records = two_records();
    assert_eq!(list_expenses(&records, &text("party"), true), Err(LedgerError::RecordNotFound));
    assert_eq!(list_expenses(&records, &text("party"), false), Err(LedgerError::RecordNotFound));
}

#[test]
fn list_gives_the_newest_first_unless_asked_in_order() {
    let records = two_records();
    assert_eq!(
        list_expenses(&records, &text("trip"), false),
        Ok(vec![share("B", 3000, 30), share("A", 9000, 10)])
    );
    assert_eq!(
        list_expenses(&records, &text("trip"), true),
        Ok(vec![share("A", 9000, 10), share("B", 3000, 30)])
    );
}

#[test]
fn list_of_a_record_without_events_is_empty() {
    let records = vec![Record::new_at(&text("trip"), at(1))];
    assert_eq!(list_expenses(&records, &text("trip"), false), Ok(vec![]));
    assert_eq!(list_expenses(&records, &text("trip"), true), Ok(vec![]));
}

#[test]
fn index_gives_the_record_added_last_first() {
    let records = two_records();
    assert_eq!(
        index_records(&records),
        vec![
            IndexEntry { created_at: at(20), modified_at: at(20), name: text("flat") },
            IndexEntry { created_at: at(10), modified_at: at(30), name: text("trip") },
        ]
    );
    assert_eq!(index_records(&Vec::new()), vec![]);
}

#[test]
fn reading_twice_gives_the_same_and_changes_nothing() {
    let records = two_records();
    let before = records.clone();
    assert_eq!(index_records(&records), index_records(&records));
    assert_eq!(
        list_expenses(&records, &text("trip"), false),
        list_expenses(&records, &text("trip"), false)
    );
    assert_eq!(
        list_expenses(&records, &text("none"), true),
        list_expenses(&records, &text("none"), true)
    );
    assert_eq!(find_record(&records, &text("flat")), find_record(&records, &text("flat")));
    assert_eq!(records, before);
}

#[test]
fn cloning_keeps_every_field() {
    let records = two_records();
    let copy = records[0].clone();
    assert_eq!(copy, records[0]);
    assert_eq!(copy.expenses[1].clone(), share("B", 3000, 30));
}

#[test]
fn instants_are_ordered_by_seconds_then_nanoseconds() {
    let a = Timestamp { secs: 1, nanos: 5 };
    let b = Timestamp { secs: 1, nanos: 6 };
    let c = Timestamp { secs: 2, nanos: 0 };
    let d = Timestamp { secs: -3, nanos: 999_999_999 };
    assert!(a.is_not_after(&a));
    assert!(a.is_not_after(&b));
    assert!(!b.is_not_after(&a));
    assert!(b.is_not_after(&c));
    assert!(!c.is_not_after(&a));
    assert!(d.is_not_after(&a));
    assert!(!a.is_not_after(&d));
}

#[test]
fn errors_have_their_messages() {
    assert_eq!(LedgerError::RecordNotFound.message(), "Record doesn't exist!");
    assert_eq!(LedgerError::NoParticipants.message(), "Nobody to split the amount among!");
}
