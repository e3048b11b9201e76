use split_app::balance::{
    add_name, compute_balances, participants, show_balance, split_evenly, zero_table,
    BalanceSheet,
};
use split_app::expense::{
    lend_expense_at, settle_up_at, share_expense_at, Expense, LedgerError, Record,
};
use split_app::time::Timestamp;

fn at(secs: i64) -> Timestamp {
    Timestamp { secs, nanos: 0 }
}

fn text(s: &str) -> String {
    s.to_string()
}

fn share(who: &str, amount: i64) -> Expense {
    Expense::Share { who: text(who), amount, created_at: at(1) }
}

fn lend(from: &str, to: &str, amount: i64) -> Expense {
    Expense::Lend { from: text(from), to: text(to), amount, created_at: at(2) }
}

fn settle() -> Expense {
    Expense::SettleUp { created_at: at(3) }
}

fn sheet(expenses: Vec<Expense>) -> BalanceSheet {
    compute_balances(&expenses).unwrap()
}

fn is_antisymmetric(table: &Vec<Vec<i128>>) -> bool {
    (0..table.len()).all(|a| (0..table.len()).all(|b| table[a][b] == -table[b][a]))
}

#[test]
fn two_shares_leave_the_difference_of_the_halves() {
    // Of 90.00 each of two owes 45.00, of 30.00 each owes 15.00: the entry
    // of A against B loses 45.00 and gains 15.00.
    let s = sheet(vec![share("A", 9000), share("B", 3000)]);
    assert_eq!(s.people, vec![text("A"), text("B")]);
    assert_eq!(s.balance, vec![vec![0, -3000], vec![3000, 0]]);
}

#[test]
fn one_share_among_two() {
    let s = sheet(vec![share("A", 9000), lend("A", "B", 0)]);
    assert_eq!(s.people, vec![text("A"), text("B")]);
    assert_eq!(s.balance, vec![vec![0, -4500], vec![4500, 0]]);
}

#[test]
fn a_loan_on_an_empty_record() {
    let s = sheet(vec![lend("A", "B", 2000)]);
    assert_eq!(s.people, vec![text("A"), text("B")]);
    // Row B, column A gains the amount; row A, column B loses it.
    assert_eq!(s.balance[1][0], 2000);
    assert_eq!(s.balance[0][1], -2000);
    assert_eq!(s.balance, vec![vec![0, -2000], vec![2000, 0]]);
}

#[test]
fn a_loan_to_oneself_changes_nothing() {
    let s = sheet(vec![lend("A", "A", 2000)]);
    assert_eq!(s.people, vec![text("A")]);
    assert_eq!(s.balance, vec![vec![0]]);
}

#[test]
fn a_share_alone_leaves_zero() {
    let s = sheet(vec![share("A", 9000)]);
    assert_eq!(s.people, vec![text("A")]);
    assert_eq!(s.balance, vec![vec![0]]);
}

#[test]
fn no_events_give_nobody_and_an_empty_table() {
    let s = sheet(vec![]);
    assert_eq!(s.people, Vec::<String>::new());
    assert_eq!(s.balance, Vec::<Vec<i128>>::new());
    let s = sheet(vec![settle()]);
    assert_eq!(s.people, Vec::<String>::new());
    assert_eq!(s.balance, Vec::<Vec<i128>>::new());
}

#[test]
fn settling_up_last_leaves_only_zeros() {
    let s = sheet(vec![share("A", 9000), lend("B", "C", 700), share("C", 100), settle()]);
    assert_eq!(s.people, vec![text("A"), text("B"), text("C")]);
    assert_eq!(s.balance, vec![vec![0, 0, 0], vec![0, 0, 0], vec![0, 0, 0]]);
}

#[test]
fn only_what_follows_a_settling_up_counts() {
    let after = vec![lend("B", "A", 500), share("C", 900)];
    let mut whole = vec![share("A", 9000), lend("A", "C", 123), settle()];
    whole.extend(after.iter().cloned());
    let s = sheet(whole);
    assert_eq!(s.people, vec![text("A"), text("C"), text("B")]);
    // Among the same three people, in this order, the later events alone:
    // B hands A 500, then C shares 900 in parts of 300.
    assert_eq!(s.balance, vec![vec![0, 300, 500], vec![-300, 0, -300], vec![-500, 300, 0]]);
    let mut other = vec![lend("A", "C", 1), lend("C", "B", 77_000), settle()];
    other.extend(after.iter().cloned());
    assert_eq!(sheet(other).balance, s.balance);
}

#[test]
fn someone_named_late_takes_part_in_earlier_splits() {
    let s = sheet(vec![share("A", 900), lend("B", "C", 0)]);
    assert_eq!(s.people, vec![text("A"), text("B"), text("C")]);
    assert_eq!(s.balance, vec![vec![0, -300, -300], vec![300, 0, 0], vec![300, 0, 0]]);
}

#[test]
fn parts_are_rounded_towards_zero() {
    let s = sheet(vec![share("A", 100), lend("B", "C", 0)]);
    assert_eq!(s.balance, vec![vec![0, -33, -33], vec![33, 0, 0], vec![33, 0, 0]]);
    let s = sheet(vec![share("A", -100), lend("B", "C", 0)]);
    assert_eq!(s.balance, vec![vec![0, 33, 33], vec![-33, 0, 0], vec![-33, 0, 0]]);
}

#[test]
fn every_table_is_antisymmetric() {
    let events = vec![
        share("A", 9000),
        lend("B", "C", 1234),
        share("C", 77),
        lend("C", "A", 5),
        settle(),
        share("B", -301),
        lend("A", "A", 9),
        lend("D", "B", i64::MAX),
        share("D", i64::MIN),
    ];
    for k in 0..=events.len() {
        let s = sheet(events[..k].to_vec());
        assert_eq!(s.balance.len(), s.people.len());
        assert!(s.balance.iter().all(|row| row.len() == s.people.len()));
        assert!(is_antisymmetric(&s.balance));
    }
}

#[test]
fn the_widest_amounts_do_not_overflow() {
    let s = sheet(vec![
        lend("A", "B", i64::MAX),
        lend("A", "B", i64::MAX),
        lend("B", "A", i64::MIN),
        share("A", i64::MIN),
    ]);
    let lent = 2 * (i64::MAX as i128) - (i64::MIN as i128);
    let part = (i64::MIN as i128) / 2;
    assert_eq!(s.balance, vec![vec![0, -lent - part], vec![lent + part, 0]]);
}

#[test]
fn people_are_listed_in_the_order_in_which_they_are_named() {
    let events = vec![lend("C", "A", 1), share("B", 2), settle(), share("A", 3), lend("D", "C", 4)];
    assert_eq!(participants(&events), vec![text("C"), text("A"), text("B"), text("D")]);
    assert_eq!(participants(&Vec::new()), Vec::<String>::new());
}

#[test]
fn add_name_adds_a_name_once() {
    let mut people = vec![text("A")];
    add_name(&mut people, &text("B"));
    add_name(&mut people, &text("A"));
    add_name(&mut people, &text("B"));
    assert_eq!(people, vec![text("A"), text("B")]);
}

#[test]
fn splitting_among_nobody_fails() {
    assert_eq!(split_evenly(9000, 0), Err(LedgerError::NoParticipants));
    assert_eq!(split_evenly(0, 0), Err(LedgerError::NoParticipants));
}

#[test]
fn splitting_rounds_towards_zero() {
    assert_eq!(split_evenly(9000, 2), Ok(4500));
    assert_eq!(split_evenly(100, 3), Ok(33));
    assert_eq!(split_evenly(-100, 3), Ok(-33));
    assert_eq!(split_evenly(2, 3), Ok(0));
    assert_eq!(split_evenly(i64::MIN, 1), Ok(i64::MIN as i128));
    assert_eq!(split_evenly(i64::MAX, 1), Ok(i64::MAX as i128));
}

#[test]
fn zero_table_is_square() {
    assert_eq!(zero_table(0), Vec::<Vec<i128>>::new());
    assert_eq!(zero_table(2), vec![vec![0, 0], vec![0, 0]]);
}

#[test]
fn show_on_a_missing_name_fails() {
    let mut records: Vec<Record> = Vec::new();
    assert_eq!(show_balance(&records, &text("trip")), Err(LedgerError::RecordNotFound));
    share_expense_at(&mut records, &text("trip"), &text("A"), 9000, at(1));
    assert_eq!(show_balance(&records, &text("flat")), Err(LedgerError::RecordNotFound));
}

#[test]
fn show_of_a_record_without_events_is_empty() {
    let records = vec![Record::new_at(&text("trip"), at(1))];
    assert_eq!(
        show_balance(&records, &text("trip")),
        Ok(BalanceSheet { people: vec![], balance: vec![] })
    );
}

#[test]
fn show_takes_the_events_of_the_named_record() {
    let mut records: Vec<Record> = Vec::new();
    share_expense_at(&mut records, &text("trip"), &text("A"), 9000, at(1));
    lend_expense_at(&mut records, &text("flat"), &text("X"), &text("Y"), 100, at(2));
    share_expense_at(&mut records, &text("trip"), &text("B"), 3000, at(3));
    let trip = show_balance(&records, &text("trip")).unwrap();
    assert_eq!(trip.people, vec![text("A"), text("B")]);
    assert_eq!(trip.balance, vec![vec![0, -3000], vec![3000, 0]]);
    let flat = show_balance(&records, &text("flat")).unwrap();
    assert_eq!(flat.people, vec![text("X"), text("Y")]);
    assert_eq!(flat.balance, vec![vec![0, -100], vec![100, 0]]);
    assert_eq!(show_balance(&records, &text("trip")), show_balance(&records, &text("trip")));
    assert_eq!(settle_up_at(&mut records, &text("trip"), at(4)), Ok(()));
    let trip = show_balance(&records, &text("trip")).unwrap();
    assert_eq!(trip.balance, vec![vec![0, 0], vec![0, 0]]);
}
