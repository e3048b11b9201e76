//! Records, the events they hold, and the operations on a collection of
//! records.

use crate::names::{first_at, first_position, lemma_first_position_exists, lemma_first_position_is};
use crate::time::{clock_now, Timestamp};
use vstd::prelude::*;

verus! {

/// Why an operation on the ledger failed.
#[derive(Clone, Copy, Debug, PartialEq, Eq, Structural)]
pub enum LedgerError {
    /// No record of the collection has the name that was asked for.
    RecordNotFound,
    /// An amount was to be split evenly among nobody.
    NoParticipants,
}

impl LedgerError {
    /// What to tell the user.
    pub fn message(&self) -> (text: String)
        ensures
            text@ == match self {
                LedgerError::RecordNotFound => "Record doesn't exist!"@,
                LedgerError::NoParticipants => "Nobody to split the amount among!"@,
            },
    {
        match self {
            LedgerError::RecordNotFound => String::from_str("Record doesn't exist!"),
            LedgerError::NoParticipants => String::from_str("Nobody to split the amount among!"),
        }
    }
}

/// One event of a record. Amounts are whole numbers of the smallest
/// currency unit.
#[derive(Debug, PartialEq, Eq)]
pub enum Expense {
    /// `who` paid `amount` for everybody.
    Share { who: String, amount: i64, created_at: Timestamp },
    /// `from` handed `amount` to `to`.
    Lend { from: String, to: String, amount: i64, created_at: Timestamp },
    /// Everything up to here counts as paid back.
    SettleUp { created_at: Timestamp },
}

/// The mathematical value of an [`Expense`].
pub enum ExpenseView {
    Share { who: Seq<char>, amount: int, created_at: Timestamp },
    Lend { from: Seq<char>, to: Seq<char>, amount: int, created_at: Timestamp },
    SettleUp { created_at: Timestamp },
}

impl ExpenseView {
    /// When the event was entered.
    pub open spec fn time(self) -> Timestamp {
        match self {
            ExpenseView::Share { created_at, .. } => created_at,
            ExpenseView::Lend { created_at, .. } => created_at,
            ExpenseView::SettleUp { created_at } => created_at,
        }
    }
}

impl View for Expense {
    type V = ExpenseView;

    open spec fn view(&self) -> ExpenseView {
        match self {
            Expense::Share { who, amount, created_at } => ExpenseView::Share {
                who: who@,
                amount: *amount as int,
                created_at: *created_at,
            },
            Expense::Lend { from, to, amount, created_at } => ExpenseView::Lend {
                from: from@,
                to: to@,
                amount: *amount as int,
                created_at: *created_at,
            },
            Expense::SettleUp { created_at } => ExpenseView::SettleUp { created_at: *created_at },
        }
    }
}

impl Clone for Expense {
    fn clone(&self) -> (copy: Expense)
        ensures
            copy@ == self@,
    {
        match self {
            Expense::Share { who, amount, created_at } => Expense::Share {
                who: who.clone(),
                amount: *amount,
                created_at: *created_at,
            },
            Expense::Lend { from, to, amount, created_at } => Expense::Lend {
                from: from.clone(),
                to: to.clone(),
                amount: *amount,
                created_at: *created_at,
            },
            Expense::SettleUp { created_at } => Expense::SettleUp { created_at: *created_at },
        }
    }
}

impl Expense {
    /// When the event was entered.
    pub fn created_at(&self) -> (at: Timestamp)
        ensures
            at == self@.time(),
    {
        match self {
            Expense::Share { created_at, .. } => *created_at,
            Expense::Lend { created_at, .. } => *created_at,
            Expense::SettleUp { created_at } => *created_at,
        }
    }
}

/// The values of a list of events.
pub open spec fn events(expenses: Seq<Expense>) -> Seq<ExpenseView> {
    expenses.map_values(|e: Expense| e@)
}

/// Copies a list of events.
pub fn clone_expenses(expenses: &Vec<Expense>) -> (copy: Vec<Expense>)
    ensures
        events(copy@) == events(expenses@),
{
    let mut copy: Vec<Expense> = Vec::new();
    let mut i: usize = 0;
    while i < expenses.len()
        invariant
            i <= expenses.len(),
            copy.len() == i,
            forall|j: int| 0 <= j < i ==> copy[j]@ == expenses[j]@,
        decreases expenses.len() - i,
    {
        copy.push(expenses[i].clone());
        i += 1;
    }
    assert(events(copy@) =~= events(expenses@));
    copy
}

/// A named ledger: its events in the order in which they were entered.
#[derive(Debug, PartialEq, Eq)]
pub struct Record {
    pub name: String,
    pub created_at: Timestamp,
    pub modified_at: Timestamp,
    pub expenses: Vec<Expense>,
}

/// The mathematical value of a [`Record`].
pub struct RecordView {
    pub name: Seq<char>,
    pub created_at: Timestamp,
    pub modified_at: Timestamp,
    pub expenses: Seq<ExpenseView>,
}

impl RecordView {
    /// A record that was just created: no events, and both times are `now`.
    pub open spec fn fresh(name: Seq<char>, now: Timestamp) -> RecordView {
        RecordView { name, created_at: now, modified_at: now, expenses: Seq::empty() }
    }

    /// The record after `event` was entered: the event stands last, and the
    /// record was last modified when the event was entered.
    pub open spec fn with_event(self, event: ExpenseView) -> RecordView {
        RecordView {
            name: self.name,
            created_at: self.created_at,
            modified_at: event.time(),
            expenses: self.expenses.push(event),
        }
    }

    /// A record is never modified before it is created.
    pub open spec fn well_formed(self) -> bool {
        self.created_at.not_after(self.modified_at)
    }

    /// The events stand in the order of their times, none was entered
    /// before the record was created, and none after it was last modified.
    pub open spec fn in_time_order(self) -> bool {
        &&& forall|i: int, j: int|
            0 <= i <= j < self.expenses.len() ==> (#[trigger] self.expenses[i]).time().not_after(
                (#[trigger] self.expenses[j]).time(),
            )
        &&& forall|i: int|
            0 <= i < self.expenses.len() ==> self.created_at.not_after(
                (#[trigger] self.expenses[i]).time(),
            ) && self.expenses[i].time().not_after(self.modified_at)
    }
}

impl View for Record {
    type V = RecordView;

    open spec fn view(&self) -> RecordView {
        RecordView {
            name: self.name@,
            created_at: self.created_at,
            modified_at: self.modified_at,
            expenses: events(self.expenses@),
        }
    }
}

impl Clone for Record {
    fn clone(&self) -> (copy: Record)
        ensures
            copy@ == self@,
    {
        Record {
            name: self.name.clone(),
            created_at: self.created_at,
            modified_at: self.modified_at,
            expenses: clone_expenses(&self.expenses),
        }
    }
}

impl Record {
    /// A record without events, created at `now`.
    pub fn new_at(name: &String, now: Timestamp) -> (record: Record)
        ensures
            record@ == RecordView::fresh(name@, now),
    {
        let record = Record {
            name: name.clone(),
            created_at: now,
            modified_at: now,
            expenses: Vec::new(),
        };
        assert(record@.expenses =~= Seq::empty());
        record
    }

    /// A record without events, created at the time the system clock shows.
    pub fn new(name: &String) -> (record: Record)
        ensures
            record@ == RecordView::fresh(name@, record.created_at),
            record.created_at.nanos < 1_000_000_000,
    {
        Record::new_at(name, clock_now())
    }
}

/// The values of a collection of records.
pub open spec fn ledger(records: Seq<Record>) -> Seq<RecordView> {
    records.map_values(|r: Record| r@)
}

/// The names of a collection of records, in its order.
pub open spec fn names_in(ledger: Seq<RecordView>) -> Seq<Seq<char>> {
    ledger.map_values(|r: RecordView| r.name)
}

/// Some record of the collection has this name.
pub open spec fn has_record(ledger: Seq<RecordView>, name: Seq<char>) -> bool {
    names_in(ledger).contains(name)
}

/// The place of the first record with this name; meaningful only when the
/// collection has one.
pub open spec fn record_position(ledger: Seq<RecordView>, name: Seq<char>) -> int {
    first_position(names_in(ledger), name)
}

/// The collection once a record with this name is sure to be in it: as it
/// was where it has one, else with a fresh record at its end.
pub open spec fn with_record(ledger: Seq<RecordView>, name: Seq<char>, now: Timestamp) -> Seq<
    RecordView,
> {
    if has_record(ledger, name) {
        ledger
    } else {
        ledger.push(RecordView::fresh(name, now))
    }
}

/// The collection after `event` was entered into the first record with this
/// name.
pub open spec fn with_event(ledger: Seq<RecordView>, name: Seq<char>, event: ExpenseView) -> Seq<
    RecordView,
> {
    let i = record_position(ledger, name);
    ledger.update(i, ledger[i].with_event(event))
}

/// The collection without the first record with this name.
pub open spec fn without_record(ledger: Seq<RecordView>, name: Seq<char>) -> Seq<RecordView> {
    ledger.remove(record_position(ledger, name))
}

/// No two records share a name, and no record was modified before it was
/// created.
pub open spec fn ledger_well_formed(ledger: Seq<RecordView>) -> bool {
    &&& forall|i: int, j: int|
        0 <= i < j < ledger.len() ==> (#[trigger] ledger[i]).name != (#[trigger] ledger[j]).name
    &&& forall|i: int| 0 <= i < ledger.len() ==> (#[trigger] ledger[i]).well_formed()
}

/// In the collection that `with_record` gives, the name has a first place;
/// it is the place it had before, or the new last place.
pub proof fn lemma_with_record_position(ledger: Seq<RecordView>, name: Seq<char>, now: Timestamp)
    ensures
        has_record(with_record(ledger, name, now), name),
        first_at(
            names_in(with_record(ledger, name, now)),
            name,
            record_position(with_record(ledger, name, now), name),
        ),
        has_record(ledger, name) ==> record_position(with_record(ledger, name, now), name)
            == record_position(ledger, name),
        !has_record(ledger, name) ==> record_position(with_record(ledger, name, now), name)
            == ledger.len(),
{
    let after = with_record(ledger, name, now);
    if has_record(ledger, name) {
        lemma_first_position_exists(names_in(ledger), name);
    } else {
        let last = ledger.len() as int;
        assert(names_in(after)[last] == name);
        assert forall|j: int| 0 <= j < last implies names_in(after)[j] != name by {
            assert(names_in(after)[j] == names_in(ledger)[j]);
        }
        lemma_first_position_is(names_in(after), name, last);
    }
}

/// Finds the first record with this name.
pub fn find_record(records: &Vec<Record>, name: &String) -> (found: Option<usize>)
    ensures
        found is Some <==> has_record(ledger(records@), name@),
        found matches Some(i) ==> i as int == record_position(ledger(records@), name@) && first_at(
            names_in(ledger(records@)),
            name@,
            i as int,
        ),
{
    let ghost names = names_in(ledger(records@));
    let mut i: usize = 0;
    while i < records.len()
        invariant
            i <= records.len(),
            names == names_in(ledger(records@)),
            forall|j: int| 0 <= j < i ==> names[j] != name@,
        decreases records.len() - i,
    {
        if records[i].name.eq(name) {
            proof {
                lemma_first_position_is(names, name@, i as int);
            }
            return Some(i);
        }
        i += 1;
    }
    None
}

/// Hands out the first record with this name; where there is none, a fresh
/// one is put at the end of the collection first. Whatever the caller then
/// does to the record is done to the collection.
pub fn find_or_create<'a>(records: &'a mut Vec<Record>, name: &String, now: Timestamp) -> (record:
    &'a mut Record)
    ensures
        ({
            let present = with_record(ledger(old(records)@), name@, now);
            let i = record_position(present, name@);
            &&& first_at(names_in(present), name@, i)
            &&& record@ == present[i]
            &&& ledger(final(records)@) == present.update(i, final(record)@)
        }),
{
    proof {
        lemma_with_record_position(ledger(old(records)@), name@, now);
    }
    let pos = match find_record(records, name) {
        Some(pos) => pos,
        None => {
            records.push(Record::new_at(name, now));
            records.len() - 1
        },
    };
    assert(ledger(records@) =~= with_record(ledger(old(records)@), name@, now));
    &mut records[pos]
}

/// Hands out the first record with this name. Where there is none, `create`
/// decides: a fresh record is put at the end of the collection and handed
/// out, or the search fails and the collection stays as it was.
pub fn get_record<'a>(
    records: &'a mut Vec<Record>,
    name: &String,
    create: bool,
    now: Timestamp,
) -> (found: Result<&'a mut Record, LedgerError>)
    ensures
        found is Ok <==> create || has_record(ledger(old(records)@), name@),
        match found {
            Ok(record) => {
                let present = with_record(ledger(old(records)@), name@, now);
                let i = record_position(present, name@);
                &&& first_at(names_in(present), name@, i)
                &&& record@ == present[i]
                &&& ledger(final(records)@) == present.update(i, final(record)@)
            },
            Err(e) => e == LedgerError::RecordNotFound && final(records)@ == old(records)@,
        },
{
    if create {
        Ok(find_or_create(records, name, now))
    } else {
        match find_record(records, name) {
            Some(pos) => Ok(&mut records[pos]),
            None => Err(LedgerError::RecordNotFound),
        }
    }
}

/// Removes the first record with this name from the collection; fails, and
/// leaves the collection as it was, where there is none.
pub fn delete_record(records: &mut Vec<Record>, name: &String) -> (done: Result<(), LedgerError>)
    ensures
        done is Ok <==> has_record(ledger(old(records)@), name@),
        done is Ok ==> ledger(final(records)@) == without_record(ledger(old(records)@), name@),
        done is Ok ==> final(records)@ == old(records)@.remove(
            record_position(ledger(old(records)@), name@),
        ),
        done is Err ==> done == Err::<(), LedgerError>(LedgerError::RecordNotFound),
        done is Err ==> final(records)@ == old(records)@,
{
    match find_record(records, name) {
        Some(index) => {
            records.remove(index);
            assert(ledger(records@) =~= without_record(ledger(old(records)@), name@));
            Ok(())
        },
        None => Err(LedgerError::RecordNotFound),
    }
}

/// The collection after `who` shared `amount` in the record with this name
/// at `now`; the record is created at `now` where it was missing.
pub open spec fn shared(
    ledger: Seq<RecordView>,
    name: Seq<char>,
    who: Seq<char>,
    amount: int,
    now: Timestamp,
) -> Seq<RecordView> {
    with_event(
        with_record(ledger, name, now),
        name,
        ExpenseView::Share { who, amount, created_at: now },
    )
}

/// The collection after `from` handed `amount` to `to` in the record with
/// this name at `now`; the record is created at `now` where it was missing.
pub open spec fn lent(
    ledger: Seq<RecordView>,
    name: Seq<char>,
    from: Seq<char>,
    to: Seq<char>,
    amount: int,
    now: Timestamp,
) -> Seq<RecordView> {
    with_event(
        with_record(ledger, name, now),
        name,
        ExpenseView::Lend { from, to, amount, created_at: now },
    )
}

/// The collection after the record with this name was settled up at `now`.
pub open spec fn settled(ledger: Seq<RecordView>, name: Seq<char>, now: Timestamp) -> Seq<
    RecordView,
> {
    with_event(ledger, name, ExpenseView::SettleUp { created_at: now })
}

/// The events of the first record with this name: oldest first where
/// `in_order` is set, else newest first.
pub open spec fn listing(ledger: Seq<RecordView>, name: Seq<char>, in_order: bool) -> Seq<
    ExpenseView,
> {
    let history = ledger[record_position(ledger, name)].expenses;
    if in_order {
        history
    } else {
        history.reverse()
    }
}

/// One line of the index of a collection: a record's name and times.
#[derive(Debug, PartialEq, Eq)]
pub struct IndexEntry {
    pub created_at: Timestamp,
    pub modified_at: Timestamp,
    pub name: String,
}

/// The mathematical value of an [`IndexEntry`].
pub struct IndexEntryView {
    pub created_at: Timestamp,
    pub modified_at: Timestamp,
    pub name: Seq<char>,
}

impl View for IndexEntry {
    type V = IndexEntryView;

    open spec fn view(&self) -> IndexEntryView {
        IndexEntryView {
            created_at: self.created_at,
            modified_at: self.modified_at,
            name: self.name@,
        }
    }
}

impl RecordView {
    /// The record's line in the index.
    pub open spec fn summary(self) -> IndexEntryView {
        IndexEntryView {
            created_at: self.created_at,
            modified_at: self.modified_at,
            name: self.name,
        }
    }
}

/// The values of a list of index lines.
pub open spec fn entries(lines: Seq<IndexEntry>) -> Seq<IndexEntryView> {
    lines.map_values(|e: IndexEntry| e@)
}

/// The index of a collection: one line for each record, the record that was
/// added last first.
pub open spec fn index_of(ledger: Seq<RecordView>) -> Seq<IndexEntryView> {
    ledger.reverse().map_values(|r: RecordView| r.summary())
}

/// Enters an event into a record: it becomes the last event, and the record
/// counts as modified when the event was entered.
pub fn enter(record: &mut Record, event: Expense)
    ensures
        final(record)@ == old(record)@.with_event(event@),
{
    record.modified_at = event.created_at();
    record.expenses.push(event);
    assert(events(record.expenses@) =~= events(old(record).expenses@).push(event@));
}

/// Enters at `now` that `who` paid `amount` for everybody into the first
/// record with this name. Where there is no such record, one is created at
/// `now` at the end of the collection and takes the event.
pub fn share_expense_at(
    records: &mut Vec<Record>,
    name: &String,
    who: &String,
    amount: i64,
    now: Timestamp,
)
    ensures
        ledger(final(records)@) == shared(ledger(old(records)@), name@, who@, amount as int, now),
{
    let record = find_or_create(records, name, now);
    enter(record, Expense::Share { who: who.clone(), amount, created_at: now });
}

/// Enters at `now` that `from` handed `amount` to `to` into the first record
/// with this name. Where there is no such record, one is created at `now` at
/// the end of the collection and takes the event.
pub fn lend_expense_at(
    records: &mut Vec<Record>,
    name: &String,
    from: &String,
    to: &String,
    amount: i64,
    now: Timestamp,
)
    ensures
        ledger(final(records)@) == lent(
            ledger(old(records)@),
            name@,
            from@,
            to@,
            amount as int,
            now,
        ),
{
    let record = find_or_create(records, name, now);
    enter(record, Expense::Lend { from: from.clone(), to: to.clone(), amount, created_at: now });
}

/// Settles the first record with this name up at `now`; fails, and leaves
/// the collection as it was, where there is no such record.
pub fn settle_up_at(records: &mut Vec<Record>, name: &String, now: Timestamp) -> (done: Result<
    (),
    LedgerError,
>)
    ensures
        done is Ok <==> has_record(ledger(old(records)@), name@),
        done is Ok ==> ledger(final(records)@) == settled(ledger(old(records)@), name@, now),
        done is Err ==> done == Err::<(), LedgerError>(LedgerError::RecordNotFound),
        done is Err ==> final(records)@ == old(records)@,
{
    match get_record(records, name, false, now) {
        Ok(record) => {
            enter(record, Expense::SettleUp { created_at: now });
            Ok(())
        },
        Err(e) => Err(e),
    }
}

/// Enters, at the time the system clock shows, that `who` paid `amount` for
/// everybody; see [`share_expense_at`].
pub fn share_expense(records: &mut Vec<Record>, name: &String, who: &String, amount: i64)
    ensures
        exists|now: Timestamp|
            now.nanos < 1_000_000_000 && ledger(final(records)@) == #[trigger] shared(
                ledger(old(records)@),
                name@,
                who@,
                amount as int,
                now,
            ),
{
    let now = clock_now();
    share_expense_at(records, name, who, amount, now);
}

/// Enters, at the time the system clock shows, that `from` handed `amount`
/// to `to`; see [`lend_expense_at`].
pub fn lend_expense(
    records: &mut Vec<Record>,
    name: &String,
    from: &String,
    to: &String,
    amount: i64,
)
    ensures
        exists|now: Timestamp|
            now.nanos < 1_000_000_000 && ledger(final(records)@) == #[trigger] lent(
                ledger(old(records)@),
                name@,
                from@,
                to@,
                amount as int,
                now,
            ),
{
    let now = clock_now();
    lend_expense_at(records, name, from, to, amount, now);
}

/// Settles the first record with this name up at the time the system clock
/// shows; see [`settle_up_at`].
pub fn settle_up(records: &mut Vec<Record>, name: &String) -> (done: Result<(), LedgerError>)
    ensures
        done is Ok <==> has_record(ledger(old(records)@), name@),
        done is Ok ==> exists|now: Timestamp|
            now.nanos < 1_000_000_000 && ledger(final(records)@)
                == #[trigger] settled(ledger(old(records)@), name@, now),
        done is Err ==> done == Err::<(), LedgerError>(LedgerError::RecordNotFound),
        done is Err ==> final(records)@ == old(records)@,
{
    let now = clock_now();
    settle_up_at(records, name, now)
}

/// The events of the first record with this name: oldest first where
/// `in_order` is set, else newest first. Fails where there is no such
/// record.
pub fn list_expenses(records: &Vec<Record>, name: &String, in_order: bool) -> (listed: Result<
    Vec<Expense>,
    LedgerError,
>)
    ensures
        listed is Ok <==> has_record(ledger(records@), name@),
        listed matches Ok(list) ==> events(list@) == listing(ledger(records@), name@, in_order),
        listed is Err ==> listed == Err::<Vec<Expense>, LedgerError>(LedgerError::RecordNotFound),
{
    match find_record(records, name) {
        Some(pos) => {
            let expenses = &records[pos].expenses;
            if in_order {
                Ok(clone_expenses(expenses))
            } else {
                let ghost history = events(expenses@);
                let mut list: Vec<Expense> = Vec::new();
                let mut left: usize = expenses.len();
                while left > 0
                    invariant
                        left <= expenses.len(),
                        list.len() == expenses.len() - left,
                        forall|j: int|
                            0 <= j < list.len() ==> list[j]@ == expenses[expenses.len() - 1 - j]@,
                    decreases left,
                {
                    left -= 1;
                    list.push(expenses[left].clone());
                }
                assert(events(list@) =~= history.reverse());
                Ok(list)
            }
        },
        None => Err(LedgerError::RecordNotFound),
    }
}

/// The index of the collection: the name and the times of each record, the
/// record that was added last first.
pub fn index_records(records: &Vec<Record>) -> (lines: Vec<IndexEntry>)
    ensures
        entries(lines@) == index_of(ledger(records@)),
{
    let mut lines: Vec<IndexEntry> = Vec::new();
    let mut left: usize = records.len();
    while left > 0
        invariant
            left <= records.len(),
            lines.len() == records.len() - left,
            forall|j: int|
                0 <= j < lines.len() ==> lines[j]@ == records[records.len() - 1 - j]@.summary(),
        decreases left,
    {
        left -= 1;
        let record = &records[left];
        lines.push(
            IndexEntry {
                created_at: record.created_at,
                modified_at: record.modified_at,
                name: record.name.clone(),
            },
        );
    }
    assert(entries(lines@) =~= index_of(ledger(records@)));
    lines
}

/// Listing reads and changes nothing, so listing again gives the same: any
/// two outcomes of [`list_expenses`] on one collection, name and order fail
/// alike or hold the same events in the same order.
pub proof fn lemma_listing_is_repeatable(
    records: &Vec<Record>,
    name: &String,
    in_order: bool,
    first: Result<Vec<Expense>, LedgerError>,
    second: Result<Vec<Expense>, LedgerError>,
)
    requires
        call_ensures(list_expenses, (records, name, in_order), first),
        call_ensures(list_expenses, (records, name, in_order), second),
    ensures
        first is Ok <==> second is Ok,
        first matches Ok(a) ==> second matches Ok(b) && events(a@) == events(b@),
        first matches Err(a) ==> second matches Err(b) && a == b,
{
}

/// The index reads and changes nothing, so asking again gives the same: any
/// two outcomes of [`index_records`] on one collection hold the same lines
/// in the same order.
pub proof fn lemma_index_is_repeatable(
    records: &Vec<Record>,
    first: Vec<IndexEntry>,
    second: Vec<IndexEntry>,
)
    requires
        call_ensures(index_records, (records,), first),
        call_ensures(index_records, (records,), second),
    ensures
        entries(first@) == entries(second@),
{
}

/// A well-formed collection stays well-formed when a record is made sure to
/// be in it.
pub proof fn lemma_with_record_well_formed(
    ledger: Seq<RecordView>,
    name: Seq<char>,
    now: Timestamp,
)
    requires
        ledger_well_formed(ledger),
    ensures
        ledger_well_formed(with_record(ledger, name, now)),
{
    let after = with_record(ledger, name, now);
    if !has_record(ledger, name) {
        assert forall|i: int, j: int| 0 <= i < j < after.len() implies (#[trigger] after[i]).name != (
        #[trigger] after[j]).name by {
            if j == ledger.len() {
                assert(names_in(ledger)[i] == ledger[i].name);
            } else {
                assert(after[i] == ledger[i] && after[j] == ledger[j]);
            }
        }
        assert forall|i: int| 0 <= i < after.len() implies (#[trigger] after[i]).well_formed() by {
            if i < ledger.len() {
                assert(after[i] == ledger[i]);
            }
        }
    }
}

/// A well-formed collection stays well-formed when an event is entered
/// that is not earlier than the creation of the record that takes it.
pub proof fn lemma_with_event_well_formed(
    ledger: Seq<RecordView>,
    name: Seq<char>,
    event: ExpenseView,
)
    requires
        ledger_well_formed(ledger),
        has_record(ledger, name),
        ledger[record_position(ledger, name)].created_at.not_after(event.time()),
    ensures
        ledger_well_formed(with_event(ledger, name, event)),
{
    lemma_first_position_exists(names_in(ledger), name);
    let after = with_event(ledger, name, event);
    assert forall|i: int, j: int| 0 <= i < j < after.len() implies (#[trigger] after[i]).name != (
    #[trigger] after[j]).name by {
        assert(after[i].name == ledger[i].name && after[j].name == ledger[j].name);
    }
    assert forall|i: int| 0 <= i < after.len() implies (#[trigger] after[i]).well_formed() by {
        if i != record_position(ledger, name) {
            assert(after[i] == ledger[i]);
        }
    }
}

/// A well-formed collection stays well-formed when a record is removed, and
/// the name of the removed record is then free.
pub proof fn lemma_without_record_well_formed(ledger: Seq<RecordView>, name: Seq<char>)
    requires
        ledger_well_formed(ledger),
        has_record(ledger, name),
    ensures
        ledger_well_formed(without_record(ledger, name)),
        !has_record(without_record(ledger, name), name),
{
    lemma_first_position_exists(names_in(ledger), name);
    let p = record_position(ledger, name);
    let after = without_record(ledger, name);
    assert forall|i: int| 0 <= i < after.len() implies #[trigger] after[i] == ledger[if i < p {
        i
    } else {
        i + 1
    }] by {}
    assert forall|i: int, j: int| 0 <= i < j < after.len() implies (#[trigger] after[i]).name != (
    #[trigger] after[j]).name by {
        let a = if i < p { i } else { i + 1 };
        let b = if j < p { j } else { j + 1 };
        assert(after[i] == ledger[a] && after[j] == ledger[b]);
    }
    assert forall|i: int| 0 <= i < after.len() implies (#[trigger] after[i]).well_formed() by {
        let a = if i < p { i } else { i + 1 };
        assert(after[i] == ledger[a]);
    }
    if has_record(after, name) {
        let k = choose|k: int| 0 <= k < names_in(after).len() && names_in(after)[k] == name;
        let a = if k < p { k } else { k + 1 };
        assert(after[k] == ledger[a]);
        assert(names_in(ledger)[p] == ledger[p].name);
        assert(ledger[a].name == name && ledger[p].name == name);
    }
}

/// While the clock does not run backwards, the events of a record stay in
/// the order of their times: entering an event that is not earlier than the
/// record's last modification keeps the record well-formed and in time
/// order. A fresh record is both.
pub proof fn lemma_entering_keeps_time_order(record: RecordView, event: ExpenseView)
    requires
        record.well_formed(),
        record.in_time_order(),
        record.modified_at.not_after(event.time()),
    ensures
        record.with_event(event).well_formed(),
        record.with_event(event).in_time_order(),
        RecordView::fresh(record.name, event.time()).well_formed(),
        RecordView::fresh(record.name, event.time()).in_time_order(),
{
    let after = record.with_event(event);
    let last = record.expenses.len() as int;
    assert forall|i: int, j: int| 0 <= i <= j < after.expenses.len() implies (
    #[trigger] after.expenses[i]).time().not_after((#[trigger] after.expenses[j]).time()) by {
        if j == last && i < last {
            assert(after.expenses[i] == record.expenses[i]);
        } else if j < last {
            assert(after.expenses[i] == record.expenses[i]);
            assert(after.expenses[j] == record.expenses[j]);
        }
    }
    assert forall|i: int| 0 <= i < after.expenses.len() implies after.created_at.not_after(
        (#[trigger] after.expenses[i]).time(),
    ) && after.expenses[i].time().not_after(after.modified_at) by {
        if i < last {
            assert(after.expenses[i] == record.expenses[i]);
        }
    }
}

/// Sharing or lending under a name that no record has creates the record:
/// it is put at the end of the collection with both times set to `now` and
/// then takes the event, which leaves it last modified at the time of the
/// event. The records that were there stay as they were.
pub proof fn lemma_event_creates_record(
    ledger: Seq<RecordView>,
    name: Seq<char>,
    event: ExpenseView,
    now: Timestamp,
)
    requires
        !has_record(ledger, name),
    ensures
        with_record(ledger, name, now) == ledger.push(RecordView::fresh(name, now)),
        RecordView::fresh(name, now).created_at == RecordView::fresh(name, now).modified_at,
        with_event(with_record(ledger, name, now), name, event) == ledger.push(
            RecordView {
                name,
                created_at: now,
                modified_at: event.time(),
                expenses: seq![event],
            },
        ),
{
    lemma_with_record_position(ledger, name, now);
    let present = with_record(ledger, name, now);
    let after = with_event(present, name, event);
    let created = RecordView {
        name,
        created_at: now,
        modified_at: event.time(),
        expenses: seq![event],
    };
    assert(RecordView::fresh(name, now).expenses.push(event) =~= seq![event]);
    assert(after =~= ledger.push(created));
}

/// Sharing and lending always leave a record with the name in the
/// collection, whether it was there before or not.
pub proof fn lemma_event_leaves_record(
    ledger: Seq<RecordView>,
    name: Seq<char>,
    event: ExpenseView,
    now: Timestamp,
)
    ensures
        has_record(with_event(with_record(ledger, name, now), name, event), name),
{
    lemma_with_record_position(ledger, name, now);
    let present = with_record(ledger, name, now);
    let i = record_position(present, name);
    let after = with_event(present, name, event);
    assert(names_in(after)[i] == name);
}

} // verus!
