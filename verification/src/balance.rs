//! Who has paid for whom: the people of a record's history and the table of
//! their pairwise balances.
//!
//! The table is square, one row and one column for each person. The entry in
//! row `a` and column `b` counts what `b` has paid for `a` since the record
//! was last settled up, less what `a` has paid for `b`: the part of `a` in
//! what `b` shared, and what `b` handed to `a`. The entry in row `b` and
//! column `a` is its negative.

use crate::expense::{
    events, find_record, has_record, ledger, record_position, Expense, ExpenseView, LedgerError,
    Record,
};
use crate::names::{find_name, first_position, texts};
use crate::time::Timestamp;
use vstd::prelude::*;

verus! {

/// The list with `name` at its end, unless the name is in it already.
pub open spec fn with_name(people: Seq<Seq<char>>, name: Seq<char>) -> Seq<Seq<char>> {
    if people.contains(name) {
        people
    } else {
        people.push(name)
    }
}

/// The list with the people that `event` names: who shared, or who lent and
/// then who borrowed.
pub open spec fn with_people_of(people: Seq<Seq<char>>, event: ExpenseView) -> Seq<Seq<char>> {
    match event {
        ExpenseView::Share { who, .. } => with_name(people, who),
        ExpenseView::Lend { from, to, .. } => with_name(with_name(people, from), to),
        ExpenseView::SettleUp { .. } => people,
    }
}

/// The people of a history, each once, in the order in which the history
/// first names them. A person's place in this list is their row and column
/// in the table of balances.
pub open spec fn participants_of(history: Seq<ExpenseView>) -> Seq<Seq<char>>
    decreases history.len(),
{
    if history.len() == 0 {
        Seq::empty()
    } else {
        with_people_of(participants_of(history.drop_last()), history.last())
    }
}

/// `event` names this person.
pub open spec fn names_person(event: ExpenseView, name: Seq<char>) -> bool {
    match event {
        ExpenseView::Share { who, .. } => who == name,
        ExpenseView::Lend { from, to, .. } => from == name || to == name,
        ExpenseView::SettleUp { .. } => false,
    }
}

/// Some event of the history names this person.
pub open spec fn mentions(history: Seq<ExpenseView>, name: Seq<char>) -> bool {
    exists|k: int| 0 <= k < history.len() && names_person(#[trigger] history[k], name)
}

/// A table of `n` rows and `n` columns that holds only zeros.
pub open spec fn zeros(n: nat) -> Seq<Seq<int>> {
    Seq::new(n, |r: int| Seq::new(n, |c: int| 0int))
}

/// One of `n` equal parts of `amount`, rounded towards zero.
pub open spec fn share_of(amount: int, n: int) -> int {
    if amount >= 0 {
        amount / n
    } else {
        -((-amount) / n)
    }
}

/// The table after the person at place `who` paid for all `n`: every row
/// gains `share` in column `who`, and row `who` loses `share` in every
/// column, so that the entry of `who` with themselves stays as it was.
pub open spec fn after_share(table: Seq<Seq<int>>, n: nat, who: int, share: int) -> Seq<Seq<int>> {
    Seq::new(
        n,
        |r: int|
            Seq::new(
                n,
                |c: int|
                    table[r][c] + (if c == who {
                        share
                    } else {
                        0
                    }) - (if r == who {
                        share
                    } else {
                        0
                    }),
            ),
    )
}

/// The table after the person at place `from` handed `amount` to the person
/// at place `to`: the entry in row `to` and column `from` gains `amount`, the
/// entry in row `from` and column `to` loses it.
pub open spec fn after_lend(table: Seq<Seq<int>>, n: nat, from: int, to: int, amount: int) -> Seq<
    Seq<int>,
> {
    Seq::new(
        n,
        |r: int|
            Seq::new(
                n,
                |c: int|
                    table[r][c] + (if r == to && c == from {
                        amount
                    } else {
                        0
                    }) - (if r == from && c == to {
                        amount
                    } else {
                        0
                    }),
            ),
    )
}

/// The table after one more event among `people`. A shared amount is split
/// evenly among all of them; settling up sets every entry to zero.
pub open spec fn after_event(table: Seq<Seq<int>>, people: Seq<Seq<char>>, event: ExpenseView) -> Seq<
    Seq<int>,
> {
    let n = people.len();
    match event {
        ExpenseView::Share { who, amount, .. } => after_share(
            table,
            n,
            first_position(people, who),
            share_of(amount, n as int),
        ),
        ExpenseView::Lend { from, to, amount, .. } => after_lend(
            table,
            n,
            first_position(people, from),
            first_position(people, to),
            amount,
        ),
        ExpenseView::SettleUp { .. } => zeros(n),
    }
}

/// The table that a history leaves among `people`: it starts as zeros and
/// takes the events in order.
pub open spec fn balances_among(people: Seq<Seq<char>>, history: Seq<ExpenseView>) -> Seq<Seq<int>>
    decreases history.len(),
{
    if history.len() == 0 {
        zeros(people.len())
    } else {
        after_event(balances_among(people, history.drop_last()), people, history.last())
    }
}

/// The table that a history leaves among its own people. The people are
/// those of the whole history: someone who is named only late takes part in
/// every split, also in those entered before.
pub open spec fn balances_of(history: Seq<ExpenseView>) -> Seq<Seq<int>> {
    balances_among(participants_of(history), history)
}

/// The table has `n` rows of `n` entries.
pub open spec fn is_square(table: Seq<Seq<int>>, n: nat) -> bool {
    &&& table.len() == n
    &&& forall|r: int| 0 <= r < n ==> (#[trigger] table[r]).len() == n
}

/// Each entry is the negative of the entry across the diagonal.
pub open spec fn antisymmetric(table: Seq<Seq<int>>) -> bool {
    forall|a: int, b: int|
        0 <= a < table.len() && 0 <= b < table.len() ==> #[trigger] table[a][b] == -table[b][a]
}

/// No entry is further from zero than `bound`.
pub open spec fn within(table: Seq<Seq<int>>, bound: int) -> bool {
    forall|r: int, c: int|
        0 <= r < table.len() && 0 <= c < table[r].len() ==> -bound <= #[trigger] table[r][c]
            <= bound
}

/// The people of a record and the table of their balances.
#[derive(Debug, PartialEq, Eq)]
pub struct BalanceSheet {
    /// The people; a person's place here is their row and column.
    pub people: Vec<String>,
    /// The table, row by row.
    pub balance: Vec<Vec<i128>>,
}

/// The mathematical value of a [`BalanceSheet`].
pub struct BalanceSheetView {
    pub people: Seq<Seq<char>>,
    pub balance: Seq<Seq<int>>,
}

/// The entries of a table that is held row by row.
pub open spec fn table_of(rows: Seq<Vec<i128>>) -> Seq<Seq<int>> {
    Seq::new(rows.len(), |r: int| Seq::new(rows[r]@.len(), |c: int| rows[r]@[c] as int))
}

impl View for BalanceSheet {
    type V = BalanceSheetView;

    open spec fn view(&self) -> BalanceSheetView {
        BalanceSheetView { people: texts(self.people@), balance: table_of(self.balance@) }
    }
}

impl BalanceSheetView {
    /// Nobody is listed twice, the table has a row and a column for each
    /// person, and each entry is the negative of the entry across the
    /// diagonal.
    pub open spec fn well_formed(self) -> bool {
        &&& self.people.no_duplicates()
        &&& is_square(self.balance, self.people.len())
        &&& antisymmetric(self.balance)
    }
}

/// The sheet that a history leaves: its people and their balances.
pub open spec fn sheet_of(history: Seq<ExpenseView>) -> BalanceSheetView {
    BalanceSheetView { people: participants_of(history), balance: balances_of(history) }
}

/// A table that is held row by row equals the table with the same shape
/// and the same entries.
proof fn lemma_table_is(rows: Seq<Vec<i128>>, table: Seq<Seq<int>>)
    requires
        rows.len() == table.len(),
        forall|r: int| 0 <= r < rows.len() ==> (#[trigger] rows[r])@.len() == table[r].len(),
        forall|r: int, c: int|
            0 <= r < rows.len() && 0 <= c < rows[r]@.len() ==> rows[r]@[c] as int
                == #[trigger] table[r][c],
    ensures
        table_of(rows) == table,
{
    assert forall|r: int| 0 <= r < rows.len() implies table_of(rows)[r] =~= table[r] by {
        assert(rows[r]@.len() == table[r].len());
    }
    assert(table_of(rows) =~= table);
}

/// Adding a name keeps a list free of repetitions, and the list then holds
/// the name and what it held before.
proof fn lemma_with_name(people: Seq<Seq<char>>, name: Seq<char>)
    requires
        people.no_duplicates(),
    ensures
        with_name(people, name).no_duplicates(),
        forall|other: Seq<char>|
            #![trigger with_name(people, name).contains(other)]
            #![trigger people.contains(other)]
            with_name(people, name).contains(other) <==> (people.contains(other) || other == name),
{
    let after = with_name(people, name);
    if !people.contains(name) {
        assert forall|other: Seq<char>| after.contains(other) implies (people.contains(other)
            || other == name) by {
            let k = choose|k: int| 0 <= k < after.len() && after[k] == other;
            if k < people.len() {
                assert(people[k] == other);
            }
        }
        assert forall|other: Seq<char>| (people.contains(other) || other == name) implies
            after.contains(other) by {
            if other == name {
                assert(after[people.len() as int] == name);
            } else {
                let k = choose|k: int| 0 <= k < people.len() && people[k] == other;
                assert(after[k] == other);
            }
        }
    }
}

/// The people of a history are listed once each, and they are the people
/// that some event of the history names.
pub proof fn lemma_participants(history: Seq<ExpenseView>)
    ensures
        participants_of(history).no_duplicates(),
        forall|name: Seq<char>|
            #![trigger participants_of(history).contains(name)]
            #![trigger mentions(history, name)]
            participants_of(history).contains(name) <==> mentions(history, name),
    decreases history.len(),
{
    if history.len() > 0 {
        let earlier = history.drop_last();
        let event = history.last();
        let before = participants_of(earlier);
        lemma_participants(earlier);
        match event {
            ExpenseView::Share { who, .. } => {
                lemma_with_name(before, who);
            },
            ExpenseView::Lend { from, to, .. } => {
                lemma_with_name(before, from);
                lemma_with_name(with_name(before, from), to);
            },
            ExpenseView::SettleUp { .. } => {},
        }
        assert forall|name: Seq<char>| participants_of(history).contains(name) implies mentions(
            history,
            name,
        ) by {
            if before.contains(name) {
                let k = choose|k: int|
                    0 <= k < earlier.len() && names_person(#[trigger] earlier[k], name);
                assert(history[k] == earlier[k]);
            } else {
                assert(names_person(history[history.len() - 1], name));
            }
        }
        assert forall|name: Seq<char>| mentions(history, name) implies participants_of(
            history,
        ).contains(name) by {
            let k = choose|k: int|
                0 <= k < history.len() && names_person(#[trigger] history[k], name);
            if k < earlier.len() {
                assert(earlier[k] == history[k]);
                assert(mentions(earlier, name));
            }
        }
    } else {
        assert forall|name: Seq<char>| !participants_of(history).contains(name) by {}
    }
}

/// A history that holds a shared payment has at least one person, so a
/// shared amount is never split among nobody.
pub proof fn lemma_share_has_participant(history: Seq<ExpenseView>, k: int)
    requires
        0 <= k < history.len(),
        history[k] is Share,
    ensures
        participants_of(history).len() > 0,
{
    lemma_participants(history);
    let who = history[k]->Share_who;
    assert(names_person(history[k], who));
    assert(participants_of(history).contains(who));
}

/// The table of a history among any people is square.
pub proof fn lemma_balances_square(people: Seq<Seq<char>>, history: Seq<ExpenseView>)
    ensures
        is_square(balances_among(people, history), people.len()),
{
}

/// Every table along the way is antisymmetric: after any number of events
/// of a history, each entry is the negative of the entry across the
/// diagonal.
pub proof fn lemma_balances_antisymmetric(people: Seq<Seq<char>>, history: Seq<ExpenseView>)
    ensures
        antisymmetric(balances_among(people, history)),
        forall|k: int|
            0 <= k <= history.len() ==> antisymmetric(
                #[trigger] balances_among(people, history.take(k)),
            ),
    decreases history.len(),
{
    lemma_balances_antisymmetric_at_end(people, history);
    assert forall|k: int| 0 <= k <= history.len() implies antisymmetric(
        #[trigger] balances_among(people, history.take(k)),
    ) by {
        lemma_balances_antisymmetric_at_end(people, history.take(k));
    }
}

proof fn lemma_balances_antisymmetric_at_end(people: Seq<Seq<char>>, history: Seq<ExpenseView>)
    ensures
        antisymmetric(balances_among(people, history)),
    decreases history.len(),
{
    if history.len() > 0 {
        lemma_balances_antisymmetric_at_end(people, history.drop_last());
        lemma_balances_square(people, history.drop_last());
        let before = balances_among(people, history.drop_last());
        let after = balances_among(people, history);
        assert forall|a: int, b: int|
            0 <= a < after.len() && 0 <= b < after.len() implies #[trigger] after[a][b]
            == -after[b][a] by {
            assert(before[a][b] == -before[b][a]);
        }
    }
}

/// Settling up wipes the table: right after it every entry is zero, and
/// what follows builds on zeros, so the table of a history that holds a
/// settling up is the table of what was entered after it.
pub proof fn lemma_settle_up_resets(
    people: Seq<Seq<char>>,
    before: Seq<ExpenseView>,
    settled_at: Timestamp,
    after: Seq<ExpenseView>,
)
    ensures
        balances_among(people, before.push(ExpenseView::SettleUp { created_at: settled_at }))
            == zeros(people.len()),
        balances_among(
            people,
            before.push(ExpenseView::SettleUp { created_at: settled_at }) + after,
        ) == balances_among(people, after),
        balances_of(before.push(ExpenseView::SettleUp { created_at: settled_at })) == zeros(
            participants_of(before).len(),
        ),
        balances_of(before.push(ExpenseView::SettleUp { created_at: settled_at }) + after)
            == balances_among(
            participants_of(before.push(ExpenseView::SettleUp { created_at: settled_at }) + after),
            after,
        ),
    decreases after.len(),
{
    let settle = ExpenseView::SettleUp { created_at: settled_at };
    let upto = before.push(settle);
    lemma_settle_up_resets_among(people, before, settled_at, after);
    lemma_settle_up_resets_among(participants_of(upto), before, settled_at, Seq::empty());
    lemma_settle_up_resets_among(participants_of(upto + after), before, settled_at, after);
    assert(upto.drop_last() =~= before);
}

proof fn lemma_settle_up_resets_among(
    people: Seq<Seq<char>>,
    before: Seq<ExpenseView>,
    settled_at: Timestamp,
    after: Seq<ExpenseView>,
)
    ensures
        balances_among(people, before.push(ExpenseView::SettleUp { created_at: settled_at }))
            == zeros(people.len()),
        balances_among(
            people,
            before.push(ExpenseView::SettleUp { created_at: settled_at }) + after,
        ) == balances_among(people, after),
    decreases after.len(),
{
    let settle = ExpenseView::SettleUp { created_at: settled_at };
    let upto = before.push(settle);
    assert(upto.drop_last() =~= before);
    assert(upto.last() == settle);
    if after.len() == 0 {
        assert(upto + after =~= upto);
    } else {
        lemma_settle_up_resets_among(people, before, settled_at, after.drop_last());
        assert((upto + after).drop_last() =~= upto + after.drop_last());
        assert((upto + after).last() == after.last());
    }
}

/// Puts `name` at the end of the list, unless the list holds it already.
pub fn add_name(people: &mut Vec<String>, name: &String)
    ensures
        texts(final(people)@) == with_name(texts(old(people)@), name@),
{
    if find_name(people, name).is_none() {
        people.push(name.clone());
        assert(texts(people@) =~= texts(old(people)@).push(name@));
    }
}

/// The people of a list of events, each once, in the order in which the
/// events first name them.
pub fn participants(expenses: &Vec<Expense>) -> (people: Vec<String>)
    ensures
        texts(people@) == participants_of(events(expenses@)),
        texts(people@).no_duplicates(),
        forall|name: Seq<char>|
            #![trigger texts(people@).contains(name)]
            #![trigger mentions(events(expenses@), name)]
            texts(people@).contains(name) <==> mentions(events(expenses@), name),
{
    let ghost history = events(expenses@);
    let mut people: Vec<String> = Vec::new();
    let mut k: usize = 0;
    assert(texts(people@) =~= participants_of(history.take(0)));
    while k < expenses.len()
        invariant
            k <= expenses.len(),
            history == events(expenses@),
            texts(people@) == participants_of(history.take(k as int)),
        decreases expenses.len() - k,
    {
        proof {
            assert(history.take(k + 1).drop_last() =~= history.take(k as int));
            assert(history.take(k + 1).last() == expenses[k as int]@);
        }
        match &expenses[k] {
            Expense::Share { who, .. } => {
                add_name(&mut people, who);
            },
            Expense::Lend { from, to, .. } => {
                add_name(&mut people, from);
                add_name(&mut people, to);
            },
            Expense::SettleUp { .. } => {},
        }
        k += 1;
    }
    proof {
        assert(history.take(k as int) =~= history);
        lemma_participants(history);
    }
    people
}

/// The rows hold `n` rows of `n` entries.
pub open spec fn rows_square(rows: Seq<Vec<i128>>, n: nat) -> bool {
    &&& rows.len() == n
    &&& forall|r: int| 0 <= r < n ==> (#[trigger] rows[r])@.len() == n
}

/// A table of `n` rows and `n` columns that holds only zeros.
pub fn zero_table(n: usize) -> (rows: Vec<Vec<i128>>)
    ensures
        rows_square(rows@, n as nat),
        table_of(rows@) == zeros(n as nat),
{
    let mut rows: Vec<Vec<i128>> = Vec::new();
    let mut r: usize = 0;
    while r < n
        invariant
            r <= n,
            rows.len() == r,
            forall|i: int| 0 <= i < r ==> (#[trigger] rows[i])@.len() == n,
            forall|i: int, j: int| 0 <= i < r && 0 <= j < n ==> (#[trigger] rows[i]@[j]) == 0,
        decreases n - r,
    {
        let mut row: Vec<i128> = Vec::new();
        let mut c: usize = 0;
        while c < n
            invariant
                c <= n,
                row.len() == c,
                forall|j: int| 0 <= j < c ==> #[trigger] row[j] == 0,
            decreases n - c,
        {
            row.push(0);
            c += 1;
        }
        rows.push(row);
        r += 1;
    }
    proof {
        lemma_table_is(rows@, zeros(n as nat));
    }
    rows
}

/// One of `n` equal parts of `amount`, rounded towards zero; fails where
/// there is nobody to split among.
pub fn split_evenly(amount: i64, n: usize) -> (share: Result<i128, LedgerError>)
    ensures
        n == 0 <==> share is Err,
        share is Err ==> share == Err::<i128, LedgerError>(LedgerError::NoParticipants),
        share matches Ok(part) ==> part == share_of(amount as int, n as int) && -0x8000_0000_0000_0000
            <= part <= 0x8000_0000_0000_0000,
{
    if n == 0 {
        return Err(LedgerError::NoParticipants);
    }
    proof {
        lemma_share_bounded(amount as int, n as int);
    }
    Ok((amount as i128) / (n as i128))
}

/// A part is no further from zero than the whole.
pub proof fn lemma_share_bounded(amount: int, n: int)
    requires
        n >= 1,
    ensures
        amount >= 0 ==> 0 <= share_of(amount, n) <= amount,
        amount < 0 ==> amount <= share_of(amount, n) <= 0,
{
    if amount >= 0 {
        assert(0 <= amount / n <= amount) by (nonlinear_arith)
            requires
                amount >= 0,
                n >= 1,
        ;
    } else {
        let whole = -amount;
        assert(0 <= whole / n <= whole) by (nonlinear_arith)
            requires
                whole >= 0,
                n >= 1,
        ;
    }
}

/// Enters a shared payment into the table: every row gains `share` in
/// column `who`, then row `who` loses `share` in every column.
fn apply_share(balance: &mut Vec<Vec<i128>>, who: usize, share: i128, Ghost(bound): Ghost<int>)
    requires
        rows_square(old(balance)@, old(balance).len() as nat),
        who < old(balance).len(),
        within(table_of(old(balance)@), bound),
        0 <= bound,
        -0x8000_0000_0000_0000 <= share <= 0x8000_0000_0000_0000,
        bound + 0x8000_0000_0000_0000 <= i128::MAX,
    ensures
        rows_square(final(balance)@, old(balance).len() as nat),
        table_of(final(balance)@) == after_share(
            table_of(old(balance)@),
            old(balance).len() as nat,
            who as int,
            share as int,
        ),
        within(table_of(final(balance)@), bound + 0x8000_0000_0000_0000),
{
    let n = balance.len();
    let ghost start = table_of(balance@);
    let mut r: usize = 0;
    while r < n
        invariant
            r <= n,
            who < n,
            n == old(balance).len(),
            rows_square(balance@, n as nat),
            start == table_of(old(balance)@),
            is_square(start, n as nat),
            within(start, bound),
            0 <= bound,
            -0x8000_0000_0000_0000 <= share <= 0x8000_0000_0000_0000,
            bound + 0x8000_0000_0000_0000 <= i128::MAX,
            forall|i: int, j: int|
                0 <= i < n && 0 <= j < n ==> (#[trigger] balance[i]@[j]) as int == start[i][j] + (if j
                    == who && i < r {
                    share as int
                } else {
                    0
                }),
        decreases n - r,
    {
        assert(balance[r as int]@[who as int] == start[r as int][who as int]);
        balance[r][who] = balance[r][who] + share;
        r += 1;
    }
    let mut c: usize = 0;
    while c < n
        invariant
            c <= n,
            who < n,
            n == old(balance).len(),
            rows_square(balance@, n as nat),
            start == table_of(old(balance)@),
            is_square(start, n as nat),
            within(start, bound),
            0 <= bound,
            -0x8000_0000_0000_0000 <= share <= 0x8000_0000_0000_0000,
            bound + 0x8000_0000_0000_0000 <= i128::MAX,
            forall|i: int, j: int|
                0 <= i < n && 0 <= j < n ==> (#[trigger] balance[i]@[j]) as int == start[i][j] + (if j
                    == who {
                    share as int
                } else {
                    0
                }) - (if i == who && j < c {
                    share as int
                } else {
                    0
                }),
        decreases n - c,
    {
        assert(-bound <= start[who as int][c as int] <= bound);
        balance[who][c] = balance[who][c] - share;
        c += 1;
    }
    proof {
        let target = after_share(start, n as nat, who as int, share as int);
        lemma_table_is(balance@, target);
        assert forall|i: int, j: int|
            0 <= i < target.len() && 0 <= j < target[i].len() implies -(bound
            + 0x8000_0000_0000_0000) <= #[trigger] target[i][j] <= bound + 0x8000_0000_0000_0000 by {
            assert(-bound <= start[i][j] <= bound);
        }
    }
}

/// Enters a direct payment into the table: the entry in row `to` and column
/// `from` gains `amount`, then the entry in row `from` and column `to` loses
/// it.
fn apply_lend(
    balance: &mut Vec<Vec<i128>>,
    from: usize,
    to: usize,
    amount: i64,
    Ghost(bound): Ghost<int>,
)
    requires
        rows_square(old(balance)@, old(balance).len() as nat),
        from < old(balance).len(),
        to < old(balance).len(),
        within(table_of(old(balance)@), bound),
        0 <= bound,
        bound + 0x8000_0000_0000_0000 <= i128::MAX,
    ensures
        rows_square(final(balance)@, old(balance).len() as nat),
        table_of(final(balance)@) == after_lend(
            table_of(old(balance)@),
            old(balance).len() as nat,
            from as int,
            to as int,
            amount as int,
        ),
        within(table_of(final(balance)@), bound + 0x8000_0000_0000_0000),
{
    let ghost n = balance.len();
    let ghost start = table_of(balance@);
    assert(-bound <= start[to as int][from as int] <= bound);
    assert(-bound <= start[from as int][to as int] <= bound);
    balance[to][from] = balance[to][from] + amount as i128;
    balance[from][to] = balance[from][to] - amount as i128;
    proof {
        let target = after_lend(start, n as nat, from as int, to as int, amount as int);
        assert forall|i: int, j: int| 0 <= i < n && 0 <= j < n implies (
        #[trigger] balance[i]@[j]) as int == target[i][j] by {
            assert(old(balance)[i]@[j] as int == start[i][j]);
        }
        lemma_table_is(balance@, target);
        assert forall|i: int, j: int|
            0 <= i < target.len() && 0 <= j < target[i].len() implies -(bound
            + 0x8000_0000_0000_0000) <= #[trigger] target[i][j] <= bound + 0x8000_0000_0000_0000 by {
            assert(-bound <= start[i][j] <= bound);
        }
    }
}

/// The people of a list of events and the table of their balances.
///
/// The guard against splitting among nobody never fires here: an event that
/// shares an amount names the person who paid.
pub fn compute_balances(expenses: &Vec<Expense>) -> (sheet: Result<BalanceSheet, LedgerError>)
    ensures
        sheet matches Ok(s) && s@ == sheet_of(events(expenses@)),
        sheet matches Ok(s) && s@.well_formed(),
{
    let ghost history = events(expenses@);
    let people = participants(expenses);
    let ghost crowd = texts(people@);
    let n = people.len();
    let mut balance = zero_table(n);
    let mut k: usize = 0;
    assert(history.take(0) =~= Seq::<ExpenseView>::empty());
    while k < expenses.len()
        invariant
            k <= expenses.len(),
            history == events(expenses@),
            crowd == texts(people@),
            crowd == participants_of(history),
            forall|name: Seq<char>|
                #![trigger crowd.contains(name)]
                #![trigger mentions(history, name)]
                crowd.contains(name) <==> mentions(history, name),
            n == people.len(),
            rows_square(balance@, n as nat),
            table_of(balance@) == balances_among(crowd, history.take(k as int)),
            within(table_of(balance@), k * 0x8000_0000_0000_0000),
        decreases expenses.len() - k,
    {
        let ghost bound = k * 0x8000_0000_0000_0000;
        proof {
            assert(history.take(k + 1).drop_last() =~= history.take(k as int));
            assert(history.take(k + 1).last() == expenses[k as int]@);
            assert(history[k as int] == expenses[k as int]@);
            assert(bound + 0x8000_0000_0000_0000 <= i128::MAX);
        }
        match &expenses[k] {
            Expense::Share { who, amount, .. } => {
                proof {
                    assert(names_person(history[k as int], who@));
                    assert(crowd.contains(who@));
                }
                let place = find_name(&people, who);
                let share = split_evenly(*amount, n);
                match (place, share) {
                    (Some(w), Ok(part)) => {
                        apply_share(&mut balance, w, part, Ghost(bound));
                    },
                    (_, Err(e)) => {
                        return Err(e);
                    },
                    (None, _) => {
                        return Err(LedgerError::NoParticipants);
                    },
                }
            },
            Expense::Lend { from, to, amount, .. } => {
                proof {
                    assert(names_person(history[k as int], from@));
                    assert(names_person(history[k as int], to@));
                    assert(crowd.contains(from@));
                    assert(crowd.contains(to@));
                }
                match (find_name(&people, from), find_name(&people, to)) {
                    (Some(f), Some(t)) => {
                        apply_lend(&mut balance, f, t, *amount, Ghost(bound));
                    },
                    _ => {
                        return Err(LedgerError::NoParticipants);
                    },
                }
            },
            Expense::SettleUp { .. } => {
                balance = zero_table(n);
            },
        }
        k += 1;
    }
    proof {
        assert(history.take(k as int) =~= history);
        lemma_balances_antisymmetric(crowd, history);
        lemma_balances_square(crowd, history);
    }
    Ok(BalanceSheet { people, balance })
}

/// The people of the first record with this name and the table of their
/// balances; fails where the collection has no such record.
pub fn show_balance(records: &Vec<Record>, name: &String) -> (sheet: Result<
    BalanceSheet,
    LedgerError,
>)
    ensures
        sheet is Ok <==> has_record(ledger(records@), name@),
        sheet matches Ok(s) ==> s@ == sheet_of(
            ledger(records@)[record_position(ledger(records@), name@)].expenses,
        ),
        sheet matches Ok(s) ==> s@.well_formed(),
        sheet is Err ==> sheet == Err::<BalanceSheet, LedgerError>(LedgerError::RecordNotFound),
{
    match find_record(records, name) {
        Some(i) => compute_balances(&records[i].expenses),
        None => Err(LedgerError::RecordNotFound),
    }
}

/// Showing the balances reads and changes nothing, so showing them again
/// gives the same: any two outcomes of [`show_balance`] on one collection
/// and name fail alike or hold the same people and the same table.
pub proof fn lemma_showing_is_repeatable(
    records: &Vec<Record>,
    name: &String,
    first: Result<BalanceSheet, LedgerError>,
    second: Result<BalanceSheet, LedgerError>,
)
    requires
        call_ensures(show_balance, (records, name), first),
        call_ensures(show_balance, (records, name), second),
    ensures
        first is Ok <==> second is Ok,
        first matches Ok(a) ==> second matches Ok(b) && a@ == b@,
        first matches Err(a) ==> second matches Err(b) && a == b,
{
}

} // verus!
