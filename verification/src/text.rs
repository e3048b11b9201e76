//! The lines in which events and records are shown.

use crate::balance::{BalanceSheet, BalanceSheetView};
use crate::expense::{Expense, ExpenseView, IndexEntry, IndexEntryView};
use crate::time::Timestamp;
use vstd::prelude::*;

verus! {

/// The character of a decimal digit.
pub open spec fn digit_char(d: int) -> char {
    if d == 0 {
        '0'
    } else if d == 1 {
        '1'
    } else if d == 2 {
        '2'
    } else if d == 3 {
        '3'
    } else if d == 4 {
        '4'
    } else if d == 5 {
        '5'
    } else if d == 6 {
        '6'
    } else if d == 7 {
        '7'
    } else if d == 8 {
        '8'
    } else {
        '9'
    }
}

/// A number in decimal digits, without leading zeros.
pub open spec fn decimal(n: nat) -> Seq<char>
    decreases n,
{
    if n < 10 {
        seq![digit_char(n as int)]
    } else {
        decimal(n / 10).push(digit_char((n % 10) as int))
    }
}

/// How many decimal digits a count of lines needs; none for no lines.
pub open spec fn decimal_width(n: nat) -> nat
    decreases n,
{
    if n == 0 {
        0
    } else {
        1 + decimal_width(n / 10)
    }
}

/// `n` blanks.
pub open spec fn blanks(n: nat) -> Seq<char> {
    Seq::new(n, |i: int| ' ')
}

/// An amount of the smallest currency unit, shown in the larger unit of a
/// hundred with two decimals, a minus sign first where it is negative.
pub open spec fn amount_text_of(amount: int) -> Seq<char> {
    let size = if amount < 0 {
        -amount
    } else {
        amount
    };
    let sign = if amount < 0 {
        seq!['-']
    } else {
        Seq::empty()
    };
    sign + decimal((size / 100) as nat) + seq![
        '.',
        digit_char(size % 100 / 10),
        digit_char(size % 10),
    ]
}

/// The line that shows an event, given the text that shows its time.
pub open spec fn described(event: ExpenseView, when: Seq<char>) -> Seq<char> {
    match event {
        ExpenseView::Share { who, amount, .. } => "["@ + when + "] "@ + who + " pays \u{20B9}"@
            + amount_text_of(amount),
        ExpenseView::Lend { from, to, amount, .. } => "["@ + when + "] "@ + from + " pays "@ + to
            + " \u{20B9}"@ + amount_text_of(amount),
        ExpenseView::SettleUp { .. } => "["@ + when + "] Settled Up!"@,
    }
}

/// The line that shows a record in the index, given the texts that show its
/// two times.
pub open spec fn summarized(entry: IndexEntryView, created: Seq<char>, modified: Seq<char>) -> Seq<
    char,
> {
    "Created At: ["@ + created + "], Last Modified At: ["@ + modified + "], Record: \""@
        + entry.name + "\""@
}

/// A line with its number in front: the number is set flush right in
/// `width` columns (more where it has more digits), then an arrow, then the
/// line.
pub open spec fn numbered(width: nat, number: nat, line: Seq<char>) -> Seq<char> {
    let digits = decimal(number);
    let pad = if width > digits.len() {
        (width - digits.len()) as nat
    } else {
        0
    };
    blanks(pad) + digits + " => "@ + line
}

/// The entries of a row, each as an amount, with a comma and a blank
/// between them.
pub open spec fn joined(row: Seq<int>) -> Seq<char>
    decreases row.len(),
{
    if row.len() == 0 {
        Seq::empty()
    } else if row.len() == 1 {
        amount_text_of(row[0])
    } else {
        joined(row.drop_last()) + ", "@ + amount_text_of(row.last())
    }
}

/// The line that shows a row of the table of balances.
pub open spec fn row_line(row: Seq<int>) -> Seq<char> {
    "["@ + joined(row) + "]"@
}

/// The line that shows a person with their place in the table.
pub open spec fn person_line(name: Seq<char>, place: nat) -> Seq<char> {
    "    \""@ + name + "\": "@ + decimal(place) + ","@
}

/// The lines that show a sheet: the people between braces, each on a line
/// with their place, then the rows of the table. Where there is nobody the
/// braces stand on one line and no row follows.
pub open spec fn sheet_lines_of(sheet: BalanceSheetView) -> Seq<Seq<char>> {
    if sheet.people.len() == 0 {
        seq!["people = {}"@]
    } else {
        seq!["people = {"@] + Seq::new(
            sheet.people.len(),
            |i: int| person_line(sheet.people[i], i as nat),
        ) + seq!["}"@] + Seq::new(sheet.balance.len(), |r: int| row_line(sheet.balance[r]))
    }
}

/// `line` shows `event` with some text for its time.
pub open spec fn is_line_of(line: Seq<char>, event: ExpenseView) -> bool {
    exists|when: Seq<char>| line == #[trigger] described(event, when)
}

/// `text` is the numbered line that shows `event` with some text for its
/// time.
pub open spec fn is_numbered_line_of(
    text: Seq<char>,
    width: nat,
    number: nat,
    event: ExpenseView,
) -> bool {
    exists|when: Seq<char>| text == numbered(width, number, #[trigger] described(event, when))
}

/// `line` shows `entry` with some texts for its two times.
pub open spec fn is_summary_of(line: Seq<char>, entry: IndexEntryView) -> bool {
    exists|created: Seq<char>, modified: Seq<char>|
        line == #[trigger] summarized(entry, created, modified)
}

/// Shows an instant in the time zone of this machine, as weekday, month,
/// day, year and twelve-hour time. It builds the instant with
/// `chrono::DateTime::from_timestamp`, moves it to `chrono::Local` with
/// `DateTime::with_timezone` and formats it with `DateTime::format` under
/// the pattern `"%a %b %d %Y %r"`. The result is `None` where chrono
/// cannot hold the instant; it can hold every day of the years 1 to 9999 and
/// every second of a day with nanoseconds below one second, which is all
/// that the contract claims. The text depends on the machine's time zone,
/// so nothing is claimed of it. Like the calls it wraps, it panics where
/// the machine's time zone data give no rule for the instant.
#[verifier::external_body]
pub(crate) fn local_time_text(at: Timestamp) -> (text: Option<String>)
    ensures
        at.showable() ==> text is Some,
{
    match chrono::DateTime::from_timestamp(at.secs, at.nanos) {
        Some(utc) => Some(utc.with_timezone(&chrono::Local).format("%a %b %d %Y %r").to_string()),
        None => None,
    }
}

/// The text of one decimal digit.
fn digit_text(d: u128) -> (text: &'static str)
    requires
        d < 10,
    ensures
        text@ == seq![digit_char(d as int)],
{
    proof {
        reveal_strlit("0");
        reveal_strlit("1");
        reveal_strlit("2");
        reveal_strlit("3");
        reveal_strlit("4");
        reveal_strlit("5");
        reveal_strlit("6");
        reveal_strlit("7");
        reveal_strlit("8");
        reveal_strlit("9");
    }
    let text = if d == 0 {
        "0"
    } else if d == 1 {
        "1"
    } else if d == 2 {
        "2"
    } else if d == 3 {
        "3"
    } else if d == 4 {
        "4"
    } else if d == 5 {
        "5"
    } else if d == 6 {
        "6"
    } else if d == 7 {
        "7"
    } else if d == 8 {
        "8"
    } else {
        "9"
    };
    assert(text@ =~= seq![digit_char(d as int)]);
    text
}

/// A number in decimal digits, without leading zeros.
pub fn decimal_text(n: u128) -> (text: String)
    ensures
        text@ == decimal(n as nat),
    decreases n,
{
    if n < 10 {
        String::from_str(digit_text(n))
    } else {
        let mut text = decimal_text(n / 10);
        text.append(digit_text(n % 10));
        text
    }
}

/// A number has as many digits as its width says, but for zero, which has
/// one digit and the width of no lines.
pub proof fn lemma_decimal_len(n: nat)
    ensures
        decimal(n).len() == if n == 0 {
            1
        } else {
            decimal_width(n)
        },
    decreases n,
{
    if n >= 10 {
        lemma_decimal_len(n / 10);
    } else if n > 0 {
        assert(n / 10 == 0);
        assert(decimal_width(n) == 1 + decimal_width(0));
    }
}

/// How many decimal digits a count of lines needs; none for no lines.
pub fn number_width(count: usize) -> (width: usize)
    ensures
        width == decimal_width(count as nat),
        width <= 20,
{
    let mut width: usize = 0;
    let mut rest: usize = count;
    proof {
        lemma_width_small(count as nat);
    }
    while rest > 0
        invariant
            decimal_width(count as nat) == width + decimal_width(rest as nat),
            decimal_width(count as nat) <= 20,
        decreases rest,
    {
        rest = rest / 10;
        width += 1;
    }
    width
}

/// A count that a machine word holds has at most twenty digits.
proof fn lemma_width_small(n: nat)
    requires
        n <= 0xffff_ffff_ffff_ffff,
    ensures
        decimal_width(n) <= 20,
{
    reveal_with_fuel(decimal_width, 22);
    assert(n / 10 / 10 / 10 / 10 / 10 / 10 / 10 / 10 / 10 / 10 / 10 / 10 / 10 / 10 / 10 / 10 / 10
        / 10 / 10 / 10 == 0);
}

/// An amount of the smallest currency unit, shown in the larger unit of a
/// hundred with two decimals, a minus sign first where it is negative.
pub fn amount_text(amount: i128) -> (text: String)
    ensures
        text@ == amount_text_of(amount as int),
{
    let size: u128 = if amount == i128::MIN {
        0x8000_0000_0000_0000_0000_0000_0000_0000
    } else if amount < 0 {
        (-amount) as u128
    } else {
        amount as u128
    };
    let mut text = if amount < 0 {
        proof {
            reveal_strlit("-");
        }
        String::from_str("-")
    } else {
        String::new()
    };
    let ghost sign = text@;
    assert(sign =~= if amount < 0 {
        seq!['-']
    } else {
        Seq::<char>::empty()
    });
    let whole = decimal_text(size / 100);
    text.append(whole.as_str());
    proof {
        reveal_strlit(".");
    }
    text.append(".");
    text.append(digit_text(size % 100 / 10));
    text.append(digit_text(size % 10));
    assert(text@ =~= amount_text_of(amount as int));
    text
}

impl Expense {
    /// The line that shows the event, given the text that shows its time.
    pub fn describe(&self, when: &str) -> (line: String)
        ensures
            line@ == described(self@, when@),
    {
        let mut line = String::from_str("[");
        line.append(when);
        match self {
            Expense::Share { who, amount, .. } => {
                line.append("] ");
                line.append(who.as_str());
                line.append(" pays \u{20B9}");
                line.append(amount_text(*amount as i128).as_str());
            },
            Expense::Lend { from, to, amount, .. } => {
                line.append("] ");
                line.append(from.as_str());
                line.append(" pays ");
                line.append(to.as_str());
                line.append(" \u{20B9}");
                line.append(amount_text(*amount as i128).as_str());
            },
            Expense::SettleUp { .. } => {
                line.append("] Settled Up!");
            },
        }
        assert(line@ =~= described(self@, when@));
        line
    }

    /// The line that shows the event, with its time in the time zone of this
    /// machine; `None` where the time cannot be shown.
    pub fn to_text(&self) -> (line: Option<String>)
        ensures
            self@.time().showable() ==> line is Some,
            line matches Some(text) ==> is_line_of(text@, self@),
    {
        match local_time_text(self.created_at()) {
            Some(when) => Some(self.describe(when.as_str())),
            None => None,
        }
    }
}

impl IndexEntry {
    /// The line that shows the record, given the texts that show its two
    /// times.
    pub fn describe(&self, created: &str, modified: &str) -> (line: String)
        ensures
            line@ == summarized(self@, created@, modified@),
    {
        let mut line = String::from_str("Created At: [");
        line.append(created);
        line.append("], Last Modified At: [");
        line.append(modified);
        line.append("], Record: \"");
        line.append(self.name.as_str());
        line.append("\"");
        assert(line@ =~= summarized(self@, created@, modified@));
        line
    }

    /// The line that shows the record, with its times in the time zone of
    /// this machine; `None` where a time cannot be shown.
    pub fn to_text(&self) -> (line: Option<String>)
        ensures
            self.created_at.showable() && self.modified_at.showable() ==> line is Some,
            line matches Some(text) ==> is_summary_of(text@, self@),
    {
        match (local_time_text(self.created_at), local_time_text(self.modified_at)) {
            (Some(created), Some(modified)) => Some(
                self.describe(created.as_str(), modified.as_str()),
            ),
            _ => None,
        }
    }
}

/// `n` blanks.
pub fn blank_text(n: usize) -> (text: String)
    ensures
        text@ == blanks(n as nat),
{
    let mut text = String::new();
    let mut i: usize = 0;
    proof {
        reveal_strlit(" ");
    }
    while i < n
        invariant
            i <= n,
            text@ == blanks(i as nat),
            " "@ == seq![' '],
        decreases n - i,
    {
        text.append(" ");
        i += 1;
        assert(text@ =~= blanks(i as nat));
    }
    text
}

/// A line with its number in front: the number is set flush right in
/// `width` columns (more where it has more digits), then an arrow, then the
/// line.
pub fn numbered_line(width: usize, number: usize, line: &str) -> (text: String)
    ensures
        text@ == numbered(width as nat, number as nat, line@),
{
    let digits = decimal_text(number as u128);
    let len = if number == 0 {
        1
    } else {
        number_width(number)
    };
    proof {
        lemma_decimal_len(number as nat);
    }
    let mut text = if width > len {
        blank_text(width - len)
    } else {
        blank_text(0)
    };
    text.append(digits.as_str());
    text.append(" => ");
    text.append(line);
    assert(text@ =~= numbered(width as nat, number as nat, line@));
    text
}

/// The lines that show a list of events, numbered from one, the numbers
/// set flush right in as many columns as the count of the events has
/// digits. `None` where a time cannot be shown.
pub fn listing_lines(list: &Vec<Expense>) -> (lines: Option<Vec<String>>)
    ensures
        (forall|i: int| 0 <= i < list.len() ==> (#[trigger] list[i])@.time().showable())
            ==> lines is Some,
        lines matches Some(shown) ==> shown.len() == list.len() && forall|i: int|
            0 <= i < list.len() ==> is_numbered_line_of(
                (#[trigger] shown[i])@,
                decimal_width(list.len() as nat),
                (i + 1) as nat,
                list[i]@,
            ),
{
    let width = number_width(list.len());
    let mut shown: Vec<String> = Vec::new();
    let mut i: usize = 0;
    while i < list.len()
        invariant
            i <= list.len(),
            shown.len() == i,
            width == decimal_width(list.len() as nat),
            forall|j: int|
                0 <= j < i ==> is_numbered_line_of(
                    (#[trigger] shown[j])@,
                    width as nat,
                    (j + 1) as nat,
                    list[j]@,
                ),
        decreases list.len() - i,
    {
        match local_time_text(list[i].created_at()) {
            Some(when) => {
                let line = list[i].describe(when.as_str());
                let text = numbered_line(width, i + 1, line.as_str());
                assert(is_numbered_line_of(
                    text@,
                    width as nat,
                    (i + 1) as nat,
                    list[i as int]@,
                )) by {
                    assert(line@ == described(list[i as int]@, when@));
                }
                shown.push(text);
            },
            None => {
                return None;
            },
        }
        i += 1;
    }
    Some(shown)
}

/// The lines that show an index, in its order. `None` where a time cannot
/// be shown.
pub fn index_lines(index: &Vec<IndexEntry>) -> (lines: Option<Vec<String>>)
    ensures
        (forall|i: int|
            0 <= i < index.len() ==> (#[trigger] index[i]).created_at.showable()
                && index[i].modified_at.showable()) ==> lines is Some,
        lines matches Some(shown) ==> shown.len() == index.len() && forall|i: int|
            0 <= i < index.len() ==> is_summary_of((#[trigger] shown[i])@, index[i]@),
{
    let mut shown: Vec<String> = Vec::new();
    let mut i: usize = 0;
    while i < index.len()
        invariant
            i <= index.len(),
            shown.len() == i,
            forall|j: int| 0 <= j < i ==> is_summary_of((#[trigger] shown[j])@, index[j]@),
        decreases index.len() - i,
    {
        match index[i].to_text() {
            Some(text) => {
                shown.push(text);
            },
            None => {
                return None;
            },
        }
        i += 1;
    }
    Some(shown)
}

/// The texts of a list of lines.
pub open spec fn line_texts(lines: Seq<String>) -> Seq<Seq<char>> {
    lines.map_values(|line: String| line@)
}

/// The line that shows a row of the table of balances.
pub fn row_text(row: &Vec<i128>) -> (line: String)
    ensures
        line@ == row_line(row@.map_values(|entry: i128| entry as int)),
{
    let ghost entries = row@.map_values(|entry: i128| entry as int);
    let mut line = String::from_str("[");
    let mut c: usize = 0;
    assert(entries.take(0) =~= Seq::<int>::empty());
    while c < row.len()
        invariant
            c <= row.len(),
            entries == row@.map_values(|entry: i128| entry as int),
            line@ == "["@ + joined(entries.take(c as int)),
        decreases row.len() - c,
    {
        proof {
            assert(entries.take(c + 1).drop_last() =~= entries.take(c as int));
            assert(entries.take(c + 1).last() == row[c as int] as int);
        }
        if c > 0 {
            line.append(", ");
        }
        line.append(amount_text(row[c]).as_str());
        c += 1;
        assert(line@ =~= "["@ + joined(entries.take(c as int)));
    }
    assert(entries.take(c as int) =~= entries);
    line.append("]");
    line
}

impl BalanceSheet {
    /// The lines that show the sheet: the people between braces, each on a
    /// line with their place, then the rows of the table.
    pub fn to_lines(&self) -> (lines: Vec<String>)
        ensures
            line_texts(lines@) == sheet_lines_of(self@),
    {
        let mut lines: Vec<String> = Vec::new();
        if self.people.len() == 0 {
            lines.push(String::from_str("people = {}"));
            assert(line_texts(lines@) =~= sheet_lines_of(self@));
            return lines;
        }
        let ghost sheet = self@;
        let ghost names = Seq::new(
            sheet.people.len(),
            |i: int| person_line(sheet.people[i], i as nat),
        );
        let ghost rows = Seq::new(sheet.balance.len(), |r: int| row_line(sheet.balance[r]));
        lines.push(String::from_str("people = {"));
        let mut i: usize = 0;
        while i < self.people.len()
            invariant
                i <= self.people.len(),
                sheet == self@,
                names == Seq::new(
                    sheet.people.len(),
                    |i: int| person_line(sheet.people[i], i as nat),
                ),
                line_texts(lines@) == seq!["people = {"@] + names.take(i as int),
            decreases self.people.len() - i,
        {
            let mut line = String::from_str("    \"");
            line.append(self.people[i].as_str());
            line.append("\": ");
            line.append(decimal_text(i as u128).as_str());
            line.append(",");
            assert(line@ =~= names[i as int]);
            let ghost before = lines@;
            lines.push(line);
            i += 1;
            proof {
                assert(line_texts(lines@) =~= line_texts(before).push(names[i - 1]));
                assert(names.take(i as int) =~= names.take(i - 1).push(names[i - 1]));
            }
            assert(line_texts(lines@) =~= seq!["people = {"@] + names.take(i as int));
        }
        assert(names.take(i as int) =~= names);
        lines.push(String::from_str("}"));
        let ghost head = seq!["people = {"@] + names + seq!["}"@];
        assert(line_texts(lines@) =~= head + rows.take(0));
        let mut r: usize = 0;
        while r < self.balance.len()
            invariant
                r <= self.balance.len(),
                sheet == self@,
                rows == Seq::new(sheet.balance.len(), |r: int| row_line(sheet.balance[r])),
                line_texts(lines@) == head + rows.take(r as int),
            decreases self.balance.len() - r,
        {
            let line = row_text(&self.balance[r]);
            assert(self.balance[r as int]@.map_values(|entry: i128| entry as int)
                =~= sheet.balance[r as int]);
            let ghost before = lines@;
            lines.push(line);
            r += 1;
            proof {
                assert(line_texts(lines@) =~= line_texts(before).push(rows[r - 1]));
                assert(rows.take(r as int) =~= rows.take(r - 1).push(rows[r - 1]));
            }
            assert(line_texts(lines@) =~= head + rows.take(r as int));
        }
        assert(rows.take(r as int) =~= rows);
        lines
    }
}

} // verus!
