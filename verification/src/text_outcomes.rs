//! What texts stand for: words, spans of time and days.
use crate::backup_path::{backup_goes_to, backup_path, day_number, days_in_month, is_date, year_lengths};
use crate::cli::{number_or_zero, params_of, pieces, says_now, seconds_from, seconds_of, time_unit, url_parsed};
use crate::paths::joined_path;
use crate::text::{decimal, decimal_stands_for_its_number, digit_char, find_from, padded, parsed_u64, stands_at};
use crate::types::ParamView;
use vstd::prelude::*;

verus! {

/// Words with a space between each two of them.
pub open spec fn spaced(words: Seq<Seq<char>>) -> Seq<char>
    decreases words.len(),
{
    if words.len() == 0 {
        Seq::empty()
    } else if words.len() == 1 {
        words[0]
    } else {
        spaced(words.drop_last()).push(' ') + words.last()
    }
}

/// The pieces of a text hold no space, and the text is made of them with a space between each two.
pub proof fn pieces_make_up_the_text(text: Seq<char>)
    ensures
        pieces(text).len() > 0,
        spaced(pieces(text)) == text,
        forall|i: int, k: int|
            0 <= i < pieces(text).len() && 0 <= k < pieces(text)[i].len() ==> #[trigger] pieces(text)[i][k] != ' ',
    decreases text.len(),
{
    let parts = pieces(text);
    if text.len() > 0 {
        let shorter = text.drop_last();
        let before = pieces(shorter);
        pieces_make_up_the_text(shorter);
        assert(text =~= shorter.push(text.last()));
        assert forall|i: int, k: int| 0 <= i < parts.len() && 0 <= k < parts[i].len() implies #[trigger] parts[i][k]
            != ' ' by {
            if i < before.len() && k < before[i].len() {
                assert(before[i][k] != ' ');
            }
        }
        if text.last() == ' ' {
            assert(parts.drop_last() =~= before);
            assert(spaced(parts) =~= text);
        } else {
            assert(parts.drop_last() =~= before.drop_last());
            assert(spaced(parts) =~= text);
        }
    } else {
        assert(spaced(parts) =~= text);
    }
}

/// A word that reads as a web address stands for the address as it is written in full; each other word
/// stands for itself.
pub proof fn words_that_are_web_addresses_stand_for_them(query: Seq<char>, i: int)
    requires
        0 <= i < pieces(query).len(),
    ensures
        params_of(query).len() == pieces(query).len(),
        forall|url: Seq<char>|
            params_of(query)[i] == ParamView::Url(url) <==> url_parsed(pieces(query)[i]) == Some(("http"@, url))
                || url_parsed(pieces(query)[i]) == Some(("https"@, url)),
        params_of(query)[i] is Normal ==> params_of(query)[i] == ParamView::Normal(pieces(query)[i]),
{
}

/// The letters of a unit of time, from the longest unit to the shortest.
pub open spec fn letters_of_unit(unit: int) -> Seq<char> {
    if unit == 0 {
        seq!['y']
    } else if unit == 1 {
        seq!['m', 'o']
    } else if unit == 2 {
        seq!['w']
    } else if unit == 3 {
        seq!['d']
    } else if unit == 4 {
        seq!['h']
    } else if unit == 5 {
        seq!['m']
    } else {
        seq!['s']
    }
}

/// The seconds in a unit of time; a year has 365 days and a quarter, and a month is the twelfth of a year.
pub open spec fn seconds_in_unit(unit: int) -> nat {
    if unit == 0 {
        365 * 24 * 60 * 60 + 6 * 60 * 60
    } else if unit == 1 {
        (365 * 24 * 60 * 60 + 6 * 60 * 60) / 12
    } else if unit == 2 {
        7 * 24 * 60 * 60
    } else if unit == 3 {
        24 * 60 * 60
    } else if unit == 4 {
        60 * 60
    } else if unit == 5 {
        60
    } else {
        1
    }
}

/// Amounts of units, each with its unit behind it.
pub open spec fn written(amounts: Seq<(int, u64)>) -> Seq<char>
    decreases amounts.len(),
{
    if amounts.len() == 0 {
        Seq::empty()
    } else {
        decimal(amounts[0].1 as nat) + letters_of_unit(amounts[0].0) + written(amounts.skip(1))
    }
}

/// The seconds in amounts of units.
pub open spec fn seconds_in(amounts: Seq<(int, u64)>) -> nat
    decreases amounts.len(),
{
    if amounts.len() == 0 {
        0
    } else {
        seconds_in_unit(amounts[0].0) * amounts[0].1 as nat + seconds_in(amounts.skip(1))
    }
}

/// Whether amounts are of units from this one on, the longer unit first and each unit once.
pub open spec fn longer_first(amounts: Seq<(int, u64)>, from: int) -> bool {
    &&& forall|i: int| 0 <= i < amounts.len() ==> from <= (#[trigger] amounts[i]).0 <= 6
    &&& forall|i: int, k: int| 0 <= i < k < amounts.len() ==> (#[trigger] amounts[i]).0 < (#[trigger] amounts[k]).0
}

/// The letter by which a unit is told from the shorter ones.
spec fn mark(unit: int) -> char {
    if unit == 0 {
        'y'
    } else if unit == 1 {
        'o'
    } else if unit == 2 {
        'w'
    } else if unit == 3 {
        'd'
    } else if unit == 4 {
        'h'
    } else if unit == 5 {
        'm'
    } else {
        's'
    }
}

proof fn lemma_digits(n: nat)
    ensures
        decimal(n).len() > 0,
        forall|i: int| 0 <= i < decimal(n).len() ==> '0' <= #[trigger] decimal(n)[i] <= '9',
    decreases n,
{
    if n >= 10 {
        lemma_digits(n / 10);
    }
}

proof fn lemma_number(n: u64)
    ensures
        number_or_zero(decimal(n as nat)) == n,
{
    lemma_digits(n as nat);
    decimal_stands_for_its_number(n as nat);
    assert(decimal(n as nat)[0] != '+');
    assert(parsed_u64(decimal(n as nat)) == Some(n));
}

proof fn lemma_found(text: Seq<char>, pattern: Seq<char>, from: int, at: int)
    requires
        0 <= from <= at,
        stands_at(text, pattern, at),
        forall|i: int| from <= i < at ==> !#[trigger] stands_at(text, pattern, i),
    ensures
        find_from(text, pattern, from) == Some(at),
    decreases at - from,
{
    if from < at {
        assert(!stands_at(text, pattern, from));
        lemma_found(text, pattern, from + 1, at);
    }
}

proof fn lemma_not_found(text: Seq<char>, pattern: Seq<char>, from: int)
    requires
        0 <= from,
        forall|i: int| from <= i ==> !#[trigger] stands_at(text, pattern, i),
    ensures
        find_from(text, pattern, from) is None,
    decreases text.len() + 1 - from,
{
    if from <= text.len() {
        assert(!stands_at(text, pattern, from));
        lemma_not_found(text, pattern, from + 1);
    }
}

proof fn lemma_no_mark(amounts: Seq<(int, u64)>, unit: int)
    requires
        longer_first(amounts, unit + 1),
        0 <= unit <= 6,
    ensures
        forall|i: int| 0 <= i < written(amounts).len() ==> #[trigger] written(amounts)[i] != mark(unit),
    decreases amounts.len(),
{
    if amounts.len() > 0 {
        let rest = amounts.skip(1);
        assert(longer_first(rest, unit + 1)) by {
            assert forall|i: int| 0 <= i < rest.len() implies unit + 1 <= (#[trigger] rest[i]).0 <= 6 by {
                assert(rest[i] == amounts[i + 1]);
            }
            assert forall|i: int, k: int| 0 <= i < k < rest.len() implies (#[trigger] rest[i]).0 < (
            #[trigger] rest[k]).0 by {
                assert(rest[i] == amounts[i + 1] && rest[k] == amounts[k + 1]);
            }
        }
        lemma_no_mark(rest, unit);
        let digits = decimal(amounts[0].1 as nat);
        let letters = letters_of_unit(amounts[0].0);
        let text = written(amounts);
        lemma_digits(amounts[0].1 as nat);
        assert(unit + 1 <= amounts[0].0 <= 6);
        assert forall|i: int| 0 <= i < text.len() implies #[trigger] text[i] != mark(unit) by {
            if i < digits.len() {
                assert(text[i] == digits[i]);
            } else if i < digits.len() + letters.len() {
                assert(text[i] == letters[i - digits.len()]);
            } else {
                assert(text[i] == written(rest)[i - digits.len() - letters.len()]);
            }
        }
    }
}

/// A unit whose mark does not stand behind a place does not stand there.
proof fn lemma_unit_not_there(text: Seq<char>, unit: int, from: int)
    requires
        0 <= unit <= 6,
        0 <= from,
        forall|i: int| from <= i < text.len() ==> #[trigger] text[i] != mark(unit),
    ensures
        find_from(text, letters_of_unit(unit), from) is None,
{
    let letters = letters_of_unit(unit);
    assert(letters.last() == mark(unit));
    assert forall|i: int| from <= i implies !#[trigger] stands_at(text, letters, i) by {
        if stands_at(text, letters, i) {
            let part = text.subrange(i, i + letters.len());
            assert(part.last() == text[i + letters.len() - 1]);
        }
    }
    lemma_not_found(text, letters, from);
}

proof fn lemma_written(amounts: Seq<(int, u64)>, from: int)
    requires
        longer_first(amounts, from),
        0 <= from <= 7,
    ensures
        seconds_from(written(amounts), from) == seconds_in(amounts),
    decreases 7 - from,
{
    let text = written(amounts);
    if from == 7 {
        if amounts.len() > 0 {
            assert(7 <= amounts[0].0 <= 6);
        }
    } else {
        let letters = letters_of_unit(from);
        assert(time_unit(from) == (letters, seconds_in_unit(from)));
        if amounts.len() == 0 || amounts[0].0 != from {
            assert(longer_first(amounts, from + 1)) by {
                assert forall|i: int| 0 <= i < amounts.len() implies from + 1 <= (#[trigger] amounts[i]).0 <= 6 by {
                    if i > 0 {
                        assert(amounts[0].0 < amounts[i].0);
                    }
                }
            }
            lemma_no_mark(amounts, from);
            lemma_unit_not_there(text, from, 0);
            lemma_written(amounts, from + 1);
        } else {
            let rest = amounts.skip(1);
            assert(longer_first(rest, from + 1)) by {
                assert forall|i: int| 0 <= i < rest.len() implies from + 1 <= (#[trigger] rest[i]).0 <= 6 by {
                    assert(rest[i] == amounts[i + 1]);
                    assert(amounts[0].0 < amounts[i + 1].0);
                }
                assert forall|i: int, k: int| 0 <= i < k < rest.len() implies (#[trigger] rest[i]).0 < (
                #[trigger] rest[k]).0 by {
                    assert(rest[i] == amounts[i + 1] && rest[k] == amounts[k + 1]);
                }
            }
            let n = amounts[0].1;
            let digits = decimal(n as nat);
            let at = digits.len() as int;
            let start = at + letters.len();
            lemma_digits(n as nat);
            lemma_number(n);
            lemma_no_mark(rest, from);
            assert(text.subrange(at, start) =~= letters);
            assert forall|i: int| 0 <= i < at implies !#[trigger] stands_at(text, letters, i) by {
                if stands_at(text, letters, i) {
                    assert(text.subrange(i, i + letters.len())[0] == text[i]);
                    assert(text[i] == digits[i]);
                }
            }
            lemma_found(text, letters, 0, at);
            assert forall|i: int| start <= i < text.len() implies #[trigger] text[i] != mark(from) by {
                assert(text[i] == written(rest)[i - start]);
            }
            lemma_unit_not_there(text, from, start);
            assert(text.take(at) =~= digits);
            assert(text.subrange(start, text.len() as int) =~= written(rest));
            lemma_written(rest, from + 1);
        }
    }
}

/// Amounts of years, months, weeks, days, hours, minutes and seconds, each written with its letters and
/// the longer unit first, stand for the sum of their seconds.
pub proof fn spans_of_time_add_up(amounts: Seq<(int, u64)>)
    requires
        longer_first(amounts, 0),
    ensures
        seconds_of(written(amounts)) == seconds_in(amounts),
{
    let text = written(amounts);
    lemma_written(amounts, 0);
    if amounts.len() > 0 {
        let digits = decimal(amounts[0].1 as nat);
        lemma_digits(amounts[0].1 as nat);
        assert(text[0] == digits[0]);
    }
    assert(!says_now(text));
}

/// "now" stands for no time at all, in letters of either case.
pub proof fn now_is_no_time(text: Seq<char>)
    requires
        text.len() == 3,
        text[0] == 'n' || text[0] == 'N',
        text[1] == 'o' || text[1] == 'O',
        text[2] == 'w' || text[2] == 'W',
    ensures
        seconds_of(text) == 0,
{
}

/// There are the dates that the calendar has.
pub proof fn months_have_their_days(year: int, month: int, day: int)
    ensures
        is_date(year, month, day) ==> 1 <= month <= 12 && 1 <= day <= 31,
        1 <= month <= 12 && 1 <= day <= 28 ==> is_date(year, month, day),
        1 <= month <= 12 && day == 29 ==> (is_date(year, month, day) <==> month != 2 || (year % 4 == 0 && year % 100
            != 0) || year % 400 == 0),
        1 <= month <= 12 && day == 30 ==> (is_date(year, month, day) <==> month != 2),
        1 <= month <= 12 && day == 31 ==> (is_date(year, month, day) <==> month == 1 || month == 3 || month == 5
            || month == 7 || month == 8 || month == 10 || month == 12),
{
}

/// The first of January 1970 is day zero, and each day has the number behind that of the day before it.
pub proof fn days_are_numbered_one_by_one(year: int, month: int, day: int)
    requires
        is_date(year, month, day),
    ensures
        day_number(1970, 1, 1) == 0,
        is_date(year, month, day + 1) ==> day_number(year, month, day + 1) == day_number(year, month, day) + 1,
        !is_date(year, month, day + 1) && month < 12 ==> day_number(year, month + 1, 1) == day_number(
            year,
            month,
            day,
        ) + 1,
        !is_date(year, month, day + 1) && month == 12 ==> day_number(year + 1, 1, 1) == day_number(year, month, day)
            + 1,
{
    year_lengths(year);
    reveal_with_fuel(crate::backup_path::days_before_month, 2);
    assert(day <= days_in_month(year, month));
}

/// A number below a hundred in two digits.
pub open spec fn two_digits(n: int) -> Seq<char> {
    seq![digit_char((n / 10) as nat), digit_char((n % 10) as nat)]
}

proof fn lemma_two_digits(n: nat)
    requires
        n < 100,
    ensures
        padded(n, 2) == two_digits(n as int),
{
    reveal_with_fuel(decimal, 2);
    assert(padded(n, 2) =~= two_digits(n as int));
}

proof fn lemma_year_starts_with_digit(year: nat)
    ensures
        padded(year, 4).len() > 0,
        padded(year, 4)[0] != '/',
{
    lemma_digits(year);
    if decimal(year).len() >= 4 {
        assert(padded(year, 4)[0] == decimal(year)[0]);
    }
}

/// Whether a path ends, behind the root, in a date: the year, the month and the day, with the name of
/// the copy behind it.
pub open spec fn dated(root: Seq<char>, destination: Seq<char>, year: int, month: int, day: int) -> bool {
    destination == root + seq!['/'] + padded(year as nat, 4) + seq!['/'] + two_digits(month) + seq!['/'] + two_digits(
        day,
    ) + seq!['/', 'm', 'a', 'i', 'n', '.', 'd', 'b']
}

/// A backup goes to the directory for its date below the root.
pub proof fn backups_go_where_their_date_says(
    root: Seq<char>,
    seconds: u64,
    destination: Seq<char>,
    year: int,
    month: int,
    day: int,
)
    requires
        backup_goes_to(root, seconds, destination),
        root.len() > 0,
        root.last() != '/',
        is_date(year, month, day),
        day_number(year, month, day) * 86_400 <= seconds < (day_number(year, month, day) + 1) * 86_400,
    ensures
        dated(root, destination, year, month, day),
{
    let (y, m, d) = choose|y: int, m: int, d: int|
        is_date(y, m, d) && #[trigger] day_number(y, m, d) == seconds / 86_400 && destination == backup_path(
            root,
            y as nat,
            m as nat,
            d as nat,
        );
    assert(day_number(year, month, day) == seconds / 86_400) by (nonlinear_arith)
        requires
            day_number(year, month, day) * 86_400 <= seconds < (day_number(year, month, day) + 1) * 86_400,
    ;
    crate::backup_path::dates_are_unique(year, month, day, y, m, d);
    lemma_two_digits(month as nat);
    lemma_two_digits(day as nat);
    lemma_year_starts_with_digit(year as nat);
    reveal_strlit("main.db");
    let slash = seq!['/'];
    let in_year = root + slash + padded(year as nat, 4);
    let in_month = in_year + slash + two_digits(month);
    let in_day = in_month + slash + two_digits(day);
    assert(joined_path(root, padded(year as nat, 4)) =~= in_year);
    assert(in_year.last() != '/') by {
        lemma_digits(year as nat);
        assert(in_year.last() == padded(year as nat, 4).last());
        assert(padded(year as nat, 4).last() == decimal(year as nat).last());
    }
    assert(joined_path(in_year, two_digits(month)) =~= in_month);
    assert(in_month.last() == two_digits(month).last());
    assert(joined_path(in_month, two_digits(day)) =~= in_day);
    assert(in_day.last() == two_digits(day).last());
    assert(joined_path(in_day, "main.db"@) =~= in_day + seq!['/', 'm', 'a', 'i', 'n', '.', 'd', 'b']);
}

} // verus!
