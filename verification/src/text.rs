//! Text helpers: comparison, decimal numbers, joining.
use vstd::prelude::*;

verus! {

/// The view of each element of a sequence.
pub open spec fn views<T: View>(items: Seq<T>) -> Seq<T::V> {
    Seq::new(items.len(), |i: int| items[i]@)
}

/// The view of an optional text.
pub open spec fn opt_text(text: Option<String>) -> Option<Seq<char>> {
    match text {
        Some(s) => Some(s@),
        None => None,
    }
}

/// Whether `text` reads as `literal`.
pub fn text_is(text: &String, literal: &str) -> (same: bool)
    ensures
        same == (text@ == literal@),
{
    *text == literal.to_owned()
}

/// Whether two optional texts are the same.
pub fn opt_text_same(left: &Option<String>, right: &Option<String>) -> (same: bool)
    ensures
        same == (opt_text(*left) == opt_text(*right)),
{
    match (left, right) {
        (None, None) => true,
        (Some(l), Some(r)) => *l == *r,
        _ => false,
    }
}

/// A copy of an optional text.
pub fn opt_text_copy(text: &Option<String>) -> (copy: Option<String>)
    ensures
        opt_text(copy) == opt_text(*text),
{
    match text {
        Some(s) => Some(s.clone()),
        None => None,
    }
}

/// A copy of a list of numbers.
pub fn numbers_copy(items: &Vec<u64>) -> (copy: Vec<u64>)
    ensures
        copy@ == items@,
{
    let mut copy: Vec<u64> = Vec::new();
    let mut i: usize = 0;
    while i < items.len()
        invariant
            i <= items.len(),
            copy@ == items@.take(i as int),
        decreases items.len() - i,
    {
        copy.push(items[i]);
        i += 1;
    }
    assert(items@.take(i as int) =~= items@);
    copy
}

/// The position of the first `key` in `keys` at or after `from`; the length where there is none.
pub open spec fn pos_from<T>(keys: Seq<T>, key: T, from: int) -> int
    decreases keys.len() - from,
{
    if from < 0 || from >= keys.len() || keys[from] == key {
        from
    } else {
        pos_from(keys, key, from + 1)
    }
}

/// The position of the first `key` in `keys`; the length where there is none.
pub open spec fn pos<T>(keys: Seq<T>, key: T) -> int {
    pos_from(keys, key, 0)
}

pub proof fn lemma_pos_from<T>(keys: Seq<T>, key: T, from: int)
    requires
        0 <= from <= keys.len(),
    ensures
        from <= pos_from(keys, key, from) <= keys.len(),
        pos_from(keys, key, from) < keys.len() ==> keys[pos_from(keys, key, from)] == key,
        forall|i: int| from <= i < pos_from(keys, key, from) ==> keys[i] != key,
    decreases keys.len() - from,
{
    if from < keys.len() && keys[from] != key {
        lemma_pos_from(keys, key, from + 1);
    }
}

/// The first position is in range, holds the key, and no earlier one does.
pub proof fn lemma_pos<T>(keys: Seq<T>, key: T)
    ensures
        0 <= pos(keys, key) <= keys.len(),
        pos(keys, key) < keys.len() ==> keys[pos(keys, key)] == key,
        forall|i: int| 0 <= i < pos(keys, key) ==> keys[i] != key,
        pos(keys, key) < keys.len() <==> keys.contains(key),
{
    lemma_pos_from(keys, key, 0);
    if keys.contains(key) {
        let i = choose|i: int| 0 <= i < keys.len() && keys[i] == key;
        assert(pos(keys, key) <= i);
    }
}


/// A sequence holds one item more after a push.
pub proof fn lemma_push_contains<T>(items: Seq<T>, last: T)
    ensures
        forall|x: T| #[trigger] items.push(last).contains(x) <==> items.contains(x) || x == last,
{
    let longer = items.push(last);
    assert forall|x: T| #[trigger] longer.contains(x) <==> items.contains(x) || x == last by {
        if items.contains(x) {
            let k = choose|k: int| 0 <= k < items.len() && items[k] == x;
            assert(longer[k] == x);
        }
        if x == last {
            assert(longer[items.len() as int] == x);
        }
        if longer.contains(x) && x != last {
            let k = choose|k: int| 0 <= k < longer.len() && longer[k] == x;
            assert(items[k] == x);
        }
    }
}

/// Filtering one item more.
pub proof fn lemma_filter_step<T>(items: Seq<T>, i: int, keep: spec_fn(T) -> bool)
    requires
        0 <= i < items.len(),
    ensures
        items.take(i + 1).filter(keep) == (if keep(items[i]) {
            items.take(i).filter(keep).push(items[i])
        } else {
            items.take(i).filter(keep)
        }),
{
    reveal(Seq::filter);
    assert(items.take(i + 1).drop_last() =~= items.take(i));
}

/// A filtered sequence holds the items that are to be kept.
pub proof fn lemma_filter_members<T>(items: Seq<T>, keep: spec_fn(T) -> bool)
    ensures
        forall|x: T| #[trigger] items.filter(keep).contains(x) <==> items.contains(x) && keep(x),
    decreases items.len(),
{
    reveal(Seq::filter);
    if items.len() > 0 {
        let shorter = items.drop_last();
        lemma_filter_members(shorter, keep);
        lemma_push_contains(shorter, items.last());
        lemma_push_contains(shorter.filter(keep), items.last());
        assert(items =~= shorter.push(items.last()));
    }
}

/// `String::push` appends one character.
pub assume_specification[ String::push ](s: &mut String, c: char)
    ensures
        final(s)@ == old(s)@.push(c),
;

/// The characters of a text, one by one.
pub fn chars_of(text: &str) -> (chars: Vec<char>)
    ensures
        chars@ == text@,
{
    let mut chars: Vec<char> = Vec::new();
    for c in iter: text.chars()
        invariant
            iter.seq() == text@,
            chars@ == iter.seq().take(iter.index()),
    {
        chars.push(c);
        assert(iter.seq().take(iter.index() + 1) =~= iter.seq().take(iter.index()).push(c));
    }
    assert(text@.take(text@.len() as int) =~= text@);
    chars
}

/// The text made of the characters from `from` up to `to`.
pub fn text_of(chars: &Vec<char>, from: usize, to: usize) -> (text: String)
    requires
        from <= to <= chars@.len(),
    ensures
        text@ == chars@.subrange(from as int, to as int),
{
    let mut text = String::new();
    let mut i: usize = from;
    while i < to
        invariant
            from <= i <= to <= chars@.len(),
            text@ == chars@.subrange(from as int, i as int),
        decreases to - i,
    {
        text.push(chars[i]);
        i += 1;
        assert(text@ =~= chars@.subrange(from as int, i as int));
    }
    text
}

/// The decimal digit of a number below ten.
pub open spec fn digit_char(digit: nat) -> char {
    if digit == 0 {
        '0'
    } else if digit == 1 {
        '1'
    } else if digit == 2 {
        '2'
    } else if digit == 3 {
        '3'
    } else if digit == 4 {
        '4'
    } else if digit == 5 {
        '5'
    } else if digit == 6 {
        '6'
    } else if digit == 7 {
        '7'
    } else if digit == 8 {
        '8'
    } else {
        '9'
    }
}

/// The number that a decimal digit stands for.
pub open spec fn digit_value(c: char) -> Option<nat> {
    if '0' <= c && c <= '9' {
        Some((c as int - '0' as int) as nat)
    } else {
        None
    }
}

/// The decimal notation of a number, without leading zeros.
pub open spec fn decimal(n: nat) -> Seq<char>
    decreases n,
{
    if n < 10 {
        seq![digit_char(n)]
    } else {
        decimal(n / 10).push(digit_char(n % 10))
    }
}

/// The number that a sequence of decimal digits stands for; `None` where one is no digit.
pub open spec fn digits_value(digits: Seq<char>) -> Option<nat>
    decreases digits.len(),
{
    if digits.len() == 0 {
        Some(0)
    } else {
        match (digits_value(digits.drop_last()), digit_value(digits.last())) {
            (Some(high), Some(low)) => Some(10 * high + low),
            _ => None,
        }
    }
}

/// The decimal notation of a number stands for that number.
pub proof fn decimal_stands_for_its_number(n: nat)
    ensures
        digits_value(decimal(n)) == Some(n),
        decimal(n).len() > 0,
    decreases n,
{
    reveal_with_fuel(digits_value, 2);
    if n < 10 {
        assert(decimal(n).drop_last() =~= Seq::<char>::empty());
    } else {
        decimal_stands_for_its_number(n / 10);
        assert(decimal(n).drop_last() =~= decimal(n / 10));
    }
}

/// Two numbers with the same decimal notation are the same number.
pub proof fn decimal_is_injective(a: nat, b: nat)
    requires
        decimal(a) == decimal(b),
    ensures
        a == b,
{
    decimal_stands_for_its_number(a);
    decimal_stands_for_its_number(b);
}

fn digit_text(digit: u64) -> (c: char)
    requires
        digit < 10,
    ensures
        c == digit_char(digit as nat),
{
    if digit == 0 {
        '0'
    } else if digit == 1 {
        '1'
    } else if digit == 2 {
        '2'
    } else if digit == 3 {
        '3'
    } else if digit == 4 {
        '4'
    } else if digit == 5 {
        '5'
    } else if digit == 6 {
        '6'
    } else if digit == 7 {
        '7'
    } else if digit == 8 {
        '8'
    } else {
        '9'
    }
}

/// The decimal notation of a number.
pub fn decimal_text(n: u64) -> (text: String)
    ensures
        text@ == decimal(n as nat),
    decreases n,
{
    let mut text = if n < 10 {
        String::new()
    } else {
        decimal_text(n / 10)
    };
    text.push(digit_text(n % 10));
    assert(text@ =~= decimal(n as nat));
    text
}

/// A decimal notation filled up with zeros on the left.
pub open spec fn padded(n: nat, width: nat) -> Seq<char> {
    let digits = decimal(n);
    if digits.len() >= width {
        digits
    } else {
        Seq::new((width - digits.len()) as nat, |i: int| '0') + digits
    }
}

/// The decimal notation of a number, filled up with zeros to `width` characters.
pub fn padded_text(n: u64, width: usize) -> (text: String)
    ensures
        text@ == padded(n as nat, width as nat),
{
    let digits = decimal_text(n);
    let count: usize = digits.as_str().unicode_len();
    if count >= width {
        return digits;
    }
    let mut text = String::new();
    let mut i: usize = 0;
    while i < width - count
        invariant
            count < width,
            i <= width - count,
            text@ == Seq::new(i as nat, |k: int| '0'),
        decreases width - count - i,
    {
        text.push('0');
        i += 1;
        assert(text@ =~= Seq::new(i as nat, |k: int| '0'));
    }
    text.append(digits.as_str());
    text
}

/// What a text of digits, with a plus sign or without, reads as.
///
/// `None` where there is no digit, a character is no digit, or the number exceeds 64 bits.
pub open spec fn parsed_u64(text: Seq<char>) -> Option<u64> {
    let digits = if text.len() > 1 && text[0] == '+' {
        text.skip(1)
    } else {
        text
    };
    if digits.len() == 0 {
        None
    } else {
        match digits_value(digits) {
            Some(n) => if n <= u64::MAX {
                Some(n as u64)
            } else {
                None
            },
            None => None,
        }
    }
}

proof fn lemma_digits_value_prefix(digits: Seq<char>, n: int)
    requires
        0 <= n <= digits.len(),
        digits_value(digits) is Some,
    ensures
        digits_value(digits.take(n)) is Some,
        digits_value(digits.take(n))->0 <= digits_value(digits)->0,
    decreases digits.len() - n,
{
    if n < digits.len() {
        lemma_digits_value_prefix(digits, n + 1);
        let longer = digits.take(n + 1);
        assert(longer.drop_last() =~= digits.take(n));
    } else {
        assert(digits.take(n) =~= digits);
    }
}

/// Reads a number from decimal digits, with a plus sign or without.
pub fn parse_u64(chars: &Vec<char>) -> (number: Option<u64>)
    ensures
        number == parsed_u64(chars@),
{
    let start: usize = if chars.len() > 1 && chars[0] == '+' { 1 } else { 0 };
    let ghost digits = chars@.skip(start as int);
    assert(start == 0 ==> digits =~= chars@);
    if chars.len() == start {
        return None;
    }
    let mut value: u64 = 0;
    let mut i: usize = start;
    proof {
        assert(digits.take(0) =~= Seq::<char>::empty());
    }
    while i < chars.len()
        invariant
            start <= i <= chars.len(),
            digits == chars@.skip(start as int),
            digits.len() > 0,
            parsed_u64(chars@) == (match digits_value(digits) {
                Some(n) => if n <= u64::MAX {
                    Some(n as u64)
                } else {
                    None
                },
                None => None,
            }),
            digits_value(digits.take(i - start)) == Some(value as nat),
        decreases chars.len() - i,
    {
        let c = chars[i];
        proof {
            assert(digits.take(i + 1 - start).drop_last() =~= digits.take(i - start));
            assert(digits.take(i + 1 - start).last() == c);
            if digits_value(digits) is Some {
                lemma_digits_value_prefix(digits, i + 1 - start);
            }
        }
        if !('0' <= c && c <= '9') {
            return None;
        }
        let low: u64 = (c as u32 - '0' as u32) as u64;
        if value > (u64::MAX - low) / 10 {
            assert(10 * value + low > u64::MAX);
            return None;
        }
        value = 10 * value + low;
        i += 1;
    }
    assert(digits.take(i - start) =~= digits);
    Some(value)
}

/// Whether `pattern` stands in `text` at position `at`.
pub open spec fn stands_at(text: Seq<char>, pattern: Seq<char>, at: int) -> bool {
    0 <= at && at + pattern.len() <= text.len() && text.subrange(at, at + pattern.len()) == pattern
}

/// The first position at or after `from` where `pattern` stands in `text`, if any.
pub open spec fn find_from(text: Seq<char>, pattern: Seq<char>, from: int) -> Option<int>
    decreases text.len() + 1 - from,
{
    if from > text.len() {
        None
    } else if stands_at(text, pattern, from) {
        Some(from)
    } else {
        find_from(text, pattern, from + 1)
    }
}

/// Finds the first position at or after `from` where `pattern` stands in `text`.
pub fn find_text(text: &Vec<char>, pattern: &Vec<char>, from: usize) -> (at: Option<usize>)
    requires
        from <= text@.len(),
    ensures
        at matches Some(i) ==> find_from(text@, pattern@, from as int) == Some(i as int) && from <= i
            && stands_at(text@, pattern@, i as int),
        at is None ==> find_from(text@, pattern@, from as int) is None,
{
    let mut i: usize = from;
    while pattern.len() <= text.len() - i
        invariant
            from <= i <= text@.len(),
            find_from(text@, pattern@, from as int) == find_from(text@, pattern@, i as int),
        decreases text@.len() - i,
    {
        let mut k: usize = 0;
        while k < pattern.len() && text[i + k] == pattern[k]
            invariant
                k <= pattern@.len(),
                i + pattern@.len() <= text.len(),
                forall|j: int| 0 <= j < k ==> #[trigger] pattern@[j] == text@[i + j],
            decreases pattern@.len() - k,
        {
            k += 1;
        }
        if k == pattern.len() {
            assert(text@.subrange(i as int, i + pattern@.len()) =~= pattern@);
            return Some(i);
        }
        proof {
            if stands_at(text@, pattern@, i as int) {
                assert(text@.subrange(i as int, i + pattern@.len())[k as int] == text@[i + k]);
            }
        }
        if i == text.len() {
            proof {
                reveal_with_fuel(find_from, 2);
            }
            return None;
        }
        i += 1;
    }
    proof {
        lemma_no_room(text@, pattern@, i as int);
    }
    None
}

proof fn lemma_no_room(text: Seq<char>, pattern: Seq<char>, from: int)
    requires
        0 <= from <= text.len(),
        from + pattern.len() > text.len(),
    ensures
        find_from(text, pattern, from) is None,
    decreases text.len() - from,
{
    reveal_with_fuel(find_from, 2);
    if from < text.len() {
        lemma_no_room(text, pattern, from + 1);
    }
}

} // verus!
