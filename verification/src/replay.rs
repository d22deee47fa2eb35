//! Recipes as text: `count@seed`, joined by ` -> `.

use crate::text::{append_decimal, decimal, digit_char, digit_value, find_char};
use vstd::prelude::*;
use vstd::string::{StrSliceExecFns, StringExecFns};

verus! {

/// Why a text is no recipe.
#[derive(Debug, Clone, PartialEq, Eq)]
pub struct ParseTimelineError {
    /// What is wrong with it.
    pub message: String,
}

/// A recipe as text.
pub open spec fn timeline_text(recipe: Seq<(u64, u64)>) -> Seq<char>
    decreases recipe.len(),
{
    if recipe.len() == 0 {
        Seq::empty()
    } else if recipe.len() == 1 {
        entry_text(recipe[0])
    } else {
        entry_text(recipe[0]) + separator() + timeline_text(recipe.skip(1))
    }
}

/// An entry of a recipe as text.
pub open spec fn entry_text(entry: (u64, u64)) -> Seq<char> {
    decimal(entry.0 as int).push('@') + decimal(entry.1 as int)
}

impl ParseTimelineError {
    /// Tells the error.
    pub fn describe(&self) -> (text: String)
        ensures
            text@ == "parse timeline error: "@ + self.message@,
    {
        let mut text = "parse timeline error: ".to_owned();
        text.append(self.message.as_str());
        text
    }
}

/// What stands between entries.
pub open spec fn separator() -> Seq<char> {
    seq![' ', '-', '>', ' ']
}

/// Writes a recipe as text.
pub fn format_timeline(recipe: &[(u64, u64)]) -> (text: String)
    ensures
        text@ == timeline_text(recipe@),
{
    let mut text = String::new();
    let mut i: usize = 0;
    proof {
        reveal_strlit(" -> ");
        reveal_strlit("@");
        assert(" -> "@ =~= separator());
        assert("@"@ =~= seq!['@']);
        assert(recipe@.skip(0) =~= recipe@);
        assert(text@ + timeline_text(recipe@.skip(0)) =~= timeline_text(recipe@));
    }
    while i < recipe.len()
        invariant
            i <= recipe@.len(),
            " -> "@ == separator(),
            "@"@ == seq!['@'],
            i < recipe@.len() ==> text@ + timeline_text(recipe@.skip(i as int)) == timeline_text(
                recipe@,
            ),
            i == recipe@.len() ==> text@ == timeline_text(recipe@),
        decreases recipe@.len() - i,
    {
        let ghost before = text@;
        let ghost rest = recipe@.skip(i as int);
        append_decimal(&mut text, recipe[i].0);
        text.append("@");
        append_decimal(&mut text, recipe[i].1);
        proof {
            assert(rest[0] == recipe@[i as int]);
            assert(text@ =~= before + entry_text(rest[0]));
            assert(rest.skip(1) =~= recipe@.skip(i + 1));
        }
        i += 1;
        if i < recipe.len() {
            text.append(" -> ");
            assert(text@ + timeline_text(recipe@.skip(i as int)) =~= before + timeline_text(rest));
        } else {
            assert(rest.len() == 1);
        }
    }
    text
}

/// Whether a character is white space.
pub open spec fn is_white(c: char) -> bool {
    let n = c as int;
    ||| 9 <= n <= 13
    ||| n == 0x20
    ||| n == 0x85
    ||| n == 0xa0
    ||| n == 0x1680
    ||| 0x2000 <= n <= 0x200a
    ||| n == 0x2028
    ||| n == 0x2029
    ||| n == 0x202f
    ||| n == 0x205f
    ||| n == 0x3000
}

fn is_white_char(c: char) -> (b: bool)
    ensures
        b == is_white(c),
{
    let n: u32 = c as u32;
    (9 <= n && n <= 13) || n == 0x20 || n == 0x85 || n == 0xa0 || n == 0x1680 || (0x2000 <= n && n
        <= 0x200a) || n == 0x2028 || n == 0x2029 || n == 0x202f || n == 0x205f || n == 0x3000
}

/// A text without white space at its start.
pub open spec fn trimmed_start(s: Seq<char>) -> Seq<char>
    decreases s.len(),
{
    if s.len() > 0 && is_white(s[0]) {
        trimmed_start(s.skip(1))
    } else {
        s
    }
}

/// A text without white space at its end.
pub open spec fn trimmed_end(s: Seq<char>) -> Seq<char>
    decreases s.len(),
{
    if s.len() > 0 && is_white(s.last()) {
        trimmed_end(s.drop_last())
    } else {
        s
    }
}

/// A text without white space at its ends.
pub open spec fn trimmed(s: Seq<char>) -> Seq<char> {
    trimmed_end(trimmed_start(s))
}

/// Cuts white space off the ends of a text.
fn trim(s: &str) -> (t: &str)
    ensures
        t@ == trimmed(s@),
{
    let n: usize = s.unicode_len();
    let mut from: usize = 0;
    assert(s@.skip(0) =~= s@);
    while from < n && is_white_char(s.get_char(from))
        invariant
            from <= n,
            n == s@.len(),
            trimmed_start(s@) == trimmed_start(s@.skip(from as int)),
        decreases n - from,
    {
        assert(s@.skip(from as int).skip(1) =~= s@.skip(from + 1));
        from += 1;
    }
    assert(trimmed_start(s@) == s@.skip(from as int));
    let mut to: usize = n;
    assert(s@.subrange(from as int, to as int) =~= s@.skip(from as int));
    while to > from && is_white_char(s.get_char(to - 1))
        invariant
            from <= to <= n,
            n == s@.len(),
            trimmed(s@) == trimmed_end(s@.subrange(from as int, to as int)),
        decreases to - from,
    {
        assert(s@.subrange(from as int, to as int).drop_last() =~= s@.subrange(
            from as int,
            to - 1,
        ));
        to -= 1;
    }
    s.substring_char(from, to)
}

/// What a text says as a number.
pub ghost enum Number {
    Value(int),
    Empty,
    InvalidDigit,
    TooLarge,
}

/// What digits say as a number, read from the left.
pub open spec fn digits_number(s: Seq<char>) -> Number
    decreases s.len(),
{
    if s.len() == 0 {
        Number::Value(0)
    } else {
        match digits_number(s.drop_last()) {
            Number::Value(v) => match digit_value(s.last()) {
                Some(d) => if v * 10 + d > u64::MAX {
                    Number::TooLarge
                } else {
                    Number::Value(v * 10 + d)
                },
                None => Number::InvalidDigit,
            },
            other => other,
        }
    }
}

/// What a text says as a number: digits, which a plus may precede.
pub open spec fn number_in(s: Seq<char>) -> Number {
    if s.len() == 0 {
        Number::Empty
    } else if s.len() > 1 && s[0] == '+' {
        digits_number(s.skip(1))
    } else {
        digits_number(s)
    }
}

/// How a text that is no number is told.
pub open spec fn number_fault(n: Number) -> Seq<char> {
    match n {
        Number::Empty => "cannot parse integer from empty string"@,
        Number::TooLarge => "number too large to fit in target type"@,
        _ => "invalid digit found in string"@,
    }
}

/// Reads a number, or tells what is wrong with it.
fn parse_number(s: &str) -> (r: Result<u64, &'static str>)
    ensures
        match r {
            Ok(v) => number_in(s@) == Number::Value(v as int),
            Err(fault) => number_in(s@) !is Value && fault@ == number_fault(number_in(s@)),
        },
{
    let n: usize = s.unicode_len();
    if n == 0 {
        return Err("cannot parse integer from empty string");
    }
    let start: usize = if n > 1 && s.get_char(0) == '+' {
        1
    } else {
        0
    };
    let ghost digits = s@.skip(start as int);
    assert(s@.skip(0) =~= s@);
    assert(number_in(s@) == digits_number(digits));
    let mut v: u64 = 0;
    let mut i: usize = start;
    while i < n
        invariant
            start <= i <= n,
            n == s@.len(),
            digits == s@.skip(start as int),
            number_in(s@) == digits_number(digits),
            digits_number(digits.take(i - start)) == Number::Value(v as int),
        decreases n - i,
    {
        let c: char = s.get_char(i);
        let ghost before = digits.take(i - start);
        let ghost after = digits.take(i + 1 - start);
        proof {
            assert(after.drop_last() =~= before);
            assert(after.last() == c);
            if digits_number(after) !is Value {
                lemma_fault_stays(digits, i + 1 - start);
            }
        }
        if c < '0' || c > '9' {
            return Err("invalid digit found in string");
        }
        let d: u64 = (c as u32 - '0' as u32) as u64;
        if v > (u64::MAX - d) / 10 {
            return Err("number too large to fit in target type");
        }
        v = v * 10 + d;
        i += 1;
    }
    assert(digits.take(i - start) =~= digits);
    Ok(v)
}

/// What is wrong with the first digits is wrong with all.
proof fn lemma_fault_stays(s: Seq<char>, n: int)
    requires
        0 <= n <= s.len(),
        digits_number(s.take(n)) !is Value,
    ensures
        digits_number(s) == digits_number(s.take(n)),
    decreases s.len(),
{
    if n == s.len() {
        assert(s.take(n) =~= s);
    } else {
        assert(s.drop_last().take(n) =~= s.take(n));
        lemma_fault_stays(s.drop_last(), n);
    }
}

/// What a text says as an entry of a recipe, or what is wrong with it.
pub open spec fn entry_in(segment: Seq<char>) -> Result<(u64, u64), Seq<char>> {
    match crate::text::find_from(segment, '@', 0) {
        None => Err("missing '@' in segment: "@ + segment),
        Some(at) => {
            let count = segment.take(at);
            let seed = segment.skip(at + 1);
            match (number_in(count), number_in(seed)) {
                (Number::Value(c), Number::Value(s)) => Ok((c as u64, s as u64)),
                (Number::Value(c), fault) => Err(
                    "invalid seed '"@ + seed + "': "@ + number_fault(fault),
                ),
                (fault, _) => Err("invalid count '"@ + count + "': "@ + number_fault(fault)),
            }
        },
    }
}

/// Reads an entry of a recipe.
fn parse_entry(segment: &str) -> (r: Result<(u64, u64), ParseTimelineError>)
    ensures
        match r {
            Ok(entry) => entry_in(segment@) == Ok::<(u64, u64), Seq<char>>(entry),
            Err(e) => entry_in(segment@) == Err::<(u64, u64), Seq<char>>(e.message@),
        },
{
    match find_char(segment, '@') {
        None => {
            let mut message = "missing '@' in segment: ".to_owned();
            message.append(segment);
            Err(ParseTimelineError { message })
        },
        Some(at) => {
            let n: usize = segment.unicode_len();
            let count_str: &str = segment.substring_char(0, at);
            let seed_str: &str = segment.substring_char(at + 1, n);
            assert(count_str@ =~= segment@.take(at as int));
            assert(seed_str@ =~= segment@.skip(at + 1));
            match parse_number(count_str) {
                Err(fault) => {
                    let mut message = "invalid count '".to_owned();
                    message.append(count_str);
                    message.append("': ");
                    message.append(fault);
                    Err(ParseTimelineError { message })
                },
                Ok(count) => match parse_number(seed_str) {
                    Err(fault) => {
                        let mut message = "invalid seed '".to_owned();
                        message.append(seed_str);
                        message.append("': ");
                        message.append(fault);
                        Err(ParseTimelineError { message })
                    },
                    Ok(seed) => Ok((count, seed)),
                },
            }
        },
    }
}

/// Whether what stands between entries stands at a position.
pub open spec fn separator_at(s: Seq<char>, i: int) -> bool {
    &&& 0 <= i
    &&& i + 4 <= s.len()
    &&& s[i] == ' '
    &&& s[i + 1] == '-'
    &&& s[i + 2] == '>'
    &&& s[i + 3] == ' '
}

/// Where what stands between entries first stands, looked for from `from` on.
pub open spec fn next_separator(s: Seq<char>, from: int) -> Option<int>
    decreases s.len() - from,
{
    if from < 0 || from >= s.len() {
        None
    } else if separator_at(s, from) {
        Some(from)
    } else {
        next_separator(s, from + 1)
    }
}

/// What a text says as entries of a recipe, or what is wrong with the first that is
/// none.
pub open spec fn entries_in(s: Seq<char>) -> Result<Seq<(u64, u64)>, Seq<char>>
    decreases s.len(),
{
    match next_separator(s, 0) {
        Some(i) if 0 <= i && i + 4 <= s.len() => match entry_in(trimmed(s.take(i))) {
            Ok(entry) => match entries_in(s.skip(i + 4)) {
                Ok(rest) => Ok(seq![entry] + rest),
                Err(fault) => Err(fault),
            },
            Err(fault) => Err(fault),
        },
        _ => match entry_in(trimmed(s)) {
            Ok(entry) => Ok(seq![entry]),
            Err(fault) => Err(fault),
        },
    }
}

/// What a text says as a recipe, or what is wrong with it.
pub open spec fn timeline_in(s: Seq<char>) -> Result<Seq<(u64, u64)>, Seq<char>> {
    if trimmed(s).len() == 0 {
        Ok(Seq::empty())
    } else {
        entries_in(trimmed(s))
    }
}

/// Entries before others.
pub open spec fn preceded(
    first: Seq<(u64, u64)>,
    rest: Result<Seq<(u64, u64)>, Seq<char>>,
) -> Result<Seq<(u64, u64)>, Seq<char>> {
    match rest {
        Ok(entries) => Ok(first + entries),
        Err(fault) => Err(fault),
    }
}

fn find_separator(s: &str, start: usize) -> (r: Option<usize>)
    requires
        start <= s@.len(),
    ensures
        match r {
            Some(i) => next_separator(s@.skip(start as int), 0) == Some(i - start) && start <= i
                && i + 4 <= s@.len(),
            None => next_separator(s@.skip(start as int), 0) is None,
        },
{
    let n: usize = s.unicode_len();
    let ghost rest = s@.skip(start as int);
    let mut i: usize = start;
    while i < n
        invariant
            start <= i <= n,
            n == s@.len(),
            rest == s@.skip(start as int),
            next_separator(rest, 0) == next_separator(rest, i - start),
        decreases n - i,
    {
        if n - i >= 4 && s.get_char(i) == ' ' && s.get_char(i + 1) == '-' && s.get_char(i + 2)
            == '>' && s.get_char(i + 3) == ' ' {
            return Some(i);
        }
        i += 1;
    }
    None
}

/// Reads a recipe.
pub fn parse_timeline(s: &str) -> (r: Result<Vec<(u64, u64)>, ParseTimelineError>)
    ensures
        match r {
            Ok(recipe) => timeline_in(s@) == Ok::<Seq<(u64, u64)>, Seq<char>>(recipe@),
            Err(e) => timeline_in(s@) == Err::<Seq<(u64, u64)>, Seq<char>>(e.message@),
        },
{
    let text: &str = trim(s);
    let mut recipe: Vec<(u64, u64)> = Vec::new();
    let n: usize = text.unicode_len();
    if n == 0 {
        return Ok(recipe);
    }
    let ghost all = entries_in(text@);
    let mut start: usize = 0;
    proof {
        assert(text@.skip(0) =~= text@);
        match all {
            Ok(entries) => {
                assert(recipe@ + entries =~= entries);
            },
            Err(fault) => {},
        }
    }
    loop
        invariant
            start <= n,
            n == text@.len(),
            n > 0,
            text@ == trimmed(s@),
            all == entries_in(text@),
            all == preceded(recipe@, entries_in(text@.skip(start as int))),
        decreases n - start,
    {
        let ghost rest = text@.skip(start as int);
        match find_separator(text, start) {
            Some(i) => {
                let segment: &str = trim(text.substring_char(start, i));
                assert(text@.subrange(start as int, i as int) =~= rest.take(i - start));
                match parse_entry(segment) {
                    Ok(entry) => {
                        let ghost before = recipe@;
                        recipe.push(entry);
                        start = i + 4;
                        proof {
                            let tail = text@.skip(start as int);
                            assert(tail =~= rest.skip(i + 4 - (n - rest.len())));
                            match entries_in(tail) {
                                Ok(entries) => {
                                    assert(before + (seq![entry] + entries) =~= recipe@ + entries);
                                },
                                Err(fault) => {},
                            }
                        }
                    },
                    Err(e) => return Err(e),
                }
            },
            None => {
                let segment: &str = trim(text.substring_char(start, n));
                assert(text@.subrange(start as int, n as int) =~= rest);
                match parse_entry(segment) {
                    Ok(entry) => {
                        let ghost before = recipe@;
                        recipe.push(entry);
                        assert(before + seq![entry] =~= recipe@);
                        return Ok(recipe);
                    },
                    Err(e) => return Err(e),
                }
            },
        }
    }
}

proof fn lemma_decimal(n: int)
    requires
        0 <= n,
    ensures
        decimal(n).len() > 0,
        forall|i: int| 0 <= i < decimal(n).len() ==> digit_value(#[trigger] decimal(n)[i]) is Some,
        n <= u64::MAX ==> digits_number(decimal(n)) == Number::Value(n),
    decreases n,
{
    if n < 10 {
        let s = decimal(n);
        assert(s.drop_last() =~= Seq::<char>::empty());
        assert(digits_number(s.drop_last()) == Number::Value(0));
    } else {
        lemma_decimal(n / 10);
        let s = decimal(n);
        assert(s.drop_last() =~= decimal(n / 10));
        assert(digit_value(digit_char(n % 10)) == Some(n % 10));
    }
}

proof fn lemma_decimal_is_number(n: int)
    requires
        0 <= n <= u64::MAX,
    ensures
        number_in(decimal(n)) == Number::Value(n),
{
    lemma_decimal(n);
    assert(digit_value(decimal(n)[0]) is Some);
}

proof fn lemma_find_after(s: Seq<char>, c: char, from: int, at: int)
    requires
        0 <= from <= at < s.len(),
        s[at] == c,
        forall|i: int| from <= i < at ==> #[trigger] s[i] != c,
    ensures
        crate::text::find_from(s, c, from) == Some(at),
    decreases at - from,
{
    if from < at {
        lemma_find_after(s, c, from + 1, at);
    }
}

proof fn lemma_entry(entry: (u64, u64))
    ensures
        entry_in(entry_text(entry)) == Ok::<(u64, u64), Seq<char>>(entry),
        entry_text(entry).len() > 0,
        forall|i: int| 0 <= i < entry_text(entry).len() ==> #[trigger] entry_text(entry)[i] != ' ',
        !is_white(entry_text(entry)[0]),
        !is_white(entry_text(entry).last()),
{
    let a = decimal(entry.0 as int);
    let b = decimal(entry.1 as int);
    let s = entry_text(entry);
    lemma_decimal(entry.0 as int);
    lemma_decimal(entry.1 as int);
    lemma_decimal_is_number(entry.0 as int);
    lemma_decimal_is_number(entry.1 as int);
    let at = a.len() as int;
    assert forall|i: int| 0 <= i < at implies #[trigger] s[i] != '@' by {
        assert(digit_value(a[i]) is Some);
    }
    assert(s[at] == '@');
    lemma_find_after(s, '@', 0, at);
    assert(s.take(at) =~= a);
    assert(s.skip(at + 1) =~= b);
    assert forall|i: int| 0 <= i < s.len() implies #[trigger] s[i] != ' ' by {
        if i < at {
            assert(digit_value(a[i]) is Some);
        } else if i > at {
            assert(s[i] == b[i - at - 1]);
            assert(digit_value(b[i - at - 1]) is Some);
        }
    }
    assert(digit_value(a[0]) is Some);
    assert(digit_value(b[b.len() - 1]) is Some);
    assert(s.last() == b[b.len() - 1]);
}

proof fn lemma_no_separator(s: Seq<char>, from: int)
    requires
        0 <= from,
        forall|i: int| from <= i < s.len() ==> #[trigger] s[i] != ' ',
    ensures
        next_separator(s, from) is None,
    decreases s.len() - from,
{
    if from < s.len() {
        lemma_no_separator(s, from + 1);
    }
}

proof fn lemma_first_separator(s: Seq<char>, from: int, at: int)
    requires
        0 <= from <= at,
        separator_at(s, at),
        forall|i: int| from <= i < at ==> #[trigger] s[i] != ' ',
    ensures
        next_separator(s, from) == Some(at),
    decreases at - from,
{
    if from < at {
        assert(s[from] != ' ');
        lemma_first_separator(s, from + 1, at);
    }
}

proof fn lemma_entries(recipe: Seq<(u64, u64)>)
    requires
        recipe.len() > 0,
    ensures
        entries_in(timeline_text(recipe)) == Ok::<Seq<(u64, u64)>, Seq<char>>(recipe),
        timeline_text(recipe).len() > 0,
        !is_white(timeline_text(recipe)[0]),
        !is_white(timeline_text(recipe).last()),
    decreases recipe.len(),
{
    let first = entry_text(recipe[0]);
    let s = timeline_text(recipe);
    lemma_entry(recipe[0]);
    assert(trimmed(first) == first);
    if recipe.len() == 1 {
        lemma_no_separator(s, 0);
        assert(seq![recipe[0]] =~= recipe);
    } else {
        let rest = timeline_text(recipe.skip(1));
        lemma_entries(recipe.skip(1));
        let at = first.len() as int;
        assert(separator_at(s, at));
        assert forall|i: int| 0 <= i < at implies #[trigger] s[i] != ' ' by {
            assert(s[i] == first[i]);
        }
        lemma_first_separator(s, 0, at);
        assert(s.take(at) =~= first);
        assert(s.skip(at + 4) =~= rest);
        assert(seq![recipe[0]] + recipe.skip(1) =~= recipe);
        assert(s[0] == first[0]);
        assert(s.last() == rest.last());
    }
}

/// Reading a recipe that was written gives it back.
pub proof fn lemma_timeline_round_trip(recipe: Seq<(u64, u64)>)
    ensures
        timeline_in(timeline_text(recipe)) == Ok::<Seq<(u64, u64)>, Seq<char>>(recipe),
{
    let s = timeline_text(recipe);
    if recipe.len() > 0 {
        lemma_entries(recipe);
        assert(trimmed(s) == s);
    } else {
        assert(recipe =~= Seq::<(u64, u64)>::empty());
    }
}

/// White space around a recipe does not matter.
pub proof fn lemma_white_space_around_is_ignored(s: Seq<char>, c: char)
    requires
        c == ' ' || c == '\n' || c == '\t' || c == '\r',
    ensures
        timeline_in(seq![c] + s) == timeline_in(s),
        timeline_in(s.push(c)) == timeline_in(s),
{
    assert((seq![c] + s).skip(1) =~= s);
    lemma_white_end_is_ignored(s, c);
}

proof fn lemma_white_end_is_ignored(s: Seq<char>, c: char)
    requires
        is_white(c),
    ensures
        trimmed(s.push(c)) == trimmed(s),
    decreases s.len(),
{
    if s.len() == 0 {
        assert(s.push(c).skip(1) =~= s);
    } else if is_white(s[0]) {
        assert(s.push(c).skip(1) =~= s.skip(1).push(c));
        lemma_white_end_is_ignored(s.skip(1), c);
    } else {
        assert(s.push(c).drop_last() =~= s);
    }
}

/// Each digit behind a number makes it ten times as large and adds its value. What is larger
/// than the largest count is no number, nor is what has any other character in it.
pub proof fn lemma_digits_are_read_in_turn(s: Seq<char>, v: nat, d: u8, c: char)
    requires
        digits_number(s) == Number::Value(v as int),
        d <= 9,
        !('0' <= c <= '9'),
    ensures
        ({
            let next = s.push((48 + d) as char);
            &&& 10 * v + d <= u64::MAX ==> digits_number(next) == Number::Value(10 * v + d)
            &&& 10 * v + d > u64::MAX ==> digits_number(next) == Number::TooLarge
        }),
        digits_number(s.push(c)) == Number::InvalidDigit,
        number_in(Seq::empty()) == Number::Empty,
        s.len() > 0 && s[0] != '+' ==> number_in(s) == Number::Value(v as int),
        s.len() > 0 ==> number_in(seq!['+'] + s) == Number::Value(v as int),
{
    assert(s.push((48 + d) as char).drop_last() =~= s);
    assert(s.push(c).drop_last() =~= s);
    assert((seq!['+'] + s).skip(1) =~= s);
}

/// An entry is a count and a seed with one sign between them: without that sign, or with
/// something else for a number, it is refused.
pub proof fn lemma_entries_are_two_numbers(count: Seq<char>, seed: Seq<char>)
    requires
        !count.contains('@'),
    ensures
        entry_in(count) is Err,
        ({
            let entry = entry_in(count.push('@') + seed);
            &&& entry is Ok <==> number_in(count) is Value && number_in(seed) is Value
            &&& entry matches Ok(e) ==> number_in(count) == Number::Value(e.0 as int) && number_in(
                seed,
            ) == Number::Value(e.1 as int)
        }),
{
    let s = count.push('@') + seed;
    lemma_sign_found(count, seed, 0);
    assert(s.take(count.len() as int) =~= count);
    assert(s.skip(count.len() as int + 1) =~= seed);
    lemma_in_range(count);
    lemma_in_range(seed);
    if count.len() > 0 {
        lemma_in_range(count.skip(1));
    }
    if seed.len() > 0 {
        lemma_in_range(seed.skip(1));
    }
}

proof fn lemma_sign_found(count: Seq<char>, seed: Seq<char>, from: int)
    requires
        !count.contains('@'),
        0 <= from <= count.len(),
    ensures
        crate::text::find_from(count, '@', from) is None,
        crate::text::find_from(count.push('@') + seed, '@', from) == Some(count.len() as int),
    decreases count.len() - from,
{
    let s = count.push('@') + seed;
    if from < count.len() {
        assert(s[from] == count[from]);
        assert(count[from] != '@');
        lemma_sign_found(count, seed, from + 1);
    } else {
        assert(s[from] == '@');
    }
}

proof fn lemma_in_range(s: Seq<char>)
    ensures
        digits_number(s) matches Number::Value(v) ==> 0 <= v <= u64::MAX,
    decreases s.len(),
{
    if s.len() > 0 {
        lemma_in_range(s.drop_last());
    }
}

} // verus!
