//! Interpretation of the lines typed at the interactive prompts.
//!
//! A line is taken as the user typed it, line ending included. Every answer
//! is read after white space has been trimmed from both ends.

use vstd::prelude::*;

verus! {

/// The characters with the Unicode property `White_Space`.
pub open spec fn is_space(c: char) -> bool {
    let u = c as u32;
    ||| 0x09 <= u <= 0x0D
    ||| u == 0x20
    ||| u == 0x85
    ||| u == 0xA0
    ||| u == 0x1680
    ||| 0x2000 <= u <= 0x200A
    ||| u == 0x2028
    ||| u == 0x2029
    ||| u == 0x202F
    ||| u == 0x205F
    ||| u == 0x3000
}

/// `s` without its leading white space.
pub open spec fn trim_start(s: Seq<char>) -> Seq<char>
    decreases s.len(),
{
    if s.len() > 0 && is_space(s[0]) {
        trim_start(s.drop_first())
    } else {
        s
    }
}

/// `s` without its trailing white space.
pub open spec fn trim_end(s: Seq<char>) -> Seq<char>
    decreases s.len(),
{
    if s.len() > 0 && is_space(s.last()) {
        trim_end(s.drop_last())
    } else {
        s
    }
}

/// `s` without white space at either end.
pub open spec fn trimmed(s: Seq<char>) -> Seq<char> {
    trim_end(trim_start(s))
}

/// Whether `c` is white space.
pub fn is_space_char(c: char) -> (b: bool)
    ensures
        b == is_space(c),
{
    let u: u32 = c as u32;
    (0x09 <= u && u <= 0x0D) || u == 0x20 || u == 0x85 || u == 0xA0 || u == 0x1680 || (0x2000 <= u
        && u <= 0x200A) || u == 0x2028 || u == 0x2029 || u == 0x202F || u == 0x205F || u == 0x3000
}

/// The character positions between which the trimmed line lies.
pub fn trimmed_bounds(line: &str) -> (r: (usize, usize))
    ensures
        r.0 <= r.1 <= line@.len(),
        line@.subrange(r.0 as int, r.1 as int) == trimmed(line@),
{
    let n = line.unicode_len();
    let mut start: usize = 0;
    proof {
        assert(line@.subrange(0, n as int) =~= line@);
    }
    while start < n && is_space_char(line.get_char(start))
        invariant
            start <= n,
            n == line@.len(),
            trim_start(line@) == trim_start(line@.subrange(start as int, n as int)),
        decreases n - start,
    {
        proof {
            assert(line@.subrange(start as int, n as int).drop_first() =~= line@.subrange(
                start + 1,
                n as int,
            ));
        }
        start += 1;
    }
    let mut end: usize = n;
    while end > start && is_space_char(line.get_char(end - 1))
        invariant
            start <= end <= n,
            n == line@.len(),
            trim_end(line@.subrange(start as int, n as int)) == trim_end(
                line@.subrange(start as int, end as int),
            ),
        decreases end,
    {
        proof {
            assert(line@.subrange(start as int, end as int).drop_last() =~= line@.subrange(
                start as int,
                end - 1,
            ));
        }
        end -= 1;
    }
    (start, end)
}

/// A line says yes when, trimmed, it is the single letter `y`, in either
/// case.
pub open spec fn is_yes(line: Seq<char>) -> bool {
    let t = trimmed(line);
    t.len() == 1 && (t[0] == 'y' || t[0] == 'Y')
}

/// Whether the answer to a yes/no question is yes.
pub fn confirm(line: &str) -> (yes: bool)
    ensures
        yes == is_yes(line@),
{
    let (start, end) = trimmed_bounds(line);
    if end - start != 1 {
        return false;
    }
    let c = line.get_char(start);
    c == 'y' || c == 'Y'
}

/// The drop classes offered by the catalog.
#[derive(Clone, Copy, Debug, PartialEq, Eq, Structural)]
pub enum DropKind {
    SmallDip,
    Correction,
    Recession,
}

impl DropKind {
    /// Severity of the class, in percent of the portfolio value.
    pub open spec fn severity_percent(self) -> u8 {
        match self {
            DropKind::SmallDip => 5,
            DropKind::Correction => 15,
            DropKind::Recession => 40,
        }
    }

    /// Severity of the class, in percent of the portfolio value.
    pub fn percent(self) -> (p: u8)
        ensures
            p == self.severity_percent(),
            0 < p < 100,
    {
        match self {
            DropKind::SmallDip => 5,
            DropKind::Correction => 15,
            DropKind::Recession => 40,
        }
    }
}

/// What a line typed at the catalog menu asks for.
#[derive(Clone, Copy, Debug, PartialEq, Eq, Structural)]
pub enum MenuChoice {
    /// Add drops of the given class.
    Add(DropKind),
    /// Leave the menu.
    Exit,
    /// Anything else; the menu is shown again.
    Invalid,
}

/// The menu entry that a line selects: `1`, `2` and `3` name the three drop
/// classes, `4` leaves the menu.
pub open spec fn menu_choice(line: Seq<char>) -> MenuChoice {
    let t = trimmed(line);
    if t.len() != 1 {
        MenuChoice::Invalid
    } else if t[0] == '1' {
        MenuChoice::Add(DropKind::SmallDip)
    } else if t[0] == '2' {
        MenuChoice::Add(DropKind::Correction)
    } else if t[0] == '3' {
        MenuChoice::Add(DropKind::Recession)
    } else if t[0] == '4' {
        MenuChoice::Exit
    } else {
        MenuChoice::Invalid
    }
}

/// Reads a line typed at the catalog menu.
pub fn parse_menu_choice(line: &str) -> (choice: MenuChoice)
    ensures
        choice == menu_choice(line@),
{
    let (start, end) = trimmed_bounds(line);
    if end - start != 1 {
        return MenuChoice::Invalid;
    }
    let c = line.get_char(start);
    if c == '1' {
        MenuChoice::Add(DropKind::SmallDip)
    } else if c == '2' {
        MenuChoice::Add(DropKind::Correction)
    } else if c == '3' {
        MenuChoice::Add(DropKind::Recession)
    } else if c == '4' {
        MenuChoice::Exit
    } else {
        MenuChoice::Invalid
    }
}

/// Whether `c` is one of the decimal digits `0` to `9`.
pub open spec fn is_digit(c: char) -> bool {
    '0' <= c <= '9'
}

/// Whether `s` consists of decimal digits only.
pub open spec fn all_digits(s: Seq<char>) -> bool {
    forall|i: int| 0 <= i < s.len() ==> is_digit(#[trigger] s[i])
}

/// The number that a string of decimal digits writes.
pub open spec fn digits_value(s: Seq<char>) -> nat
    decreases s.len(),
{
    if s.len() == 0 {
        0
    } else {
        digits_value(s.drop_last()) * 10 + (s.last() as u32 - '0' as u32) as nat
    }
}

/// The digits of a trimmed answer: the answer itself, without a leading `+`
/// if it has one.
pub open spec fn unsigned_digits(t: Seq<char>) -> Seq<char> {
    if t.len() > 0 && t[0] == '+' {
        t.drop_first()
    } else {
        t
    }
}

/// The count that a line writes: after trimming, an optional `+` and then at
/// least one decimal digit, the whole no larger than `u64::MAX`.
pub open spec fn count_of(line: Seq<char>) -> Option<u64> {
    let d = unsigned_digits(trimmed(line));
    if d.len() > 0 && all_digits(d) && digits_value(d) <= u64::MAX {
        Some(digits_value(d) as u64)
    } else {
        None
    }
}

/// Reading more digits never makes the number smaller.
pub proof fn lemma_digits_value_grows(s: Seq<char>, n: int)
    requires
        0 <= n <= s.len(),
    ensures
        digits_value(s.take(n)) <= digits_value(s),
    decreases s.len(),
{
    if n == s.len() {
        assert(s.take(n) =~= s);
    } else {
        lemma_digits_value_grows(s.drop_last(), n);
        assert(s.drop_last().take(n) =~= s.take(n));
    }
}

/// Reads an occurrence count. The result is `None` exactly when the line
/// does not write a count that fits in a `u64`.
pub fn parse_count(line: &str) -> (count: Option<u64>)
    ensures
        count == count_of(line@),
{
    let (start, end) = trimmed_bounds(line);
    let mut first: usize = start;
    if start < end && line.get_char(start) == '+' {
        first = start + 1;
        proof {
            assert(line@.subrange(start as int, end as int).drop_first() =~= line@.subrange(
                first as int,
                end as int,
            ));
        }
    }
    let ghost d = line@.subrange(first as int, end as int);
    assert(d == unsigned_digits(trimmed(line@)));
    if first == end {
        return None;
    }
    let mut value: u64 = 0;
    let mut i: usize = first;
    while i < end
        invariant
            first <= i <= end <= line@.len(),
            d == line@.subrange(first as int, end as int),
            d == unsigned_digits(trimmed(line@)),
            all_digits(d.take(i - first)),
            value == digits_value(d.take(i - first)),
        decreases end - i,
    {
        let c = line.get_char(i);
        proof {
            assert(d[i - first] == c);
            assert(d.take(i - first + 1).drop_last() =~= d.take(i - first));
            lemma_digits_value_grows(d, i - first + 1);
        }
        if !('0' <= c && c <= '9') {
            assert(!is_digit(d[i - first]));
            return None;
        }
        let digit: u64 = (c as u32 - '0' as u32) as u64;
        if value > (u64::MAX - digit) / 10 {
            assert(digits_value(d.take(i - first + 1)) > u64::MAX);
            return None;
        }
        value = value * 10 + digit;
        assert(all_digits(d.take(i - first + 1))) by {
            assert forall|j: int| 0 <= j < i - first + 1 implies is_digit(
                #[trigger] d.take(i - first + 1)[j],
            ) by {
                if j < i - first {
                    assert(d.take(i - first)[j] == d.take(i - first + 1)[j]);
                }
            }
        }
        i += 1;
    }
    proof {
        assert(d.take(i - first) =~= d);
    }
    Some(value)
}

} // verus!
