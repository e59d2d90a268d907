//! Parsing of the player's typed input: a coordinate `x,y`, a board size
//! `h,v`, an action and a difficulty. Surrounding white space is ignored;
//! numbers are signed 32-bit decimals with an optional sign.
use vstd::prelude::*;

use crate::board::Coordinate;
use crate::game::Difficulty;
use crate::player::Action;
use crate::validation::BoardSize;

verus! {

/// Why an input line could not be read.
#[derive(Debug, Clone, Copy, PartialEq, Eq, Structural)]
pub enum ParseErr {
    /// Not two comma-separated parts, or not a known word.
    BadFormat,
    /// A part is not a 32-bit decimal number.
    NotNum,
    /// A number is out of range (negative, or zero for a size).
    NegativeNum,
}

/// Unicode white space (the characters `str::trim` removes).
pub open spec fn is_space(c: char) -> bool {
    let u = c as u32;
    ||| 0x09 <= u <= 0x0D
    ||| u == 0x20
    ||| u == 0x85
    ||| u == 0xA0
    ||| u == 0x1680
    ||| 0x2000 <= u <= 0x200A
    ||| u == 0x2028
    ||| u == 0x2029
    ||| u == 0x202F
    ||| u == 0x205F
    ||| u == 0x3000
}

/// The index of the first character at or after `i` that is not white space.
pub open spec fn skip_space(s: Seq<char>, i: int) -> int
    decreases s.len() - i,
{
    if 0 <= i < s.len() && is_space(s[i]) {
        skip_space(s, i + 1)
    } else {
        i
    }
}

/// The end of `s[lo..j]` once trailing white space is dropped.
pub open spec fn drop_space(s: Seq<char>, lo: int, j: int) -> int
    decreases j - lo,
{
    if lo < j && is_space(s[j - 1]) {
        drop_space(s, lo, j - 1)
    } else {
        j
    }
}

/// `s` without leading and trailing white space.
pub open spec fn trimmed(s: Seq<char>) -> Seq<char> {
    let lo = skip_space(s, 0);
    s.subrange(lo, drop_space(s, lo, s.len() as int))
}

/// The number of commas in `s`.
pub open spec fn comma_count(s: Seq<char>) -> nat
    decreases s.len(),
{
    if s.len() == 0 {
        0
    } else {
        comma_count(s.drop_last()) + if s.last() == ',' {
            1nat
        } else {
            0nat
        }
    }
}

/// The index of the first comma in `s` (its length if there is none).
pub open spec fn comma_index(s: Seq<char>) -> int
    decreases s.len(),
{
    if s.len() == 0 {
        0
    } else if s[0] == ',' {
        0
    } else {
        1 + comma_index(s.drop_first())
    }
}

pub open spec fn is_digit(c: char) -> bool {
    '0' as u32 <= c as u32 <= '9' as u32
}

pub open spec fn all_digits(s: Seq<char>) -> bool {
    forall|i: int| 0 <= i < s.len() ==> is_digit(#[trigger] s[i])
}

/// The value of a string of decimal digits.
pub open spec fn digits_value(s: Seq<char>) -> int
    decreases s.len(),
{
    if s.len() == 0 {
        0
    } else {
        digits_value(s.drop_last()) * 10 + (s.last() as u32 - '0' as u32)
    }
}

/// The value of `s` read as an `i32`: an optional `+` or `-`, then at least
/// one decimal digit, the value in range; `None` for anything else.
pub open spec fn i32_value(s: Seq<char>) -> Option<int> {
    if s.len() > 0 && (s[0] == '+' || s[0] == '-') {
        let ds = s.drop_first();
        let v = if s[0] == '-' {
            -digits_value(ds)
        } else {
            digits_value(ds)
        };
        if ds.len() > 0 && all_digits(ds) && i32::MIN <= v <= i32::MAX {
            Some(v)
        } else {
            None
        }
    } else if s.len() > 0 && all_digits(s) && digits_value(s) <= i32::MAX {
        Some(digits_value(s))
    } else {
        None
    }
}

/// The two numbers of a line `a,b` (white space around the line ignored),
/// or why there are none.
pub open spec fn number_pair(input: Seq<char>) -> Result<(int, int), ParseErr> {
    let t = trimmed(input);
    if comma_count(t) != 1 {
        Err(ParseErr::BadFormat)
    } else {
        let k = comma_index(t);
        match (i32_value(t.subrange(0, k)), i32_value(t.subrange(k + 1, t.len() as int))) {
            (Some(a), Some(b)) => Ok((a, b)),
            _ => Err(ParseErr::NotNum),
        }
    }
}

/// What [`parse_coordinate`] makes of a line.
pub open spec fn coordinate_parse(input: Seq<char>) -> Result<Coordinate, ParseErr> {
    match number_pair(input) {
        Ok((x, y)) => if x >= 0 && y >= 0 {
            Ok(Coordinate { x: x as u32, y: y as u32 })
        } else {
            Err(ParseErr::NegativeNum)
        },
        Err(e) => Err(e),
    }
}

/// What [`parse_board_size`] makes of a line.
pub open spec fn board_size_parse(input: Seq<char>) -> Result<BoardSize, ParseErr> {
    match number_pair(input) {
        Ok((h, v)) => if h > 0 && v > 0 {
            Ok((h as u32, v as u32))
        } else {
            Err(ParseErr::NegativeNum)
        },
        Err(e) => Err(e),
    }
}

/// What [`parse_action`] makes of a line.
pub open spec fn action_parse(input: Seq<char>) -> Result<Action, ParseErr> {
    let t = trimmed(input);
    if t == seq!['R', 'e', 'v', 'e', 'a', 'l'] {
        Ok(Action::Reveal)
    } else if t == seq!['F', 'l', 'a', 'g'] {
        Ok(Action::Flag)
    } else if t == seq!['U', 'n', 'f', 'l', 'a', 'g'] {
        Ok(Action::Unflag)
    } else {
        Err(ParseErr::BadFormat)
    }
}

/// What [`parse_difficulty`] makes of a line.
pub open spec fn difficulty_parse(input: Seq<char>) -> Result<Difficulty, ParseErr> {
    let t = trimmed(input);
    if t == seq!['E', 'a', 's', 'y'] {
        Ok(Difficulty::Easy)
    } else if t == seq!['M', 'e', 'd', 'i', 'u', 'm'] {
        Ok(Difficulty::Medium)
    } else if t == seq!['H', 'a', 'r', 'd'] {
        Ok(Difficulty::Hard)
    } else {
        Err(ParseErr::BadFormat)
    }
}

/// Every prefix of a digit string is worth at most the whole string.
proof fn lemma_digits_prefix(s: Seq<char>, m: int)
    requires
        all_digits(s),
        0 <= m <= s.len(),
    ensures
        0 <= digits_value(s.subrange(0, m)) <= digits_value(s),
    decreases s.len(),
{
    if m == s.len() {
        assert(s.subrange(0, m) =~= s);
        if s.len() > 0 {
            lemma_digits_prefix(s.drop_last(), m - 1);
            assert(s.drop_last().subrange(0, m - 1) =~= s.drop_last());
        }
    } else {
        let t = s.drop_last();
        assert(all_digits(t)) by {
            assert forall|i: int| 0 <= i < t.len() implies is_digit(#[trigger] t[i]) by {
                assert(t[i] == s[i]);
            }
        }
        lemma_digits_prefix(t, m);
        assert(t.subrange(0, m) =~= s.subrange(0, m));
        lemma_digits_prefix(t, t.len() as int);
        assert(t.subrange(0, t.len() as int) =~= t);
        assert(is_digit(s[s.len() - 1]));
    }
}

/// The first comma of `s` is at `comma_index(s)`, if there is one.
proof fn lemma_comma_index(s: Seq<char>)
    ensures
        0 <= comma_index(s) <= s.len(),
        forall|i: int| 0 <= i < comma_index(s) ==> s[i] != ',',
        comma_index(s) < s.len() ==> s[comma_index(s)] == ',',
    decreases s.len(),
{
    if s.len() > 0 && s[0] != ',' {
        lemma_comma_index(s.drop_first());
        assert forall|i: int| 0 <= i < comma_index(s) implies s[i] != ',' by {
            if i > 0 {
                assert(s[i] == s.drop_first()[i - 1]);
            }
        }
    }
}

fn is_space_char(c: char) -> (r: bool)
    ensures
        r == is_space(c),
{
    let u = c as u32;
    (0x09 <= u && u <= 0x0D) || u == 0x20 || u == 0x85 || u == 0xA0 || u == 0x1680 || (0x2000
        <= u && u <= 0x200A) || u == 0x2028 || u == 0x2029 || u == 0x202F || u == 0x205F || u
        == 0x3000
}

/// The characters of `s`.
fn chars_of(s: &str) -> (r: Vec<char>)
    ensures
        r@ == s@,
{
    let n = s.unicode_len();
    let mut chars: Vec<char> = Vec::new();
    let mut i: usize = 0;
    while i < n
        invariant
            i <= n,
            n == s@.len(),
            chars@ == s@.subrange(0, i as int),
        decreases n - i,
    {
        chars.push(s.get_char(i));
        i = i + 1;
        assert(chars@ =~= s@.subrange(0, i as int));
    }
    assert(s@.subrange(0, n as int) =~= s@);
    chars
}

/// The bounds of `chars` without its leading and trailing white space.
fn trim_bounds(chars: &Vec<char>) -> (r: (usize, usize))
    ensures
        r.0 <= r.1 <= chars@.len(),
        chars@.subrange(r.0 as int, r.1 as int) == trimmed(chars@),
{
    let mut i: usize = 0;
    while i < chars.len() && is_space_char(chars[i])
        invariant
            i <= chars@.len(),
            skip_space(chars@, i as int) == skip_space(chars@, 0),
        decreases chars@.len() - i,
    {
        i = i + 1;
    }
    let mut j: usize = chars.len();
    while j > i && is_space_char(chars[j - 1])
        invariant
            i <= j <= chars@.len(),
            skip_space(chars@, 0) == i,
            drop_space(chars@, i as int, j as int) == drop_space(chars@, i as int, chars@.len() as int),
        decreases j - i,
    {
        j = j - 1;
    }
    (i, j)
}

/// The value of `chars[lo..hi]` read as an `i32`.
fn parse_i32(chars: &Vec<char>, lo: usize, hi: usize) -> (r: Option<i32>)
    requires
        lo <= hi <= chars@.len(),
    ensures
        match r {
            Some(v) => i32_value(chars@.subrange(lo as int, hi as int)) == Some(v as int),
            None => i32_value(chars@.subrange(lo as int, hi as int)) is None,
        },
{
    let ghost sub = chars@.subrange(lo as int, hi as int);
    if lo == hi {
        return None;
    }
    let first = chars[lo];
    let negative = first == '-';
    let start: usize = if first == '+' || first == '-' {
        lo + 1
    } else {
        lo
    };
    let ghost ds = chars@.subrange(start as int, hi as int);
    proof {
        assert(sub[0] == first);
        if first == '+' || first == '-' {
            assert(ds =~= sub.drop_first());
        } else {
            assert(ds =~= sub);
        }
    }
    if start == hi {
        return None;
    }
    let mut acc: i64 = 0;
    let mut j: usize = start;
    while j < hi
        invariant
            lo <= start <= j <= hi <= chars@.len(),
            sub == chars@.subrange(lo as int, hi as int),
            sub.len() > 0,
            sub[0] == first,
            negative == (first == '-'),
            (first == '+' || first == '-') ==> ds == sub.drop_first(),
            !(first == '+' || first == '-') ==> ds == sub,
            ds == chars@.subrange(start as int, hi as int),
            acc == digits_value(chars@.subrange(start as int, j as int)),
            all_digits(chars@.subrange(start as int, j as int)),
            0 <= acc <= 2147483648,
        decreases hi - j,
    {
        let c = chars[j];
        if (c as u32) < ('0' as u32) || (c as u32) > ('9' as u32) {
            proof {
                assert(ds[j - start] == c);
                assert(!is_digit(ds[j - start]));
                assert(!all_digits(ds));
            }
            return None;
        }
        let d = (c as u32 - '0' as u32) as i64;
        let ghost prefix = chars@.subrange(start as int, j + 1);
        proof {
            assert(prefix.drop_last() =~= chars@.subrange(start as int, j as int));
            assert(all_digits(prefix)) by {
                assert forall|i: int| 0 <= i < prefix.len() implies is_digit(#[trigger] prefix[i]) by {
                    if i < prefix.len() - 1 {
                        assert(prefix[i] == chars@.subrange(start as int, j as int)[i]);
                    }
                }
            }
        }
        acc = acc * 10 + d;
        if acc > 2147483648 {
            proof {
                if all_digits(ds) {
                    lemma_digits_prefix(ds, j + 1 - start);
                    assert(ds.subrange(0, j + 1 - start) =~= prefix);
                }
            }
            return None;
        }
        j = j + 1;
    }
    proof {
        assert(chars@.subrange(start as int, j as int) =~= ds);
    }
    if negative {
        Some((-acc) as i32)
    } else if acc > 2147483647 {
        None
    } else {
        Some(acc as i32)
    }
}

/// The number of commas in `chars[lo..hi]` (counting stops at two) and the
/// position of the first.
fn comma_scan(chars: &Vec<char>, lo: usize, hi: usize) -> (r: (usize, usize))
    requires
        lo <= hi <= chars@.len(),
    ensures
        (r.0 == 1) == (comma_count(chars@.subrange(lo as int, hi as int)) == 1),
        r.0 == 1 ==> lo <= r.1 < hi && r.1 - lo == comma_index(
            chars@.subrange(lo as int, hi as int),
        ),
{
    let ghost t = chars@.subrange(lo as int, hi as int);
    let mut commas: usize = 0;
    let mut first: usize = hi;
    let mut k: usize = lo;
    while k < hi
        invariant
            lo <= k <= hi <= chars@.len(),
            t == chars@.subrange(lo as int, hi as int),
            commas == comma_count(t.subrange(0, k - lo)),
            commas <= k - lo,
            commas == 0 ==> first == hi,
            commas > 0 ==> lo <= first < k && t[first - lo] == ',',
            forall|i: int|
                0 <= i < (if commas == 0 {
                    k as int
                } else {
                    first as int
                }) - lo ==> t[i] != ',',
        decreases hi - k,
    {
        proof {
            assert(t.subrange(0, k + 1 - lo).drop_last() =~= t.subrange(0, k - lo));
            assert(t.subrange(0, k + 1 - lo).last() == chars@[k as int]);
        }
        if chars[k] == ',' {
            if commas == 0 {
                first = k;
            }
            commas = commas + 1;
        }
        k = k + 1;
    }
    proof {
        assert(t.subrange(0, hi - lo) =~= t);
        lemma_comma_index(t);
        if commas == 1 {
            assert(comma_index(t) == first - lo);
        }
    }
    (commas, first)
}

/// The two numbers of a line `a,b`, or why there are none.
fn read_pair(input: &str) -> (r: Result<(i32, i32), ParseErr>)
    ensures
        match r {
            Ok((a, b)) => number_pair(input@) == Ok::<(int, int), ParseErr>((a as int, b as int)),
            Err(e) => number_pair(input@) == Err::<(int, int), ParseErr>(e),
        },
{
    let chars = chars_of(input);
    let (lo, hi) = trim_bounds(&chars);
    let ghost t = chars@.subrange(lo as int, hi as int);
    let (commas, first) = comma_scan(&chars, lo, hi);
    if commas != 1 {
        return Err(ParseErr::BadFormat);
    }
    proof {
        assert(chars@.subrange(lo as int, first as int) =~= t.subrange(0, first - lo));
        assert(chars@.subrange(first + 1, hi as int) =~= t.subrange(first + 1 - lo, t.len() as int));
    }
    let a = parse_i32(&chars, lo, first);
    let b = parse_i32(&chars, first + 1, hi);
    match (a, b) {
        (Some(a), Some(b)) => Ok((a, b)),
        _ => Err(ParseErr::NotNum),
    }
}

/// Reads a coordinate `x,y` of two non-negative numbers.
pub fn parse_coordinate(player_input: &String) -> (r: Result<Coordinate, ParseErr>)
    ensures
        r == coordinate_parse(player_input@),
{
    match read_pair(player_input.as_str()) {
        Ok((x, y)) => if x >= 0 && y >= 0 {
            Ok(Coordinate { x: x as u32, y: y as u32 })
        } else {
            Err(ParseErr::NegativeNum)
        },
        Err(e) => Err(e),
    }
}

/// Reads a board size `h,v` of two positive numbers.
pub fn parse_board_size(player_input: String) -> (r: Result<BoardSize, ParseErr>)
    ensures
        r == board_size_parse(player_input@),
{
    match read_pair(player_input.as_str()) {
        Ok((h, v)) => if h > 0 && v > 0 {
            Ok((h as u32, v as u32))
        } else {
            Err(ParseErr::NegativeNum)
        },
        Err(e) => Err(e),
    }
}

/// Whether `chars[lo..hi]` spells `word`.
fn spells(chars: &Vec<char>, lo: usize, hi: usize, word: &Vec<char>) -> (r: bool)
    requires
        lo <= hi <= chars@.len(),
    ensures
        r == (chars@.subrange(lo as int, hi as int) == word@),
{
    if hi - lo != word.len() {
        return false;
    }
    let mut i: usize = 0;
    while i < word.len()
        invariant
            lo <= hi <= chars@.len(),
            hi - lo == word@.len(),
            i <= word@.len(),
            forall|j: int| 0 <= j < i ==> chars@[lo + j] == word@[j],
        decreases word@.len() - i,
    {
        if chars[lo + i] != word[i] {
            assert(chars@.subrange(lo as int, hi as int)[i as int] != word@[i as int]);
            return false;
        }
        i = i + 1;
    }
    assert(chars@.subrange(lo as int, hi as int) =~= word@);
    true
}

/// Reads an action: `Reveal`, `Flag` or `Unflag`.
pub fn parse_action(player_input: String) -> (r: Result<Action, ParseErr>)
    ensures
        r == action_parse(player_input@),
{
    let chars = chars_of(player_input.as_str());
    let (lo, hi) = trim_bounds(&chars);
    if spells(&chars, lo, hi, &vec!['R', 'e', 'v', 'e', 'a', 'l']) {
        Ok(Action::Reveal)
    } else if spells(&chars, lo, hi, &vec!['F', 'l', 'a', 'g']) {
        Ok(Action::Flag)
    } else if spells(&chars, lo, hi, &vec!['U', 'n', 'f', 'l', 'a', 'g']) {
        Ok(Action::Unflag)
    } else {
        Err(ParseErr::BadFormat)
    }
}

/// Reads a difficulty: `Easy`, `Medium` or `Hard`.
pub fn parse_difficulty(player_input: String) -> (r: Result<Difficulty, ParseErr>)
    ensures
        r == difficulty_parse(player_input@),
{
    let chars = chars_of(player_input.as_str());
    let (lo, hi) = trim_bounds(&chars);
    if spells(&chars, lo, hi, &vec!['E', 'a', 's', 'y']) {
        Ok(Difficulty::Easy)
    } else if spells(&chars, lo, hi, &vec!['M', 'e', 'd', 'i', 'u', 'm']) {
        Ok(Difficulty::Medium)
    } else if spells(&chars, lo, hi, &vec!['H', 'a', 'r', 'd']) {
        Ok(Difficulty::Hard)
    } else {
        Err(ParseErr::BadFormat)
    }
}

} // verus!
