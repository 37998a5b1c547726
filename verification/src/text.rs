//! Character-level helpers shared by the term, catalog and grammar modules.
//!
//! Every text in this library is modelled by its sequence of characters
//! (`Seq<char>`, the view of `str` and `String`).

use vstd::prelude::*;
use vstd::string::{StrSliceExecFns, StringExecFns};

verus! {

/// The characters of `s`, collected into a vector.
pub fn to_chars(s: &str) -> (v: Vec<char>)
    ensures
        v@ == s@,
{
    let mut v: Vec<char> = Vec::new();
    for c in it: s.chars()
        invariant
            it.seq() == s@,
            v@ == it.seq().subrange(0, it.index() as int),
    {
        v.push(c);
    }
    v
}

/// `tag` occurs in `s` starting at position `pos`.
pub open spec fn has_tag(s: Seq<char>, pos: int, tag: Seq<char>) -> bool {
    &&& 0 <= pos
    &&& pos + tag.len() <= s.len()
    &&& s.subrange(pos, pos + tag.len()) == tag
}

/// Tests whether `tag` occurs in `s` starting at position `pos`.
pub fn at_tag(s: &Vec<char>, pos: usize, tag: &Vec<char>) -> (b: bool)
    ensures
        b == has_tag(s@, pos as int, tag@),
{
    let n: usize = tag.len();
    if pos > s.len() || n > s.len() - pos {
        return false;
    }
    let mut i: usize = 0;
    while i < n
        invariant
            n == tag@.len(),
            pos + n <= s.len(),
            i <= n,
            forall|k: int| 0 <= k < i ==> s@[pos + k] == tag@[k],
        decreases n - i,
    {
        if s[pos + i] != tag[i] {
            return false;
        }
        i += 1;
    }
    assert(s@.subrange(pos as int, pos + n) =~= tag@);
    true
}

/// Tests whether the word `word` occurs in `s` starting at position `pos`.
/// Reads the word character by character: meant for short words.
pub fn at_word(s: &Vec<char>, pos: usize, word: &str) -> (b: bool)
    ensures
        b == has_tag(s@, pos as int, word@),
{
    let n: usize = word.unicode_len();
    if pos > s.len() || n > s.len() - pos {
        return false;
    }
    let mut i: usize = 0;
    while i < n
        invariant
            n == word@.len(),
            pos + n <= s.len(),
            i <= n,
            forall|k: int| 0 <= k < i ==> s@[pos + k] == word@[k],
        decreases n - i,
    {
        if s[pos + i] != word.get_char(i) {
            return false;
        }
        i += 1;
    }
    assert(s@.subrange(pos as int, pos + n) =~= word@);
    true
}

/// `s` begins with `prefix`.
pub open spec fn starts_with(s: Seq<char>, prefix: Seq<char>) -> bool {
    has_tag(s, 0, prefix)
}

/// `s` ends with `suffix`.
pub open spec fn ends_with(s: Seq<char>, suffix: Seq<char>) -> bool {
    has_tag(s, s.len() - suffix.len(), suffix)
}

/// The character that writes the decimal digit `d`.
pub open spec fn digit_char(d: nat) -> char {
    if d == 0 {
        '0'
    } else if d == 1 {
        '1'
    } else if d == 2 {
        '2'
    } else if d == 3 {
        '3'
    } else if d == 4 {
        '4'
    } else if d == 5 {
        '5'
    } else if d == 6 {
        '6'
    } else if d == 7 {
        '7'
    } else if d == 8 {
        '8'
    } else {
        '9'
    }
}

/// The decimal numeral of `n`, without sign or leading zeros.
pub open spec fn decimal(n: nat) -> Seq<char>
    decreases n,
{
    if n < 10 {
        seq![digit_char(n)]
    } else {
        decimal(n / 10).push(digit_char(n % 10))
    }
}

/// The text of one decimal digit.
fn digit_text(d: u64) -> (t: &'static str)
    requires
        d < 10,
    ensures
        t@ == seq![digit_char(d as nat)],
{
    proof {
        reveal_strlit("0");
        reveal_strlit("1");
        reveal_strlit("2");
        reveal_strlit("3");
        reveal_strlit("4");
        reveal_strlit("5");
        reveal_strlit("6");
        reveal_strlit("7");
        reveal_strlit("8");
        reveal_strlit("9");
    }
    let t = if d == 0 {
        "0"
    } else if d == 1 {
        "1"
    } else if d == 2 {
        "2"
    } else if d == 3 {
        "3"
    } else if d == 4 {
        "4"
    } else if d == 5 {
        "5"
    } else if d == 6 {
        "6"
    } else if d == 7 {
        "7"
    } else if d == 8 {
        "8"
    } else {
        "9"
    };
    t
}

/// Writes `n` as a decimal numeral.
pub fn decimal_text(n: u64) -> (t: String)
    ensures
        t@ == decimal(n as nat),
    decreases n,
{
    if n < 10 {
        String::from_str(digit_text(n))
    } else {
        let mut t = decimal_text(n / 10);
        t.append(digit_text(n % 10));
        t
    }
}

/// A label and a number, written with one space between them.
pub open spec fn labelled(label: Seq<char>, n: nat) -> Seq<char> {
    label + seq![' '] + decimal(n)
}

/// Writes `label`, a space and `n` in decimal.
pub fn labelled_text(label: &str, n: u16) -> (t: String)
    ensures
        t@ == labelled(label@, n as nat),
{
    proof {
        reveal_strlit(" ");
    }
    let mut t = String::from_str(label);
    t.append(" ");
    let digits = decimal_text(n as u64);
    t.append(digits.as_str());
    t
}

/// The position of the first `sep` in `s` at or after `from`, or `s.len()`
/// where there is none.
pub open spec fn next_sep(s: Seq<char>, sep: char, from: int) -> int
    decreases s.len() - from,
{
    if 0 <= from < s.len() && s[from] != sep {
        next_sep(s, sep, from + 1)
    } else {
        from
    }
}

/// The pieces of `s` between the occurrences of `sep`, from position `from`
/// on. A text without `sep` is one piece; `n` separators give `n + 1` pieces,
/// some of which may be empty.
pub open spec fn split_from(s: Seq<char>, sep: char, from: int) -> Seq<Seq<char>>
    decreases s.len() - from,
{
    let stop = next_sep(s, sep, from);
    if 0 <= from <= stop < s.len() {
        seq![s.subrange(from, stop)] + split_from(s, sep, stop + 1)
    } else {
        seq![s.subrange(from, s.len() as int)]
    }
}

/// The pieces of `s` between the occurrences of `sep`.
pub open spec fn split(s: Seq<char>, sep: char) -> Seq<Seq<char>> {
    split_from(s, sep, 0)
}

/// The texts of a list of strings.
pub open spec fn texts(v: Seq<String>) -> Seq<Seq<char>> {
    Seq::new(v.len(), |i: int| v[i]@)
}

/// Splits `s` at every occurrence of `sep`.
pub fn split_text(s: &str, sep: char) -> (pieces: Vec<String>)
    ensures
        texts(pieces@) == split(s@, sep),
{
    let chars = to_chars(s);
    let n: usize = chars.len();
    let mut pieces: Vec<String> = Vec::new();
    let mut start: usize = 0;
    let mut i: usize = 0;
    while i < n
        invariant
            chars@ == s@,
            n == chars@.len(),
            start <= i <= n,
            forall|k: int| start <= k < i ==> chars@[k] != sep,
            split(s@, sep) == texts(pieces@) + split_from(s@, sep, start as int),
        decreases n - i,
    {
        if chars[i] == sep {
            proof {
                lemma_next_sep_reaches(s@, sep, start as int, i as int);
            }
            let piece = s.substring_char(start, i);
            pieces.push(String::from_str(piece));
            start = i + 1;
        }
        i += 1;
    }
    proof {
        lemma_next_sep_reaches(s@, sep, start as int, n as int);
    }
    let piece = s.substring_char(start, n);
    pieces.push(String::from_str(piece));
    pieces
}

/// The first separator from `from` on is at `stop` where none stands before
/// `stop` and one stands there, or the text ends there.
proof fn lemma_next_sep_reaches(s: Seq<char>, sep: char, from: int, stop: int)
    requires
        0 <= from <= stop <= s.len(),
        forall|k: int| from <= k < stop ==> s[k] != sep,
        stop < s.len() ==> s[stop] == sep,
    ensures
        next_sep(s, sep, from) == stop,
    decreases stop - from,
{
    if from < stop {
        lemma_next_sep_reaches(s, sep, from + 1, stop);
    }
}

} // verus!
