//! The text form of an edge: a line with two whitespace-separated numbers.

use vstd::prelude::*;

verus! {

/// Whether `c` is whitespace: a code point with the Unicode property
/// White_Space.
pub open spec fn is_space(c: char) -> bool {
    let u = c as u32;
    ||| 0x09 <= u <= 0x0d
    ||| u == 0x20
    ||| u == 0x85
    ||| u == 0xa0
    ||| u == 0x1680
    ||| 0x2000 <= u <= 0x200a
    ||| u == 0x2028
    ||| u == 0x2029
    ||| u == 0x202f
    ||| u == 0x205f
    ||| u == 0x3000
}

/// Whether `c` is one of the digits `0` to `9`.
pub open spec fn is_digit(c: char) -> bool {
    0x30 <= c as u32 <= 0x39
}

/// What reading `s` from left to right leaves: the words that have ended,
/// and the word that has begun and not ended, which is empty if none has. A
/// word is a run of characters that are not whitespace.
pub open spec fn scan(s: Seq<char>) -> (Seq<Seq<char>>, Seq<char>)
    decreases s.len(),
{
    if s.len() == 0 {
        (Seq::empty(), Seq::empty())
    } else {
        let (ended, begun) = scan(s.drop_last());
        if !is_space(s.last()) {
            (ended, begun.push(s.last()))
        } else if begun.len() > 0 {
            (ended.push(begun), Seq::empty())
        } else {
            (ended, begun)
        }
    }
}

/// The words of `s`: its runs of characters that are not whitespace, in
/// order.
pub open spec fn words(s: Seq<char>) -> Seq<Seq<char>> {
    let (ended, begun) = scan(s);
    if begun.len() > 0 {
        ended.push(begun)
    } else {
        ended
    }
}

fn is_whitespace(c: char) -> (r: bool)
    ensures
        r == is_space(c),
{
    let u = c as u32;
    (0x09 <= u && u <= 0x0d) || u == 0x20 || u == 0x85 || u == 0xa0 || u == 0x1680 || (0x2000 <= u
        && u <= 0x200a) || u == 0x2028 || u == 0x2029 || u == 0x202f || u == 0x205f || u == 0x3000
}

/// Whether `found` holds the words `wanted`, one for one.
pub open spec fn same_words(found: Seq<Vec<char>>, wanted: Seq<Seq<char>>) -> bool {
    &&& found.len() == wanted.len()
    &&& forall|i: int| 0 <= i < found.len() ==> (#[trigger] found[i])@ == wanted[i]
}

/// The words of a line.
pub fn split_words(line: &str) -> (found: Vec<Vec<char>>)
    ensures
        same_words(found@, words(line@)),
{
    let mut ended: Vec<Vec<char>> = Vec::new();
    let mut begun: Vec<char> = Vec::new();
    for c in it: line.chars()
        invariant
            it.seq() == line@,
            same_words(ended@, scan(line@.take(it.index())).0),
            begun@ == scan(line@.take(it.index())).1,
    {
        proof {
            assert(line@.take(it.index() + 1).drop_last() =~= line@.take(it.index()));
        }
        if !is_whitespace(c) {
            begun.push(c);
        } else if begun.len() > 0 {
            ended.push(begun);
            begun = Vec::new();
        }
    }
    proof {
        assert(line@.take(line@.len() as int) =~= line@);
    }
    if begun.len() > 0 {
        ended.push(begun);
    }
    ended
}

/// The number that the digits `s` spell in base ten.
pub open spec fn digits_value(s: Seq<char>) -> nat
    decreases s.len(),
{
    if s.len() == 0 {
        0
    } else {
        digits_value(s.drop_last()) * 10 + (s.last() as u32 - 0x30) as nat
    }
}

/// Whether every character of `s` is a digit.
pub open spec fn all_digits(s: Seq<char>) -> bool {
    forall|i: int| 0 <= i < s.len() ==> is_digit(#[trigger] s[i])
}

/// The number that `word` spells: one or more digits, with or without a `+`
/// before them, that spell no more than `u64::MAX`. Any other word spells
/// none.
pub open spec fn number(word: Seq<char>) -> Option<u64> {
    let digits = if word.len() > 0 && word[0] == '+' {
        word.drop_first()
    } else {
        word
    };
    if digits.len() > 0 && all_digits(digits) && digits_value(digits) <= u64::MAX {
        Some(digits_value(digits) as u64)
    } else {
        None
    }
}

/// The edge that a line spells: its two words, where it has two and each
/// spells a number. Any other line spells none: so a blank line, and a line
/// that begins with `#`.
pub open spec fn line_edge(line: Seq<char>) -> Option<(u64, u64)> {
    let found = words(line);
    if found.len() == 2 && number(found[0]) is Some && number(found[1]) is Some {
        Some((number(found[0])->0, number(found[1])->0))
    } else {
        None
    }
}

/// Digits spell no less than those of them that come first.
proof fn lemma_digits_value_grows(s: Seq<char>, n: int)
    requires
        all_digits(s),
        0 <= n <= s.len(),
    ensures
        digits_value(s.take(n)) <= digits_value(s),
    decreases s.len() - n,
{
    if n < s.len() {
        lemma_digits_value_grows(s, n + 1);
        assert(s.take(n + 1).drop_last() =~= s.take(n));
        assert(is_digit(s[n]));
        assert(s.take(n + 1).last() == s[n]);
    } else {
        assert(s.take(n) =~= s);
    }
}

/// The number that a word spells.
pub fn parse_number(word: &Vec<char>) -> (r: Option<u64>)
    ensures
        r == number(word@),
{
    let len = word.len();
    let start: usize = if len > 0 && word[0] == '+' {
        1
    } else {
        0
    };
    if start == len {
        return None;
    }
    let ghost digits = word@.skip(start as int);
    assert(digits =~= if word@.len() > 0 && word@[0] == '+' {
        word@.drop_first()
    } else {
        word@
    });
    let mut value: u64 = 0;
    let mut i: usize = start;
    assert(digits.take(0) =~= Seq::<char>::empty());
    while i < len
        invariant
            start <= i <= len,
            len == word@.len(),
            digits == word@.skip(start as int),
            digits == if word@.len() > 0 && word@[0] == '+' {
                word@.drop_first()
            } else {
                word@
            },
            all_digits(digits.take(i - start)),
            value == digits_value(digits.take(i - start)),
        decreases len - i,
    {
        let u = word[i] as u32;
        assert(digits[i - start] == word@[i as int]);
        if !(0x30 <= u && u <= 0x39) {
            assert(!all_digits(digits));
            return None;
        }
        proof {
            let read = digits.take(i - start + 1);
            assert(read.drop_last() =~= digits.take(i - start));
            assert(read.last() == word@[i as int]);
            assert forall|j: int| 0 <= j < read.len() implies is_digit(#[trigger] read[j]) by {
                if j < i - start {
                    assert(digits.take(i - start)[j] == read[j]);
                }
            }
            if all_digits(digits) {
                lemma_digits_value_grows(digits, i - start + 1);
            }
        }
        let tens = match value.checked_mul(10) {
            Some(tens) => tens,
            None => {
                return None;
            },
        };
        value = match tens.checked_add((u - 0x30) as u64) {
            Some(sum) => sum,
            None => {
                return None;
            },
        };
        i += 1;
    }
    assert(digits.take(i - start) =~= digits);
    Some(value)
}

/// The edge that a line of text spells, if it spells one.
///
/// A line spells an edge if it holds two numbers and whitespace, and nothing
/// else: the identifier of the source, then that of the target. A caller
/// that reads an edge list passes over the lines that spell none, which
/// takes care of blank lines and of comments, whose first character is `#`.
pub fn parse_line(line: &str) -> (r: Option<(u64, u64)>)
    ensures
        r == line_edge(line@),
{
    let found = split_words(line);
    if found.len() != 2 {
        return None;
    }
    match (parse_number(&found[0]), parse_number(&found[1])) {
        (Some(from), Some(to)) => Some((from, to)),
        _ => None,
    }
}

/// What reading a text that begins with a character other than whitespace
/// leaves: a first word that begins with that character, ended or not.
proof fn lemma_first_word(s: Seq<char>)
    requires
        s.len() > 0,
        !is_space(s[0]),
    ensures
        scan(s).0.len() > 0 ==> scan(s).0[0].len() > 0 && scan(s).0[0][0] == s[0],
        scan(s).0.len() == 0 ==> scan(s).1.len() > 0 && scan(s).1[0] == s[0],
    decreases s.len(),
{
    let (ended, begun) = scan(s.drop_last());
    if s.len() > 1 {
        lemma_first_word(s.drop_last());
        assert(s.drop_last()[0] == s[0]);
        if !is_space(s.last()) {
            assert(begun.push(s.last())[0] == if begun.len() > 0 {
                begun[0]
            } else {
                s.last()
            });
        } else if begun.len() > 0 {
            assert(ended.push(begun)[0] == if ended.len() > 0 {
                ended[0]
            } else {
                begun
            });
        }
    } else {
        assert(s.drop_last() =~= Seq::<char>::empty());
        assert(begun.push(s.last())[0] == s[0]);
    }
}

/// A text of whitespace has no words.
proof fn lemma_no_words(s: Seq<char>)
    requires
        forall|i: int| 0 <= i < s.len() ==> is_space(#[trigger] s[i]),
    ensures
        scan(s) == (Seq::<Seq<char>>::empty(), Seq::<char>::empty()),
    decreases s.len(),
{
    if s.len() > 0 {
        lemma_no_words(s.drop_last());
    }
}

/// A line that begins with `#`, a comment, spells no edge.
pub proof fn lemma_comment_spells_no_edge(line: Seq<char>)
    requires
        line.len() > 0,
        line[0] == '#',
    ensures
        line_edge(line) is None,
{
    lemma_first_word(line);
    let (ended, begun) = scan(line);
    let first = words(line)[0];
    assert(first == if ended.len() > 0 {
        ended[0]
    } else {
        begun
    });
    assert(!is_digit(first[0]));
}

/// A line of nothing but whitespace spells no edge.
pub proof fn lemma_blank_spells_no_edge(line: Seq<char>)
    requires
        forall|i: int| 0 <= i < line.len() ==> is_space(#[trigger] line[i]),
    ensures
        line_edge(line) is None,
{
    lemma_no_words(line);
}

} // verus!
