//! The word list: a text of lines, each a code, one space and a word, read
//! into a map from code to word.

use crate::text::{
    chars_of, decimal_value, find_char, is_decimal_digit, is_numeral, is_white_space,
    lemma_position_is, lemma_trimmed_has_no_margin, lemma_trimmed_of_padded, parse_unsigned,
    position_of, string_of, trim, trimmed, unsigned_of,
};
use std::collections::HashMap;
use vstd::prelude::*;
use vstd::slice::slice_subrange;

verus! {

broadcast use vstd::std_specs::hash::group_hash_axioms;

/// Why a line is no entry of a word list.
#[derive(Clone, Copy, Debug, PartialEq, Eq, Structural)]
pub enum LineError {
    /// The line holds no space.
    MissingSpace,
    /// What stands before the first space is not an unsigned number.
    BadCode,
    /// Nothing but white space follows the first space.
    MissingWord,
}

/// The first line of a text that is no entry, and why.
#[derive(Clone, Copy, Debug, PartialEq, Eq, Structural)]
pub struct ParseError {
    /// Number of the line in the text, the first line being line 1.
    pub line: usize,
    /// What is wrong with it.
    pub kind: LineError,
}

/// The entry that a line denotes. The line is split at its first space: the
/// text before it is the code, an unsigned decimal number; the text after it,
/// without the white space at its start and at its end, is the word, which
/// must not be empty.
pub open spec fn line_entry(line: Seq<char>) -> Result<(usize, Seq<char>), LineError> {
    let space = position_of(line, ' ') as int;
    if space >= line.len() {
        Err(LineError::MissingSpace)
    } else {
        match unsigned_of(line.take(space)) {
            None => Err(LineError::BadCode),
            Some(code) => {
                let word = trimmed(line.skip(space + 1));
                if word.len() == 0 {
                    Err(LineError::MissingWord)
                } else {
                    Ok((code, word))
                }
            },
        }
    }
}

/// The lines of a text: the pieces between its `'\n'`, empty ones included.
/// A text without `'\n'` is one line.
pub open spec fn lines_of(text: Seq<char>) -> Seq<Seq<char>>
    decreases text.len(),
{
    let n = position_of(text, '\n') as int;
    if n < text.len() {
        seq![text.take(n)] + lines_of(text.skip(n + 1))
    } else {
        seq![text]
    }
}

/// The word list that a sequence of lines denotes. Empty lines are passed
/// over. Each other line adds its entry, a later line replacing the word that
/// an earlier one gave to the same code. The first line that is neither empty
/// nor an entry makes the whole an error.
pub open spec fn list_of(lines: Seq<Seq<char>>) -> Result<Map<usize, Seq<char>>, ParseError>
    decreases lines.len(),
{
    if lines.len() == 0 {
        Ok(Map::empty())
    } else {
        match list_of(lines.drop_last()) {
            Err(e) => Err(e),
            Ok(list) => if lines.last().len() == 0 {
                Ok(list)
            } else {
                match line_entry(lines.last()) {
                    Err(kind) => Err(ParseError { line: lines.len() as usize, kind }),
                    Ok((code, word)) => Ok(list.insert(code, word)),
                }
            },
        }
    }
}

/// A word list as a map from code to the characters of the word.
pub open spec fn words_of(list: Map<usize, String>) -> Map<usize, Seq<char>> {
    list.map_values(|word: String| word@)
}

/// What reading a line gave, the word taken by its characters.
pub open spec fn entry_view(entry: Result<(usize, String), LineError>) -> Result<
    (usize, Seq<char>),
    LineError,
> {
    match entry {
        Ok((code, word)) => Ok((code, word@)),
        Err(e) => Err(e),
    }
}

/// What reading a list gave, each word taken by its characters.
pub open spec fn list_view(list: Result<HashMap<usize, String>, ParseError>) -> Result<
    Map<usize, Seq<char>>,
    ParseError,
> {
    match list {
        Ok(map) => Ok(words_of(map@)),
        Err(e) => Err(e),
    }
}

/// Reads one line of a word list from its characters.
pub fn parse_chars(line: &[char]) -> (entry: Result<(usize, String), LineError>)
    ensures
        entry_view(entry) == line_entry(line@),
{
    let space: usize = find_char(line, ' ');
    if space >= line.len() {
        return Err(LineError::MissingSpace);
    }
    let code: usize = match parse_unsigned(slice_subrange(line, 0, space)) {
        Some(code) => code,
        None => {
            return Err(LineError::BadCode);
        },
    };
    let word: &[char] = trim(slice_subrange(line, space + 1, line.len()));
    if word.len() == 0 {
        return Err(LineError::MissingWord);
    }
    Ok((code, string_of(word)))
}

/// Reads one line of a word list.
pub fn parse_line(line: &str) -> (entry: Result<(usize, String), LineError>)
    ensures
        entry_view(entry) == line_entry(line@),
{
    let chars: Vec<char> = chars_of(line);
    parse_chars(chars.as_slice())
}

/// The code of a line that is an entry.
pub open spec fn entry_code(line: Seq<char>) -> usize
    recommends
        line_entry(line) is Ok,
{
    line_entry(line)->Ok_0.0
}

/// The word of a line that is an entry.
pub open spec fn entry_word(line: Seq<char>) -> Seq<char>
    recommends
        line_entry(line) is Ok,
{
    line_entry(line)->Ok_0.1
}

/// A line made of a numeral that fits in `usize`, one space and a word, with
/// any white space before the word and after it, is the entry of the
/// numeral's value and the word. The word is not empty and neither begins nor
/// ends with white space.
pub proof fn lemma_well_formed_line(
    digits: Seq<char>,
    lead: Seq<char>,
    word: Seq<char>,
    pad: Seq<char>,
)
    requires
        is_numeral(digits),
        decimal_value(digits) <= usize::MAX,
        word.len() > 0,
        !is_white_space(word.first()),
        !is_white_space(word.last()),
        forall|i: int| 0 <= i < lead.len() ==> is_white_space(lead[i]),
        forall|i: int| 0 <= i < pad.len() ==> is_white_space(pad[i]),
    ensures
        line_entry(digits + seq![' '] + (lead + word + pad)) == Ok::<
            (usize, Seq<char>),
            LineError,
        >((decimal_value(digits) as usize, word)),
{
    let line = digits + seq![' '] + (lead + word + pad);
    let space = digits.len() as int;
    assert forall|j: int| 0 <= j < space implies line[j] != ' ' by {
        assert(is_decimal_digit(digits[j]));
    }
    lemma_position_is(line, ' ', space);
    assert(line.take(space) == digits);
    assert(is_decimal_digit(digits[0]));
    assert(line.skip(space + 1) == lead + word + pad);
    lemma_trimmed_of_padded(lead, word, pad);
}

/// The word of an entry is not empty and neither begins nor ends with white
/// space.
pub proof fn lemma_entry_word_is_trimmed(line: Seq<char>)
    requires
        line_entry(line) is Ok,
    ensures
        entry_word(line).len() > 0,
        !is_white_space(entry_word(line).first()),
        !is_white_space(entry_word(line).last()),
{
    let space = position_of(line, ' ') as int;
    lemma_trimmed_has_no_margin(line.skip(space + 1));
}

/// A line without a space is no entry.
pub proof fn lemma_line_without_space(line: Seq<char>)
    requires
        forall|i: int| 0 <= i < line.len() ==> line[i] != ' ',
    ensures
        line_entry(line) == Err::<(usize, Seq<char>), LineError>(LineError::MissingSpace),
{
    lemma_position_is(line, ' ', line.len() as int);
}

/// Where the lines make a list, each of them that is not empty is an entry
/// whose code the list holds, and the list gives that code the word of the
/// last line that has it.
pub proof fn lemma_last_line_decides(lines: Seq<Seq<char>>, i: int)
    requires
        list_of(lines) is Ok,
        0 <= i < lines.len(),
        lines[i].len() > 0,
    ensures
        line_entry(lines[i]) is Ok,
        list_of(lines)->Ok_0.contains_key(entry_code(lines[i])),
        (forall|j: int|
            i < j < lines.len() && lines[j].len() > 0 ==> entry_code(#[trigger] lines[j])
                != entry_code(lines[i])) ==> list_of(lines)->Ok_0[entry_code(lines[i])]
            == entry_word(lines[i]),
    decreases lines.len(),
{
    let earlier = lines.drop_last();
    if i < lines.len() - 1 {
        lemma_last_line_decides(earlier, i);
        assert(earlier[i] == lines[i]);
        if forall|j: int|
            i < j < lines.len() && lines[j].len() > 0 ==> entry_code(#[trigger] lines[j])
                != entry_code(lines[i]) {
            let last = lines[lines.len() - 1];
            assert(last.len() > 0 ==> entry_code(last) != entry_code(lines[i]));
            assert forall|j: int| i < j < earlier.len() && earlier[j].len() > 0 implies entry_code(
                #[trigger] earlier[j],
            ) != entry_code(earlier[i]) by {
                assert(earlier[j] == lines[j]);
            }
        }
    }
}

/// Where the lines make a list, each code that the list holds is the code of
/// one of the lines, and its word in the list is the word of that line.
pub proof fn lemma_code_has_line(lines: Seq<Seq<char>>, code: usize) -> (i: int)
    requires
        list_of(lines) is Ok,
        list_of(lines)->Ok_0.contains_key(code),
    ensures
        0 <= i < lines.len(),
        lines[i].len() > 0,
        line_entry(lines[i]) is Ok,
        entry_code(lines[i]) == code,
        entry_word(lines[i]) == list_of(lines)->Ok_0[code],
    decreases lines.len(),
{
    if lines.len() == 0 {
        0
    } else if lines.last().len() > 0 && entry_code(lines.last()) == code {
        lines.len() - 1
    } else {
        lemma_code_has_line(lines.drop_last(), code)
    }
}

/// Each word of a list is not empty and neither begins nor ends with white
/// space.
pub proof fn lemma_list_words_are_trimmed(lines: Seq<Seq<char>>, code: usize)
    requires
        list_of(lines) is Ok,
        list_of(lines)->Ok_0.contains_key(code),
    ensures
        list_of(lines)->Ok_0[code].len() > 0,
        !is_white_space(list_of(lines)->Ok_0[code].first()),
        !is_white_space(list_of(lines)->Ok_0[code].last()),
{
    let i = lemma_code_has_line(lines, code);
    lemma_entry_word_is_trimmed(lines[i]);
}

/// Once a line is neither empty nor an entry, the lines after it change
/// nothing.
pub proof fn lemma_list_of_error(lines: Seq<Seq<char>>, more: Seq<Seq<char>>)
    requires
        list_of(lines) is Err,
    ensures
        list_of(lines + more) == list_of(lines),
    decreases more.len(),
{
    if more.len() == 0 {
        assert(lines + more == lines);
    } else {
        lemma_list_of_error(lines, more.drop_last());
        assert((lines + more).drop_last() == lines + more.drop_last());
    }
}

/// The lines of a text from `start` on: the line that begins there, and then,
/// where a `'\n'` ends it, the lines after that.
proof fn lemma_lines_of_step(text: Seq<char>, start: int, n: int)
    requires
        0 <= start <= text.len(),
        n == position_of(text.skip(start), '\n'),
        start + n <= text.len(),
    ensures
        lines_of(text.skip(start)) == seq![text.subrange(start, start + n)] + (if start + n
            < text.len() {
            lines_of(text.skip(start + n + 1))
        } else {
            Seq::<Seq<char>>::empty()
        }),
{
    let rest = text.skip(start);
    assert(rest.take(n) == text.subrange(start, start + n));
    if n < rest.len() {
        assert(rest.skip(n + 1) == text.skip(start + n + 1));
    } else {
        assert(rest == text.subrange(start, start + n));
    }
}

/// Reads a word list from the text of its lines. Empty lines are passed over.
/// Every other line must be an entry: the first that is not is reported, and
/// no list is returned.
pub fn read_diceware_list(body: &str) -> (list: Result<HashMap<usize, String>, ParseError>)
    ensures
        list_view(list) == list_of(lines_of(body@)),
{
    let chars: Vec<char> = chars_of(body);
    let text: &[char] = chars.as_slice();
    let mut map: HashMap<usize, String> = HashMap::new();
    let mut start: usize = 0;
    let mut line_no: usize = 0;
    let mut finished: bool = false;
    let ghost mut done: Seq<Seq<char>> = Seq::empty();
    assert(text@.skip(0) == text@);
    assert(words_of(map@) == Map::<usize, Seq<char>>::empty());
    while !finished
        invariant
            start <= text.len(),
            text@ == body@,
            line_no <= start,
            !finished ==> line_no == done.len(),
            !finished ==> lines_of(body@) == done + lines_of(text@.skip(start as int)),
            finished ==> lines_of(body@) == done,
            list_of(done) == Ok::<Map<usize, Seq<char>>, ParseError>(words_of(map@)),
        decreases
                text.len() - start + if finished {
                    0int
                } else {
                    1int
                },
    {
        let n: usize = find_char(slice_subrange(text, start, text.len()), '\n');
        let end: usize = start + n;
        let line: &[char] = slice_subrange(text, start, end);
        let ghost lines = done.push(line@);
        let ghost after = if end < text.len() {
            lines_of(text@.skip(end + 1))
        } else {
            Seq::<Seq<char>>::empty()
        };
        proof {
            lemma_lines_of_step(text@, start as int, n as int);
            assert(lines.drop_last() == done);
            assert(lines_of(body@) == lines + after);
        }
        if n > 0 {
            match parse_chars(line) {
                Ok((code, word)) => {
                    let ghost before = map@;
                    map.insert(code, word);
                    assert(words_of(map@) == words_of(before).insert(code, word@));
                },
                Err(kind) => {
                    proof {
                        lemma_list_of_error(lines, after);
                    }
                    return Err(ParseError { line: line_no + 1, kind });
                },
            }
        }
        proof {
            done = lines;
        }
        if end < text.len() {
            start = end + 1;
            line_no += 1;
        } else {
            finished = true;
            assert(lines + after == lines);
        }
    }
    Ok(map)
}

} // verus!
