//! From a line that the player typed to an action on the board.

use vstd::prelude::*;

verus! {

/// Whether `c` is white space, as Unicode has it.
pub open spec fn white(c: char) -> bool {
    let code = c as u32;
    ||| 0x09 <= code <= 0x0d
    ||| code == 0x20
    ||| code == 0x85
    ||| code == 0xa0
    ||| code == 0x1680
    ||| 0x2000 <= code <= 0x200a
    ||| code == 0x2028
    ||| code == 0x2029
    ||| code == 0x202f
    ||| code == 0x205f
    ||| code == 0x3000
}

/// Whether `c` is white space.
pub fn is_white(c: char) -> (found: bool)
    ensures
        found == white(c),
{
    let code = c as u32;
    (0x09 <= code && code <= 0x0d) || code == 0x20 || code == 0x85 || code == 0xa0 || code == 0x1680 || (0x2000
        <= code && code <= 0x200a) || code == 0x2028 || code == 0x2029 || code == 0x202f || code == 0x205f
        || code == 0x3000
}

/// The first position from `i` on that holds no white space, or the length
/// where there is none.
pub open spec fn skip_white(s: Seq<char>, i: int) -> int
    decreases s.len() - i,
{
    if 0 <= i < s.len() && white(s[i]) {
        skip_white(s, i + 1)
    } else {
        i
    }
}

/// The end of the last stretch before `j` that holds no white space.
pub open spec fn back_white(s: Seq<char>, j: int) -> int
    decreases j,
{
    if 0 < j <= s.len() && white(s[j - 1]) {
        back_white(s, j - 1)
    } else {
        j
    }
}

/// The text without the white space at its start and at its end.
pub open spec fn trimmed(s: Seq<char>) -> Seq<char> {
    let from = skip_white(s, 0);
    if from >= s.len() {
        Seq::empty()
    } else {
        s.subrange(from, back_white(s, s.len() as int))
    }
}

/// The text without the white space at its start and at its end.
pub fn trim(s: &[char]) -> (kept: Vec<char>)
    ensures
        kept@ == trimmed(s@),
{
    let mut from: usize = 0;
    while from < s.len() && is_white(s[from])
        invariant
            from <= s.len(),
            skip_white(s@, from as int) == skip_white(s@, 0),
        decreases s.len() - from,
    {
        from += 1;
    }
    let mut kept: Vec<char> = Vec::new();
    if from >= s.len() {
        return kept;
    }
    let mut to: usize = s.len();
    while to > from + 1 && is_white(s[to - 1])
        invariant
            from < to <= s.len(),
            !white(s@[from as int]),
            back_white(s@, to as int) == back_white(s@, s.len() as int),
        decreases to,
    {
        to -= 1;
    }
    let mut i: usize = from;
    while i < to
        invariant
            from <= i <= to <= s.len(),
            kept@ == s@.subrange(from as int, i as int),
        decreases to - i,
    {
        kept.push(s[i]);
        assert(s@.subrange(from as int, i as int).push(s@[i as int]) =~= s@.subrange(from as int, i + 1));
        i += 1;
    }
    kept
}

/// Whether a word starts at `i`: no blank stands there, and a blank or
/// nothing stands before.
pub open spec fn word_starts(s: Seq<char>, i: int) -> bool {
    0 <= i < s.len() && s[i] != ' ' && (i == 0 || s[i - 1] == ' ')
}

/// The first position from `i` on that holds a blank, or the length where
/// there is none: where the word at `i` ends.
pub open spec fn word_end(s: Seq<char>, i: int) -> int
    decreases s.len() - i,
{
    if 0 <= i < s.len() && s[i] != ' ' {
        word_end(s, i + 1)
    } else {
        i
    }
}

/// The words that start at `i` or later, in the order of the text.
pub open spec fn words_from(s: Seq<char>, i: int) -> Seq<Seq<char>>
    decreases s.len() - i,
{
    if i < 0 || i >= s.len() {
        Seq::empty()
    } else if word_starts(s, i) {
        seq![s.subrange(i, word_end(s, i))] + words_from(s, i + 1)
    } else {
        words_from(s, i + 1)
    }
}

/// The words of the text: its longest stretches without a blank, in order.
/// Only the blank separates words; other white space is part of a word.
pub open spec fn words(s: Seq<char>) -> Seq<Seq<char>> {
    words_from(s, 0)
}

/// The texts that the vectors hold.
pub open spec fn texts(words: Seq<Vec<char>>) -> Seq<Seq<char>> {
    Seq::new(words.len(), |i: int| words[i]@)
}

/// No word starts inside a word.
proof fn lemma_no_word_inside(s: Seq<char>, from: int, to: int)
    requires
        0 < from <= to <= s.len(),
        forall|k: int| from - 1 <= k < to ==> s[k] != ' ',
    ensures
        words_from(s, from) == words_from(s, to),
    decreases to - from,
{
    if from < to {
        lemma_no_word_inside(s, from + 1, to);
    }
}

/// The words of the text.
pub fn split_words(s: &[char]) -> (found: Vec<Vec<char>>)
    ensures
        texts(found@) == words(s@),
{
    let mut found: Vec<Vec<char>> = Vec::new();
    let mut i: usize = 0;
    assert(texts(found@) + words_from(s@, 0) =~= words(s@));
    while i < s.len()
        invariant
            i <= s.len(),
            i == 0 || i == s.len() || s@[i - 1] == ' ' || s@[i as int] == ' ',
            texts(found@) + words_from(s@, i as int) == words(s@),
        decreases s.len() - i,
    {
        if s[i] == ' ' {
            i += 1;
        } else {
            let ghost start = i as int;
            let ghost before = texts(found@);
            let mut word: Vec<char> = Vec::new();
            while i < s.len() && s[i] != ' '
                invariant
                    0 <= start <= i <= s.len(),
                    word@ == s@.subrange(start, i as int),
                    word_end(s@, i as int) == word_end(s@, start),
                    forall|k: int| start <= k < i ==> s@[k] != ' ',
                decreases s.len() - i,
            {
                word.push(s[i]);
                assert(s@.subrange(start, i as int).push(s@[i as int]) =~= s@.subrange(start, i + 1));
                i += 1;
            }
            found.push(word);
            proof {
                assert(word_starts(s@, start));
                assert(i == word_end(s@, start));
                if start + 1 <= i {
                    lemma_no_word_inside(s@, start + 1, i as int);
                }
                assert(texts(found@) =~= before.push(s@.subrange(start, i as int)));
                assert(texts(found@) + words_from(s@, i as int) =~= before + words_from(s@, start));
            }
        }
    }
    assert(texts(found@) + words_from(s@, i as int) =~= texts(found@));
    found
}

/// The number that a run of decimal digits stands for.
pub open spec fn digits_value(s: Seq<char>) -> int
    decreases s.len(),
{
    if s.len() == 0 {
        0
    } else {
        digits_value(s.drop_last()) * 10 + (s.last() as int - '0' as int)
    }
}

/// Whether the text is made of decimal digits alone.
pub open spec fn all_digits(s: Seq<char>) -> bool {
    forall|i: int| 0 <= i < s.len() ==> '0' <= #[trigger] s[i] <= '9'
}

/// The coordinate that a word stands for, if it stands for one: decimal
/// digits, at least one, with or without a `+` before them, that make a
/// number of at most 65535.
pub open spec fn number_of(s: Seq<char>) -> Option<u16> {
    if s.len() > 0 && s[0] == '+' {
        digits_number(s.subrange(1, s.len() as int))
    } else {
        digits_number(s)
    }
}

/// The coordinate that a run of digits stands for, if it stands for one.
pub open spec fn digits_number(digits: Seq<char>) -> Option<u16> {
    if digits.len() > 0 && all_digits(digits) && digits_value(digits) <= 0xffff {
        Some(digits_value(digits) as u16)
    } else {
        None
    }
}

/// More digits make no smaller number.
proof fn lemma_digits_grow(s: Seq<char>, n: int)
    requires
        all_digits(s),
        0 <= n <= s.len(),
    ensures
        0 <= digits_value(s.subrange(0, n)) <= digits_value(s),
    decreases s.len() - n,
{
    if n == s.len() {
        assert(s.subrange(0, n) =~= s);
        lemma_digits_positive(s);
    } else {
        lemma_digits_grow(s, n + 1);
        let longer = s.subrange(0, n + 1);
        assert(longer.drop_last() =~= s.subrange(0, n));
        assert(longer.last() == s[n]);
        lemma_digits_positive(s.subrange(0, n));
    }
}

/// Digits stand for no negative number.
proof fn lemma_digits_positive(s: Seq<char>)
    requires
        all_digits(s),
    ensures
        0 <= digits_value(s),
    decreases s.len(),
{
    if s.len() > 0 {
        lemma_digits_positive(s.drop_last());
    }
}

/// Reads a coordinate.
pub fn parse_coord(s: &[char]) -> (number: Option<u16>)
    ensures
        number == number_of(s@),
{
    let from: usize = if s.len() > 0 && s[0] == '+' {
        1
    } else {
        0
    };
    let ghost digits = s@.subrange(from as int, s.len() as int);
    assert(number_of(s@) == digits_number(digits)) by {
        if from == 0 {
            assert(digits =~= s@);
        }
    }
    if from >= s.len() {
        return None;
    }
    let mut value: u32 = 0;
    let mut i: usize = from;
    assert(digits.subrange(0, 0) =~= Seq::<char>::empty());
    while i < s.len()
        invariant
            from <= i <= s.len(),
            digits == s@.subrange(from as int, s.len() as int),
            number_of(s@) == digits_number(digits),
            all_digits(digits.subrange(0, i - from)),
            value == digits_value(digits.subrange(0, i - from)),
            value <= 0xffff,
        decreases s.len() - i,
    {
        let c = s[i];
        let ghost read = digits.subrange(0, i - from);
        let ghost more = digits.subrange(0, i + 1 - from);
        proof {
            assert(more.drop_last() =~= read);
            assert(more.last() == c);
        }
        if c < '0' || c > '9' {
            assert(!all_digits(digits)) by {
                assert(digits[i - from] == c);
            }
            return None;
        }
        let digit: u32 = c as u32 - '0' as u32;
        value = value * 10 + digit;
        proof {
            assert(all_digits(more)) by {
                assert forall|k: int| 0 <= k < more.len() implies '0' <= #[trigger] more[k] <= '9' by {
                    if k < read.len() {
                        assert(more[k] == read[k]);
                    }
                }
            }
        }
        if value > 0xffff {
            proof {
                if all_digits(digits) {
                    lemma_digits_grow(digits, i + 1 - from);
                }
            }
            return None;
        }
        i += 1;
    }
    assert(digits.subrange(0, i - from) =~= digits);
    Some(value as u16)
}

/// What the player asks of the board, with the coordinate of the cell.
#[derive(Debug, Clone, Copy, PartialEq, Eq, Structural)]
pub enum Action {
    Reveal(u16, u16),
    Flag(u16, u16),
    Chord(u16, u16),
}

/// What a line of input comes to.
#[derive(Debug, Clone, Copy, PartialEq, Eq, Structural)]
pub enum Reply {
    /// The line names a cell: do this.
    Selected(Action),
    /// The line holds this many words, the mark aside, where two are wanted.
    WrongInputCount(usize),
    /// Of the two words of the line this many are coordinates.
    WrongCoordsCount(usize),
}

/// What the player has asked for by a mark before the coordinates: `f` for
/// a flag, `c` for a chord. A mark is kept when the rest of its line is
/// refused, and holds for the lines that follow until one names a cell.
#[derive(Debug, Clone, Copy, PartialEq, Eq, Structural)]
pub struct Prompt {
    pub flag: bool,
    pub chord: bool,
}

/// The position that the player means by a number: the player counts from
/// 1, the board from 0, and a 0 is taken for a 1.
pub open spec fn index_of(typed: u16) -> u16 {
    if typed > 0 {
        (typed - 1) as u16
    } else {
        0
    }
}

/// Whether the word, white space at its ends aside, is the one letter `mark`.
pub open spec fn is_mark(word: Seq<char>, mark: char) -> bool {
    trimmed(word).len() == 1 && trimmed(word)[0] == mark
}

/// The marks after the first word of a line was heard.
pub open spec fn heard(prompt: Prompt, all: Seq<Seq<char>>) -> Prompt {
    if all.len() > 0 && is_mark(all[0], 'f') {
        Prompt { flag: true, chord: prompt.chord }
    } else if all.len() > 0 && is_mark(all[0], 'c') {
        Prompt { flag: prompt.flag, chord: true }
    } else {
        prompt
    }
}

/// The words of a line that are left once a mark was taken from its start.
pub open spec fn unmarked(all: Seq<Seq<char>>) -> Seq<Seq<char>> {
    if all.len() > 0 && (is_mark(all[0], 'f') || is_mark(all[0], 'c')) {
        all.subrange(1, all.len() as int)
    } else {
        all
    }
}

/// The action on the cell that the player means by the numbers `first` and
/// `second`: the first counts along a line of the printed board, the second
/// counts the lines. A flag mark goes before a chord mark.
pub open spec fn action_for(prompt: Prompt, first: u16, second: u16) -> Action {
    if prompt.flag {
        Action::Flag(index_of(second), index_of(first))
    } else if prompt.chord {
        Action::Chord(index_of(second), index_of(first))
    } else {
        Action::Reveal(index_of(second), index_of(first))
    }
}

/// What a line comes to, and the marks that hold after it.
///
/// The line is trimmed and cut into words. A first word `f` or `c` sets the
/// mark and is taken away. Two words must be left, and both must be
/// coordinates; then the line names a cell and the marks are spent.
pub open spec fn respond(prompt: Prompt, line: Seq<char>) -> (Prompt, Reply) {
    let all = words(trimmed(line));
    let marks = heard(prompt, all);
    let rest = unmarked(all);
    if rest.len() != 2 {
        (marks, Reply::WrongInputCount(rest.len() as usize))
    } else {
        match (number_of(trimmed(rest[0])), number_of(trimmed(rest[1]))) {
            (Some(first), Some(second)) => (
                Prompt { flag: false, chord: false },
                Reply::Selected(action_for(marks, first, second)),
            ),
            (None, None) => (marks, Reply::WrongCoordsCount(0)),
            _ => (marks, Reply::WrongCoordsCount(1)),
        }
    }
}

/// The position that the player means by a number.
pub fn to_index(typed: u16) -> (index: u16)
    ensures
        index == index_of(typed),
{
    if typed > 0 {
        typed - 1
    } else {
        typed
    }
}

/// Whether the word, white space at its ends aside, is the one letter `mark`.
pub fn has_mark(word: &[char], mark: char) -> (found: bool)
    ensures
        found == is_mark(word@, mark),
{
    let kept = trim(word);
    kept.len() == 1 && kept[0] == mark
}

impl Prompt {
    /// No mark.
    pub fn new() -> (prompt: Prompt)
        ensures
            prompt == (Prompt { flag: false, chord: false }),
    {
        Prompt { flag: false, chord: false }
    }

    /// The action on the cell that the player means by the two numbers.
    pub fn action(&self, first: u16, second: u16) -> (action: Action)
        ensures
            action == action_for(*self, first, second),
    {
        let x = to_index(second);
        let y = to_index(first);
        if self.flag {
            Action::Flag(x, y)
        } else if self.chord {
            Action::Chord(x, y)
        } else {
            Action::Reveal(x, y)
        }
    }

    /// Takes a line of input, and says what it comes to.
    pub fn feed(&mut self, line: &[char]) -> (reply: Reply)
        ensures
            (*final(self), reply) == respond(*old(self), line@),
    {
        let kept = trim(line);
        let all = split_words(kept.as_slice());
        let ghost heard_all = texts(all@);
        let mut first: usize = 0;
        if all.len() > 0 {
            assert(heard_all[0] == all@[0]@);
            if has_mark(all[0].as_slice(), 'f') {
                self.flag = true;
                first = 1;
            } else if has_mark(all[0].as_slice(), 'c') {
                self.chord = true;
                first = 1;
            }
        }
        let ghost rest = unmarked(heard_all);
        assert(rest.len() == all.len() - first);
        if all.len() - first != 2 {
            return Reply::WrongInputCount(all.len() - first);
        }
        assert(rest[0] == all@[first as int]@ && rest[1] == all@[first + 1]@);
        let one = parse_coord(trim(all[first].as_slice()).as_slice());
        let two = parse_coord(trim(all[first + 1].as_slice()).as_slice());
        match (one, two) {
            (Some(a), Some(b)) => {
                let action = self.action(a, b);
                self.flag = false;
                self.chord = false;
                Reply::Selected(action)
            },
            (None, None) => Reply::WrongCoordsCount(0),
            _ => Reply::WrongCoordsCount(1),
        }
    }
}

} // verus!
