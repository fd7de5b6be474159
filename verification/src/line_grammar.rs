//! The grammar of one emulator log line: a class in square brackets, a level
//! word in angle brackets, and the message, as in `[Core] <Info> booting`.
//!
//! A line is read the way the pattern `^\[(.*?)]\s?<(.*?)>\s?(.*)$` reads it:
//! the class ends at the first `]` after which the rest still fits, the level
//! word at the first `>` after which the rest still fits, one whitespace
//! character may follow each closing bracket, and no captured part holds a
//! line feed.

use crate::chars::{char_is_space, is_space, to_chars};
use vstd::prelude::*;
use vstd::string::*;

verus! {

/// The three captured parts of a line.
pub struct LineParts {
    pub class: Seq<char>,
    pub level_word: Seq<char>,
    pub message: Seq<char>,
}

/// No line feed stands in `l[from..to]`.
pub open spec fn no_newline(l: Seq<char>, from: int, to: int) -> bool {
    forall|k: int| from <= k < to ==> l[k] != '\n'
}

/// The position after the optional whitespace character at `p`.
pub open spec fn skip_space(l: Seq<char>, p: int) -> int {
    if 0 <= p < l.len() && is_space(l[p]) {
        p + 1
    } else {
        p
    }
}

/// `l` fits the grammar with the class closed by the `]` at `i` and the level
/// word closed by the `>` at `j`.
pub open spec fn splits_at(l: Seq<char>, i: int, j: int) -> bool {
    let open = skip_space(l, i + 1);
    &&& 0 < i < l.len()
    &&& l[0] == '['
    &&& l[i] == ']'
    &&& no_newline(l, 1, i)
    &&& open < j < l.len()
    &&& l[open] == '<'
    &&& l[j] == '>'
    &&& no_newline(l, open + 1, j)
    &&& no_newline(l, skip_space(l, j + 1), l.len() as int)
}

/// `(i, j)` is the split the grammar settles on: the shortest class, and for
/// it the shortest level word.
pub open spec fn is_first_split(l: Seq<char>, i: int, j: int) -> bool {
    &&& splits_at(l, i, j)
    &&& forall|i2: int, j2: int| #[trigger]
        splits_at(l, i2, j2) ==> i < i2 || (i == i2 && j <= j2)
}

/// Whether `l` fits the grammar at all.
pub open spec fn is_log_line(l: Seq<char>) -> bool {
    exists|i: int, j: int| splits_at(l, i, j)
}

/// The parts that the split `(i, j)` captures.
pub open spec fn parts_at(l: Seq<char>, i: int, j: int) -> LineParts {
    LineParts {
        class: l.subrange(1, i),
        level_word: l.subrange(skip_space(l, i + 1) + 1, j),
        message: l.subrange(skip_space(l, j + 1), l.len() as int),
    }
}

/// What the grammar captures from `l`, if it fits.
pub open spec fn line_parts(l: Seq<char>) -> Option<LineParts> {
    if exists|i: int, j: int| is_first_split(l, i, j) {
        let (i, j) = choose|i: int, j: int| is_first_split(l, i, j);
        Some(parts_at(l, i, j))
    } else {
        None
    }
}

/// A line has at most one first split.
pub proof fn lemma_first_split_unique(l: Seq<char>, i: int, j: int, i2: int, j2: int)
    requires
        is_first_split(l, i, j),
        is_first_split(l, i2, j2),
    ensures
        i == i2,
        j == j2,
{
}

/// A line that fits the grammar has a first split, so [`line_parts`] captures
/// from every line that fits and from no other.
pub proof fn lemma_fitting_line_has_parts(l: Seq<char>)
    ensures
        is_log_line(l) <==> line_parts(l) is Some,
{
    if is_log_line(l) {
        let (i0, j0) = choose|i: int, j: int| splits_at(l, i, j);
        let i = least_class_end(l, i0, j0, 1);
        let jw = choose|j: int| splits_at(l, i, j);
        let j = least_level_end(l, i, jw, 0);
        assert(is_first_split(l, i, j));
    } else {
        assert forall|i: int, j: int| !is_first_split(l, i, j) by {
            if is_first_split(l, i, j) {
                assert(splits_at(l, i, j));
            }
        }
    }
}

/// The least class end at or after `from` for which some level end exists,
/// given that `(i0, j0)` is a split with `from <= i0`.
proof fn least_class_end(l: Seq<char>, i0: int, j0: int, from: int) -> (i: int)
    requires
        splits_at(l, i0, j0),
        0 <= from <= i0,
        forall|a: int, b: int| a < from ==> !#[trigger] splits_at(l, a, b),
    ensures
        exists|j: int| splits_at(l, i, j),
        forall|a: int, b: int| a < i ==> !#[trigger] splits_at(l, a, b),
    decreases i0 - from,
{
    if exists|j: int| splits_at(l, from, j) {
        from
    } else {
        assert(from != i0);
        least_class_end(l, i0, j0, from + 1)
    }
}

/// The least level end at or after `from` for the class end `i`, given that
/// `(i, j0)` is a split with `from <= j0`.
proof fn least_level_end(l: Seq<char>, i: int, j0: int, from: int) -> (j: int)
    requires
        splits_at(l, i, j0),
        0 <= from <= j0,
        forall|b: int| b < from ==> !#[trigger] splits_at(l, i, b),
    ensures
        splits_at(l, i, j),
        forall|b: int| b < j ==> !#[trigger] splits_at(l, i, b),
    decreases j0 - from,
{
    if splits_at(l, i, from) {
        from
    } else {
        least_level_end(l, i, j0, from + 1)
    }
}

/// Finds the split that the grammar settles on.
pub fn find_split(line: &Vec<char>) -> (r: Option<(usize, usize)>)
    ensures
        match r {
            Some((i, j)) => is_first_split(line@, i as int, j as int),
            None => !is_log_line(line@),
        },
{
    let n = line.len();
    if n == 0 || line[0] != '[' {
        return None;
    }
    // Everything from `tail` on is free of line feeds, and nothing before is.
    let mut tail: usize = n;
    while tail > 0 && line[tail - 1] != '\n'
        invariant
            tail <= n == line.len(),
            no_newline(line@, tail as int, n as int),
        decreases tail,
    {
        tail -= 1;
    }
    let mut i: usize = 1;
    while i < n
        invariant
            1 <= i <= n == line.len(),
            tail <= n,
            line[0] == '[',
            no_newline(line@, tail as int, n as int),
            tail > 0 ==> line[tail - 1] == '\n',
            no_newline(line@, 1, i as int),
            forall|a: int, b: int| a < i ==> !#[trigger] splits_at(line@, a, b),
        decreases n - i,
    {
        if line[i] == '\n' {
            assert forall|a: int, b: int| !#[trigger] splits_at(line@, a, b) by {
                if a > i {
                    assert(!no_newline(line@, 1, a));
                }
            }
            return None;
        }
        if line[i] == ']' {
            let open = if i + 1 < n && char_is_space(line[i + 1]) {
                i + 2
            } else {
                i + 1
            };
            assert(open == skip_space(line@, i + 1));
            if open < n && line[open] == '<' {
                let mut j: usize = open + 1;
                let mut word_open = true;
                while word_open && j < n
                    invariant
                        open < j <= n == line.len(),
                        0 < i < n,
                        tail <= n,
                        line[0] == '[',
                        line[i as int] == ']',
                        line[open as int] == '<',
                        open == skip_space(line@, i + 1),
                        no_newline(line@, 1, i as int),
                        no_newline(line@, tail as int, n as int),
                        tail > 0 ==> line[tail - 1] == '\n',
                        forall|a: int, b: int| a < i ==> !#[trigger] splits_at(line@, a, b),
                        word_open ==> no_newline(line@, open + 1, j as int),
                        word_open ==> forall|b: int| b < j ==> !#[trigger] splits_at(line@, i as int, b),
                        !word_open ==> forall|b: int| !#[trigger] splits_at(line@, i as int, b),
                    decreases n - j,
                {
                    if line[j] == '\n' {
                        assert forall|b: int| !#[trigger] splits_at(line@, i as int, b) by {
                            if b > j {
                                assert(!no_newline(line@, open + 1, b));
                            }
                        }
                        word_open = false;
                        j = n;
                    } else {
                        if line[j] == '>' {
                            let rest = if j + 1 < n && char_is_space(line[j + 1]) {
                                j + 2
                            } else {
                                j + 1
                            };
                            assert(rest == skip_space(line@, j + 1));
                            if rest >= tail {
                                assert(splits_at(line@, i as int, j as int));
                                return Some((i, j));
                            }
                            assert(!no_newline(line@, rest as int, n as int));
                        }
                        j += 1;
                    }
                }
            }
        }
        i += 1;
    }
    assert forall|a: int, b: int| !#[trigger] splits_at(line@, a, b) by {}
    None
}

/// The captured parts of a line, as owned text.
pub struct ParsedLine {
    pub class: String,
    pub level_word: String,
    pub message: String,
}

impl View for ParsedLine {
    type V = LineParts;

    open spec fn view(&self) -> LineParts {
        LineParts { class: self.class@, level_word: self.level_word@, message: self.message@ }
    }
}

/// Reads one line by the grammar: its three parts if it fits, `None` if it
/// does not.
pub fn parse_line(line: &str) -> (r: Option<ParsedLine>)
    ensures
        match r {
            Some(p) => line_parts(line@) == Some(p@),
            None => line_parts(line@) is None,
        },
{
    let chars = to_chars(line);
    proof {
        lemma_fitting_line_has_parts(line@);
    }
    match find_split(&chars) {
        None => None,
        Some((i, j)) => {
            let n = chars.len();
            let open = if i + 1 < n && char_is_space(chars[i + 1]) {
                i + 2
            } else {
                i + 1
            };
            let rest = if j + 1 < n && char_is_space(chars[j + 1]) {
                j + 2
            } else {
                j + 1
            };
            proof {
                let (ci, cj) = choose|a: int, b: int| is_first_split(line@, a, b);
                lemma_first_split_unique(line@, i as int, j as int, ci, cj);
            }
            let class = line.substring_char(1, i).to_owned();
            let level_word = line.substring_char(open + 1, j).to_owned();
            let message = line.substring_char(rest, n).to_owned();
            Some(ParsedLine { class, level_word, message })
        },
    }
}

} // verus!
