//! The logging specification of the launcher itself: a comma-separated list
//! of directives such as `info`, `tauri=warn` or `shadps4_launcher::psf`,
//! each a level for everything, a level for one target, or a target alone.

use crate::chars::{char_is_space, is_space, to_chars};
use vstd::prelude::*;
use vstd::string::*;

verus! {

/// How much a logger lets through.
#[derive(Clone, Copy, Debug, PartialEq, Eq, Structural)]
pub enum LevelFilter {
    Off,
    Error,
    Warn,
    Info,
    Debug,
    Trace,
}

/// One directive: a level, for the target `name` or, without a name, for
/// everything.
#[derive(Clone, Debug, PartialEq, Eq)]
pub struct Directive {
    pub name: Option<String>,
    pub level: LevelFilter,
}

/// A [`Directive`] as a mathematical value.
pub struct DirectiveView {
    pub name: Option<Seq<char>>,
    pub level: LevelFilter,
}

impl View for Directive {
    type V = DirectiveView;

    open spec fn view(&self) -> DirectiveView {
        DirectiveView {
            name: match self.name {
                Some(name) => Some(name@),
                None => None,
            },
            level: self.level,
        }
    }
}

/// What a specification holds: its directives in order, and a message for
/// each part that is none.
#[derive(Debug, PartialEq, Eq)]
pub struct ParseResult {
    pub directives: Vec<Directive>,
    pub errors: Vec<String>,
}

/// What one part of a specification comes to.
pub enum Outcome {
    /// The part is a directive.
    Directive(DirectiveView),
    /// The part is refused, with this message.
    Error(Seq<char>),
    /// The part is blank.
    Skipped,
}

/// `c` with an ASCII capital letter replaced by its small letter.
pub open spec fn ascii_lower(c: char) -> char {
    if 0x41 <= c as u32 <= 0x5A {
        ((c as u32) + 0x20) as char
    } else {
        c
    }
}

/// Whether `a` and `b` are the same but for the case of ASCII letters.
pub open spec fn eq_ignore_ascii_case(a: Seq<char>, b: Seq<char>) -> bool {
    a.len() == b.len() && forall|i: int| 0 <= i < a.len() ==> ascii_lower(a[i]) == ascii_lower(b[i])
}

/// The level filter that `word` names, in any case of letters.
pub open spec fn level_filter_of(word: Seq<char>) -> Option<LevelFilter> {
    if eq_ignore_ascii_case(word, "OFF"@) {
        Some(LevelFilter::Off)
    } else if eq_ignore_ascii_case(word, "ERROR"@) {
        Some(LevelFilter::Error)
    } else if eq_ignore_ascii_case(word, "WARN"@) {
        Some(LevelFilter::Warn)
    } else if eq_ignore_ascii_case(word, "INFO"@) {
        Some(LevelFilter::Info)
    } else if eq_ignore_ascii_case(word, "DEBUG"@) {
        Some(LevelFilter::Debug)
    } else if eq_ignore_ascii_case(word, "TRACE"@) {
        Some(LevelFilter::Trace)
    } else {
        None
    }
}

/// Parses `word` with the `FromStr` of `log::LevelFilter`, which goes through
/// the names `OFF`, `ERROR`, `WARN`, `INFO`, `DEBUG`, `TRACE` in this order
/// and takes the first that equals `word` by `eq_ignore_ascii_case`; with
/// none it fails. The variant found is handed back as the variant of the
/// same name.
#[verifier::external_body]
fn parse_level_filter(word: &str) -> (r: Option<LevelFilter>)
    ensures
        r == level_filter_of(word@),
{
    match word.parse::<log::LevelFilter>() {
        Ok(log::LevelFilter::Off) => Some(LevelFilter::Off),
        Ok(log::LevelFilter::Error) => Some(LevelFilter::Error),
        Ok(log::LevelFilter::Warn) => Some(LevelFilter::Warn),
        Ok(log::LevelFilter::Info) => Some(LevelFilter::Info),
        Ok(log::LevelFilter::Debug) => Some(LevelFilter::Debug),
        Ok(log::LevelFilter::Trace) => Some(LevelFilter::Trace),
        Err(_) => None,
    }
}

/// The first position from `from` on at which `c` stands in `s`, or the
/// length of `s` if there is none.
pub open spec fn find(s: Seq<char>, c: char, from: int) -> int
    decreases s.len() - from,
{
    if from < 0 || from >= s.len() || s[from] == c {
        from
    } else {
        find(s, c, from + 1)
    }
}

/// The first position from `from` on at which no whitespace stands in `s`, or
/// the length of `s`.
pub open spec fn skip_spaces(s: Seq<char>, from: int) -> int
    decreases s.len() - from,
{
    if from < 0 || from >= s.len() || !is_space(s[from]) {
        from
    } else {
        skip_spaces(s, from + 1)
    }
}

/// The end of `s[floor..to]` once the whitespace at its end is taken off.
pub open spec fn drop_spaces(s: Seq<char>, floor: int, to: int) -> int
    decreases to - floor,
{
    if to <= floor || to <= 0 || to > s.len() || !is_space(s[to - 1]) {
        to
    } else {
        drop_spaces(s, floor, to - 1)
    }
}

/// `s` without the whitespace at its start and at its end.
pub open spec fn trim(s: Seq<char>) -> Seq<char> {
    let from = skip_spaces(s, 0);
    s.subrange(from, drop_spaces(s, from, s.len() as int))
}

/// The message for a part that is refused.
pub open spec fn invalid(part: Seq<char>) -> Seq<char> {
    "invalid logging spec '"@ + part + "'"@
}

/// What the part `raw` comes to. Trimmed, it is a level for everything
/// (`warn`), a target alone at the most verbose level (`tauri`, `tauri=`), a
/// target with its level (`tauri=warn`), or refused: for a level that is
/// none, or for a second `=`.
pub open spec fn outcome(raw: Seq<char>) -> Outcome {
    let part = trim(raw);
    let eq = find(part, '=', 0);
    if part.len() == 0 {
        Outcome::Skipped
    } else if eq >= part.len() {
        match level_filter_of(part) {
            Some(level) => Outcome::Directive(DirectiveView { name: None, level }),
            None => Outcome::Directive(
                DirectiveView { name: Some(part), level: LevelFilter::Trace },
            ),
        }
    } else if find(part, '=', eq + 1) < part.len() {
        Outcome::Error(invalid(part))
    } else {
        let name = part.subrange(0, eq);
        let word = trim(part.subrange(eq + 1, part.len() as int));
        if word.len() == 0 {
            Outcome::Directive(DirectiveView { name: Some(name), level: LevelFilter::Trace })
        } else {
            match level_filter_of(word) {
                Some(level) => Outcome::Directive(DirectiveView { name: Some(name), level }),
                None => Outcome::Error(invalid(word)),
            }
        }
    }
}

/// The directives of the parts of `s` that start at `from` or later, where
/// commas separate the parts.
pub open spec fn directives_from(s: Seq<char>, from: int) -> Seq<DirectiveView>
    decreases s.len() - from,
{
    let stop = find(s, ',', from);
    let here = match outcome(s.subrange(from, stop)) {
        Outcome::Directive(d) => seq![d],
        _ => Seq::empty(),
    };
    if 0 <= from <= stop < s.len() {
        here + directives_from(s, stop + 1)
    } else {
        here
    }
}

/// The messages for the refused parts of `s` that start at `from` or later.
pub open spec fn errors_from(s: Seq<char>, from: int) -> Seq<Seq<char>>
    decreases s.len() - from,
{
    let stop = find(s, ',', from);
    let here = match outcome(s.subrange(from, stop)) {
        Outcome::Error(message) => seq![message],
        _ => Seq::empty(),
    };
    if 0 <= from <= stop < s.len() {
        here + errors_from(s, stop + 1)
    } else {
        here
    }
}

/// The directives of `directives` as mathematical values.
pub open spec fn directives_view(directives: Seq<Directive>) -> Seq<DirectiveView> {
    directives.map_values(|d: Directive| d@)
}

/// The texts of `texts` as mathematical values.
pub open spec fn texts_view(texts: Seq<String>) -> Seq<Seq<char>> {
    texts.map_values(|t: String| t@)
}

fn find_char(v: &Vec<char>, c: char, from: usize) -> (at: usize)
    requires
        from <= v.len(),
    ensures
        at == find(v@, c, from as int),
        from <= at <= v.len(),
{
    let n = v.len();
    let mut at: usize = from;
    while at < n && v[at] != c
        invariant
            from <= at <= n == v.len(),
            find(v@, c, at as int) == find(v@, c, from as int),
        decreases n - at,
    {
        at += 1;
    }
    at
}

fn trim_bounds(v: &Vec<char>) -> (r: (usize, usize))
    ensures
        r.0 == skip_spaces(v@, 0),
        r.1 == drop_spaces(v@, r.0 as int, v.len() as int),
        r.0 <= r.1 <= v.len(),
{
    let n = v.len();
    let mut from: usize = 0;
    while from < n && char_is_space(v[from])
        invariant
            from <= n == v.len(),
            skip_spaces(v@, from as int) == skip_spaces(v@, 0),
        decreases n - from,
    {
        from += 1;
    }
    let mut to: usize = n;
    while to > from && char_is_space(v[to - 1])
        invariant
            from <= to <= n == v.len(),
            drop_spaces(v@, from as int, to as int) == drop_spaces(v@, from as int, n as int),
        decreases to,
    {
        to -= 1;
    }
    (from, to)
}

fn trimmed(s: &str) -> (t: &str)
    ensures
        t@ == trim(s@),
{
    let v = to_chars(s);
    let (from, to) = trim_bounds(&v);
    s.substring_char(from, to)
}

fn refusal(part: &str) -> (message: String)
    ensures
        message@ == invalid(part@),
{
    let mut message = "invalid logging spec '".to_owned();
    message.append(part);
    message.append("'");
    message
}

/// What one part of a specification comes to, as values.
#[derive(Debug, PartialEq, Eq)]
pub enum Parsed {
    Directive(Directive),
    Error(String),
    Skipped,
}

impl View for Parsed {
    type V = Outcome;

    open spec fn view(&self) -> Outcome {
        match self {
            Parsed::Directive(d) => Outcome::Directive(d@),
            Parsed::Error(message) => Outcome::Error(message@),
            Parsed::Skipped => Outcome::Skipped,
        }
    }
}

/// Reads one part of a specification, that is, what stands between two
/// commas.
pub fn parse_part(raw: &str) -> (r: Parsed)
    ensures
        r@ == outcome(raw@),
{
    let part = trimmed(raw);
    let v = to_chars(part);
    let n = v.len();
    if n == 0 {
        return Parsed::Skipped;
    }
    let eq = find_char(&v, '=', 0);
    if eq >= n {
        return match parse_level_filter(part) {
            Some(level) => Parsed::Directive(Directive { name: None, level }),
            None => Parsed::Directive(
                Directive { name: Some(part.to_owned()), level: LevelFilter::Trace },
            ),
        };
    }
    if find_char(&v, '=', eq + 1) < n {
        return Parsed::Error(refusal(part));
    }
    let name = part.substring_char(0, eq).to_owned();
    let word = trimmed(part.substring_char(eq + 1, n));
    if word.unicode_len() == 0 {
        return Parsed::Directive(Directive { name: Some(name), level: LevelFilter::Trace });
    }
    match parse_level_filter(word) {
        Some(level) => Parsed::Directive(Directive { name: Some(name), level }),
        None => Parsed::Error(refusal(word)),
    }
}

/// Reads a logging specification: the directives of its parts, in order, and
/// the messages for the parts that are refused, in order. Blank parts count
/// for nothing.
pub fn parse_spec(spec: &str) -> (result: ParseResult)
    ensures
        directives_view(result.directives@) == directives_from(spec@, 0),
        texts_view(result.errors@) == errors_from(spec@, 0),
{
    let v = to_chars(spec);
    let n = v.len();
    let mut directives: Vec<Directive> = Vec::new();
    let mut errors: Vec<String> = Vec::new();
    let mut from: usize = 0;
    let mut more = true;
    assert(directives_view(directives@) + directives_from(spec@, 0) =~= directives_from(spec@, 0));
    assert(texts_view(errors@) + errors_from(spec@, 0) =~= errors_from(spec@, 0));
    while more
        invariant
            from <= n == v.len(),
            v@ == spec@,
            more ==> directives_view(directives@) + directives_from(spec@, from as int)
                == directives_from(spec@, 0),
            more ==> texts_view(errors@) + errors_from(spec@, from as int) == errors_from(
                spec@,
                0,
            ),
            !more ==> directives_view(directives@) == directives_from(spec@, 0),
            !more ==> texts_view(errors@) == errors_from(spec@, 0),
        decreases (n - from) + if more { 1int } else { 0int },
    {
        let stop = find_char(&v, ',', from);
        let ghost told = directives_view(directives@);
        let ghost refused = texts_view(errors@);
        match parse_part(spec.substring_char(from, stop)) {
            Parsed::Directive(d) => {
                directives.push(d);
                assert(directives_view(directives@) =~= told + seq![d@]);
            },
            Parsed::Error(message) => {
                errors.push(message);
                assert(texts_view(errors@) =~= refused + seq![message@]);
            },
            Parsed::Skipped => {},
        }
        proof {
            let here_d = match outcome(spec@.subrange(from as int, stop as int)) {
                Outcome::Directive(d) => seq![d],
                _ => Seq::empty(),
            };
            let here_e = match outcome(spec@.subrange(from as int, stop as int)) {
                Outcome::Error(message) => seq![message],
                _ => Seq::empty(),
            };
            assert(directives_view(directives@) =~= told + here_d);
            assert(texts_view(errors@) =~= refused + here_e);
            if stop < n {
                assert(told + (here_d + directives_from(spec@, stop + 1)) =~= (told + here_d)
                    + directives_from(spec@, stop + 1));
                assert(refused + (here_e + errors_from(spec@, stop + 1)) =~= (refused + here_e)
                    + errors_from(spec@, stop + 1));
            }
        }
        if stop < n {
            from = stop + 1;
        } else {
            more = false;
        }
    }
    ParseResult { directives, errors }
}

} // verus!
