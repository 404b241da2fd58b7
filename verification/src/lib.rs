//! A small regular-expression engine for line-oriented text search.
//!
//! A pattern is parsed into a [`matcher::Matcher`] tree, which can then be
//! evaluated against a text to find the leftmost match or all
//! non-overlapping matches.

pub mod semantics;

mod captures;

pub mod matcher;

pub mod regex_parser;

pub mod properties;

use vstd::prelude::*;
use crate::matcher::{Match, match_agrees};
use crate::regex_parser::{RegexParser, parse_spec};
use crate::semantics::all_matches_spec;

verus! {

/// When to wrap matched substrings in color escape sequences.
#[derive(Clone, Copy, Debug, PartialEq, Eq, Structural)]
pub enum ColorMode {
    Always,
    Auto,
    Never,
}

/// The search configuration the command-line driver hands to the library:
/// the pattern, the inputs, and the output options.
pub struct Config {
    pub pattern: String,
    pub files_or_dirs: Vec<String>,
    pub extended_regexp: bool,
    pub recursive: bool,
    pub only_matches: bool,
    pub color: ColorMode,
}

/// The color mode a command-line value names, or `None` for any other
/// value.
pub fn get_color_mode(s: &str) -> (r: Option<ColorMode>)
    ensures
        r == (if s@ == "always"@ {
            Some(ColorMode::Always)
        } else if s@ == "auto"@ {
            Some(ColorMode::Auto)
        } else if s@ == "never"@ {
            Some(ColorMode::Never)
        } else {
            None::<ColorMode>
        }),
{
    let sv = crate::matcher::text_chars(s);
    let always = crate::matcher::text_chars("always");
    if crate::matcher::chars_equal(&sv, &always) {
        return Some(ColorMode::Always);
    }
    let auto = crate::matcher::text_chars("auto");
    if crate::matcher::chars_equal(&sv, &auto) {
        return Some(ColorMode::Auto);
    }
    let never = crate::matcher::text_chars("never");
    if crate::matcher::chars_equal(&sv, &never) {
        return Some(ColorMode::Never);
    }
    None
}

/// All matches of `pattern` in `input_line`: the pattern is parsed and, on
/// success, searched for all non-overlapping matches; a pattern that does
/// not parse yields no matches.
pub fn match_all(input_line: &str, pattern: &str) -> (r: Vec<Match>)
    ensures
        (match parse_spec(pattern@) {
            Err(_) => r@.len() == 0,
            Ok(m) => ({
                let all = all_matches_spec(m, input_line@, 0);
                &&& r@.len() == all.len()
                &&& forall|i: int|
                    0 <= i < all.len() ==> match_agrees(#[trigger] r@[i], all[i], input_line@)
            }),
        }),
{
    let mut parser = RegexParser::new(pattern);
    match parser.parse() {
        Err(_) => Vec::new(),
        Ok(m) => m.find_all_matches(input_line),
    }
}

/// The escape sequence that starts bold red output.
pub open spec fn color_start() -> Seq<char> {
    "\x1b[1;31m"@
}

/// The escape sequence that resets the output color.
pub open spec fn color_reset() -> Seq<char> {
    "\x1b[0m"@
}

/// The spans the matches of `ms` cover: each match's offset and character
/// count.
pub open spec fn match_spans(ms: Seq<Match>) -> Seq<(int, int)> {
    Seq::new(ms.len(), |i: int| (ms[i].offset as int, ms[i].matched_text@.len() as int))
}

/// The spans lie inside a line of `n` characters, in order and without
/// overlap, from position `from` on.
pub open spec fn spans_ordered(spans: Seq<(int, int)>, from: int, n: int) -> bool {
    &&& (forall|k: int|
        0 <= k < spans.len() ==> 0 <= (#[trigger] spans[k]).0 && 0 <= spans[k].1 && spans[k].0
            + spans[k].1 <= n)
    &&& (forall|k: int| 0 <= k < spans.len() - 1 ==> (#[trigger] spans[k]).0 + spans[k].1 <= spans[
        k + 1].0)
    &&& (spans.len() > 0 ==> from <= spans[0].0)
}

/// The line from position `from` on, with each remaining span wrapped in
/// the bold-red escape sequence.
pub open spec fn colorized_from(line: Seq<char>, spans: Seq<(int, int)>, k: int, from: int) -> Seq<
    char,
>
    decreases spans.len() - k,
{
    if k < 0 || k >= spans.len() {
        line.subrange(from, line.len() as int)
    } else {
        line.subrange(from, spans[k].0) + color_start() + line.subrange(
            spans[k].0,
            spans[k].0 + spans[k].1,
        ) + color_reset() + colorized_from(line, spans, k + 1, spans[k].0 + spans[k].1)
    }
}

/// With color `Always`, the line with each matched substring wrapped in the
/// bold-red escape sequence; otherwise the line unchanged.  Offsets and
/// lengths count characters, so the line is sliced on character boundaries.
#[verifier::rlimit(50)]
pub fn colorize_line(line: &str, matches: &Vec<Match>, color_mode: &ColorMode) -> (r: String)
    requires
        color_mode is Always ==> spans_ordered(match_spans(matches@), 0, line@.len() as int),
    ensures
        color_mode is Always ==> r@ == colorized_from(line@, match_spans(matches@), 0, 0),
        !(color_mode is Always) ==> r@ == line@,
{
    match color_mode {
        ColorMode::Always => {
            let ghost spans = match_spans(matches@);
            let n = line.unicode_len();
            let mut colored_line = String::new();
            let mut last_index: usize = 0;
            let m_count = matches.len();
            for k in 0..m_count
                invariant
                    m_count == matches.len(),
                    spans == match_spans(matches@),
                    spans.len() == m_count,
                    n == line@.len(),
                    spans_ordered(spans, 0, line@.len() as int),
                    last_index <= n,
                    k < m_count ==> last_index <= spans[k as int].0,
                    colorized_from(line@, spans, 0, 0) == colored_line@ + colorized_from(
                        line@,
                        spans,
                        k as int,
                        last_index as int,
                    ),
            {
                proof {
                    assert(spans[k as int] == (matches@[k as int].offset as int, matches@[k
                        as int].matched_text@.len() as int));
                }
                let start = matches[k].offset;
                let len = matches[k].matched_text.unicode_len();
                proof {
                    assert(0 <= spans[k as int].0 && 0 <= spans[k as int].1 && spans[k as int].0
                        + spans[k as int].1 <= line@.len());
                }
                let end = start + len;
                colored_line.append(line.substring_char(last_index, start));
                colored_line.append("\x1b[1;31m"); // Start red color in bold
                colored_line.append(line.substring_char(start, end));
                colored_line.append("\x1b[0m"); // Reset color
                proof {
                    if k + 1 < m_count {
                        assert(spans[k as int].0 + spans[k as int].1 <= spans[k as int + 1].0);
                    }
                    assert(colorized_from(line@, spans, 0, 0) == colored_line@ + colorized_from(
                        line@,
                        spans,
                        k as int + 1,
                        end as int,
                    ));
                }
                last_index = end;
            }
            colored_line.append(line.substring_char(last_index, n));
            proof {
                assert(colorized_from(line@, spans, m_count as int, last_index as int) == line@
                    .subrange(last_index as int, line@.len() as int));
            }
            colored_line
        },
        _ => {
            let r = line.to_owned();
            r
        },
    }
}

} // verus!
