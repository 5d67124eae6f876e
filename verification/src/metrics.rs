//! Per-line scalar heuristics: emoji classification, indentation depth,
//! bracket nesting and keyword-based complexity and density estimates.

use crate::files::starts_with_str;
use crate::normalize::{spec_trim, trim_chars};
use crate::text::{
    chars_to_string, contains_seq, contains_str, is_white, is_whitespace_char, str_eq,
    to_char_vec,
};
use vstd::prelude::*;
use vstd::string::StringExecFns;

verus! {

/// Whether a character falls in one of the emoji code point ranges the
/// analyzer counts.
pub open spec fn spec_is_emoji(c: char) -> bool {
    let u = c as u32;
    ||| (0x1F600 <= u && u <= 0x1F64F)
    ||| (0x1F300 <= u && u <= 0x1F5FF)
    ||| (0x1F680 <= u && u <= 0x1F6FF)
    ||| (0x1F1E6 <= u && u <= 0x1F1FF)
    ||| (0x1F900 <= u && u <= 0x1F9FF)
    ||| (0x1FA70 <= u && u <= 0x1FAFF)
    ||| (0x2600 <= u && u <= 0x26FF)
    ||| (0x2700 <= u && u <= 0x27BF)
    ||| u == 0x1F004
    ||| u == 0x1F0CF
    ||| (0x1F170 <= u && u <= 0x1F251)
    ||| u == 0xFE0F
    ||| u == 0x200D
}

/// Classifies a character as an emoji by its code point range.
pub fn is_emoji(c: char) -> (r: bool)
    ensures
        r == spec_is_emoji(c),
{
    let u = c as u32;
    (0x1F600 <= u && u <= 0x1F64F) || (0x1F300 <= u && u <= 0x1F5FF) || (0x1F680 <= u && u
        <= 0x1F6FF) || (0x1F1E6 <= u && u <= 0x1F1FF) || (0x1F900 <= u && u <= 0x1F9FF) || (0x1FA70
        <= u && u <= 0x1FAFF) || (0x2600 <= u && u <= 0x26FF) || (0x2700 <= u && u <= 0x27BF) || u
        == 0x1F004 || u == 0x1F0CF || (0x1F170 <= u && u <= 0x1F251) || u == 0xFE0F || u == 0x200D
}

/// Indentation units of a line: each leading space counts 1, each leading
/// tab counts 4, and the first other character ends the run.
pub open spec fn line_indent_units(l: Seq<char>) -> int
    decreases l.len(),
{
    if l.len() == 0 {
        0
    } else if l.first() == ' ' {
        1 + line_indent_units(l.drop_first())
    } else if l.first() == '\t' {
        4 + line_indent_units(l.drop_first())
    } else {
        0
    }
}

proof fn lemma_line_indent_units_bounds(l: Seq<char>)
    ensures
        0 <= line_indent_units(l) <= 4 * l.len(),
    decreases l.len(),
{
    if l.len() > 0 {
        lemma_line_indent_units_bounds(l.drop_first());
    }
}

/// The logical indentation level of a line: leading spaces and tabs,
/// a tab counting as four spaces, divided by a four-space indent.
pub fn calculate_line_indent(line: &str) -> (r: usize)
    requires
        line_indent_units(line@) <= usize::MAX,
    ensures
        r == line_indent_units(line@) / 4,
{
    let v = to_char_vec(line);
    let n: usize = v.len();
    let mut units: usize = 0;
    let mut i: usize = 0;
    proof {
        assert(v@.skip(0) =~= v@);
    }
    while i < n
        invariant
            n == v@.len(),
            v@ == line@,
            i <= n,
            line_indent_units(line@) == units + line_indent_units(v@.skip(i as int)),
            line_indent_units(line@) <= usize::MAX,
        decreases n - i,
    {
        let ghost tail = v@.skip(i as int);
        proof {
            assert(tail.first() == v@[i as int]);
            assert(tail.drop_first() =~= v@.skip(i + 1));
            lemma_line_indent_units_bounds(tail);
            lemma_line_indent_units_bounds(v@.skip(i + 1));
        }
        let c = v[i];
        if c == ' ' {
            units = units + 1;
        } else if c == '\t' {
            units = units + 4;
        } else {
            proof {
                assert(line_indent_units(tail) == 0);
            }
            return units / 4;
        }
        i = i + 1;
    }
    proof {
        assert(line_indent_units(v@.skip(n as int)) == 0);
    }
    units / 4
}

/// Whether every character of the line is whitespace (a blank line).
pub open spec fn all_white(l: Seq<char>) -> bool {
    forall|i: int| 0 <= i < l.len() ==> is_white(#[trigger] l[i])
}

fn is_blank_line(line: &Vec<char>) -> (r: bool)
    ensures
        r == all_white(line@),
{
    let n: usize = line.len();
    let mut i: usize = 0;
    while i < n
        invariant
            n == line@.len(),
            i <= n,
            forall|k: int| 0 <= k < i ==> is_white(#[trigger] line@[k]),
        decreases n - i,
    {
        if !is_whitespace_char(line[i]) {
            return false;
        }
        i = i + 1;
    }
    true
}

/// The largest line indentation level over the non-blank lines.
pub open spec fn spec_max_indent(lines: Seq<Seq<char>>) -> int
    decreases lines.len(),
{
    if lines.len() == 0 {
        0
    } else {
        let rest = spec_max_indent(lines.drop_first());
        let cur = if all_white(lines.first()) {
            0
        } else {
            line_indent_units(lines.first()) / 4
        };
        if cur > rest {
            cur
        } else {
            rest
        }
    }
}

proof fn lemma_spec_max_indent_nonneg(lines: Seq<Seq<char>>)
    ensures
        spec_max_indent(lines) >= 0,
    decreases lines.len(),
{
    if lines.len() > 0 {
        lemma_spec_max_indent_nonneg(lines.drop_first());
        lemma_line_indent_units_bounds(lines.first());
        vstd::arithmetic::div_mod::lemma_div_pos_is_pos(line_indent_units(lines.first()), 4);
    }
}

/// The deepest logical indentation level over a file's non-blank lines.
pub fn calculate_max_indent_level(lines: &Vec<String>) -> (r: usize)
    requires
        forall|i: int|
            0 <= i < lines.deep_view().len() ==> line_indent_units(
                #[trigger] lines.deep_view()[i],
            ) <= usize::MAX,
    ensures
        r == spec_max_indent(lines.deep_view()),
{
    let ghost ls = lines.deep_view();
    let n: usize = lines.len();
    let mut best: usize = 0;
    let mut i: usize = 0;
    proof {
        assert(ls.skip(0) =~= ls);
        lemma_spec_max_indent_nonneg(ls);
    }
    while i < n
        invariant
            n == lines@.len(),
            ls == lines.deep_view(),
            ls.len() == n,
            i <= n,
            forall|k: int| 0 <= k < n ==> line_indent_units(#[trigger] ls[k]) <= usize::MAX,
            spec_max_indent(ls) == (if best >= spec_max_indent(ls.skip(i as int)) {
                best as int
            } else {
                spec_max_indent(ls.skip(i as int))
            }),
        decreases n - i,
    {
        let ghost tail = ls.skip(i as int);
        proof {
            assert(tail.first() == ls[i as int]);
            assert(ls[i as int] == lines@[i as int]@);
            assert(tail.drop_first() =~= ls.skip(i + 1));
            lemma_spec_max_indent_nonneg(tail);
            lemma_spec_max_indent_nonneg(ls.skip(i + 1));
            lemma_line_indent_units_bounds(tail.first());
            vstd::arithmetic::div_mod::lemma_div_pos_is_pos(line_indent_units(tail.first()), 4);
        }
        let v = to_char_vec(lines[i].as_str());
        if !is_blank_line(&v) {
            let ind = calculate_line_indent(lines[i].as_str());
            if ind > best {
                best = ind;
            }
        }
        i = i + 1;
    }
    proof {
        assert(ls.skip(n as int) =~= Seq::<Seq<char>>::empty());
        assert(spec_max_indent(ls.skip(n as int)) == 0);
    }
    best
}

/// The bracket-nesting change of a line: opening brackets count +1 and
/// closing ones -1, except inside string or character literals; a
/// backslash escapes the next character inside a literal.
pub open spec fn nesting_from(l: Seq<char>, change: int, in_string: bool, escape: bool) -> int
    decreases l.len(),
{
    if l.len() == 0 {
        change
    } else {
        let c = l.first();
        let rest = l.drop_first();
        if escape {
            nesting_from(rest, change, in_string, false)
        } else if c == '\\' && in_string {
            nesting_from(rest, change, in_string, true)
        } else if c == '"' || c == '\'' {
            nesting_from(rest, change, !in_string, false)
        } else if (c == '{' || c == '(' || c == '[') && !in_string {
            nesting_from(rest, change + 1, in_string, false)
        } else if (c == '}' || c == ')' || c == ']') && !in_string {
            nesting_from(rest, change - 1, in_string, false)
        } else {
            nesting_from(rest, change, in_string, false)
        }
    }
}

/// The net bracket-nesting change of one line.
pub fn count_nesting_change(line: &str) -> (r: i32)
    requires
        line@.len() <= i32::MAX,
    ensures
        r == nesting_from(line@, 0, false, false),
{
    let v = to_char_vec(line);
    let n: usize = v.len();
    let mut change: i32 = 0;
    let mut in_string: bool = false;
    let mut escape: bool = false;
    let mut i: usize = 0;
    proof {
        assert(v@.skip(0) =~= v@);
    }
    while i < n
        invariant
            n == v@.len(),
            v@ == line@,
            n <= i32::MAX,
            i <= n,
            -(i as int) <= change as int <= i as int,
            nesting_from(line@, 0, false, false) == nesting_from(
                v@.skip(i as int),
                change as int,
                in_string,
                escape,
            ),
        decreases n - i,
    {
        let ghost tail = v@.skip(i as int);
        proof {
            assert(tail.first() == v@[i as int]);
            assert(tail.drop_first() =~= v@.skip(i + 1));
        }
        let c = v[i];
        if escape {
            escape = false;
        } else if c == '\\' && in_string {
            escape = true;
        } else if c == '"' || c == '\'' {
            in_string = !in_string;
        } else if (c == '{' || c == '(' || c == '[') && !in_string {
            change = change + 1;
        } else if (c == '}' || c == ')' || c == ']') && !in_string {
            change = change - 1;
        }
        i = i + 1;
    }
    proof {
        assert(v@.skip(n as int) =~= Seq::<char>::empty());
    }
    change
}

/// Whether a line contains one of the control-flow or operator patterns
/// that raise the complexity estimate.
pub open spec fn spec_is_complexity_keyword(l: Seq<char>) -> bool {
    ||| contains_seq(l, "if "@)
    ||| contains_seq(l, "else if"@)
    ||| contains_seq(l, "while "@)
    ||| contains_seq(l, "for "@)
    ||| contains_seq(l, "switch "@)
    ||| contains_seq(l, "case "@)
    ||| contains_seq(l, "catch "@)
    ||| contains_seq(l, "&&"@)
    ||| contains_seq(l, "||"@)
    ||| contains_seq(l, "?"@)
    ||| contains_seq(l, "break "@)
    ||| contains_seq(l, "continue "@)
    ||| contains_seq(l, "return "@)
    ||| contains_seq(l, "throw "@)
}

fn kw_of(v: &Vec<char>) -> (r: bool)
    ensures
        r == spec_is_complexity_keyword(v@),
{
    contains_str(v, "if ") || contains_str(v, "else if") || contains_str(v, "while ")
        || contains_str(v, "for ") || contains_str(v, "switch ") || contains_str(v, "case ")
        || contains_str(v, "catch ") || contains_str(v, "&&") || contains_str(v, "||")
        || contains_str(v, "?") || contains_str(v, "break ") || contains_str(v, "continue ")
        || contains_str(v, "return ") || contains_str(v, "throw ")
}

/// Tests a line for the complexity-raising patterns. The character the
/// scanner currently looks at does not influence the answer.
pub fn is_complexity_keyword(line: &str, _ch: char) -> (r: bool)
    ensures
        r == spec_is_complexity_keyword(line@),
{
    let v = to_char_vec(line);
    kw_of(&v)
}


/// How many non-overlapping occurrences of `pat` the line holds, scanning
/// left to right.
pub open spec fn count_occ(l: Seq<char>, pat: Seq<char>) -> int
    decreases l.len(),
{
    if pat.len() == 0 || l.len() < pat.len() {
        0
    } else if l.subrange(0, pat.len() as int) == pat {
        1 + count_occ(l.skip(pat.len() as int), pat)
    } else {
        count_occ(l.drop_first(), pat)
    }
}

proof fn lemma_count_occ_bounds(l: Seq<char>, pat: Seq<char>)
    ensures
        0 <= count_occ(l, pat) <= l.len(),
    decreases l.len(),
{
    if !(pat.len() == 0 || l.len() < pat.len()) {
        if l.subrange(0, pat.len() as int) == pat {
            lemma_count_occ_bounds(l.skip(pat.len() as int), pat);
        } else {
            lemma_count_occ_bounds(l.drop_first(), pat);
        }
    }
}

fn match_at(v: &Vec<char>, i: usize, p: &Vec<char>) -> (r: bool)
    requires
        i + p@.len() <= v@.len(),
    ensures
        r == (v@.subrange(i as int, i + p@.len()) == p@),
{
    let m: usize = p.len();
    let nv: usize = v.len();
    let mut j: usize = 0;
    while j < m
        invariant
            m == p@.len(),
            nv == v@.len(),
            i + m <= v@.len(),
            j <= m,
            forall|k: int| 0 <= k < j ==> v@[i + k] == p@[k],
        decreases m - j,
    {
        if v[i + j] != p[j] {
            proof {
                assert(v@.subrange(i as int, i + p@.len())[j as int] == v@[i + j]);
            }
            return false;
        }
        j = j + 1;
    }
    proof {
        assert(v@.subrange(i as int, i + p@.len()) =~= p@);
    }
    true
}

/// Counts the non-overlapping occurrences of a pattern.
pub fn count_pat(v: &Vec<char>, pat: &str) -> (r: usize)
    ensures
        r == count_occ(v@, pat@),
{
    let p = to_char_vec(pat);
    let m: usize = p.len();
    let n: usize = v.len();
    let mut cnt: usize = 0;
    let mut i: usize = 0;
    proof {
        assert(v@.skip(0) =~= v@);
    }
    if m == 0 {
        proof {
            assert(count_occ(v@, pat@) == 0);
        }
        return 0;
    }
    while i < n
        invariant
            m == pat@.len() == p@.len(),
            p@ == pat@,
            m >= 1,
            n == v@.len(),
            i <= n,
            cnt <= i,
            count_occ(v@, pat@) == cnt + count_occ(v@.skip(i as int), pat@),
        decreases n - i,
    {
        let ghost tail = v@.skip(i as int);
        proof {
            lemma_count_occ_bounds(tail, pat@);
            lemma_count_occ_bounds(v@.skip(i + 1), pat@);
        }
        if m <= n - i && match_at(v, i, &p) {
            proof {
                assert(tail.subrange(0, m as int) =~= v@.subrange(i as int, i + m));
                assert(tail.skip(m as int) =~= v@.skip(i + m));
                assert(count_occ(tail, pat@) == 1 + count_occ(v@.skip(i + m), pat@));
                lemma_count_occ_bounds(v@.skip(i + m), pat@);
            }
            cnt = cnt + 1;
            i = i + m;
        } else {
            proof {
                if m <= n - i {
                    assert(tail.subrange(0, m as int) =~= v@.subrange(i as int, i + m));
                    assert(tail.drop_first() =~= v@.skip(i + 1));
                    assert(count_occ(tail, pat@) == count_occ(v@.skip(i + 1), pat@));
                } else {
                    assert(tail.len() < m);
                    assert(count_occ(tail, pat@) == 0);
                    assert(v@.skip(i + 1).len() < m);
                    assert(count_occ(v@.skip(i + 1), pat@) == 0);
                }
            }
            i = i + 1;
        }
    }
    proof {
        assert(v@.skip(n as int).len() == 0);
        assert(count_occ(v@.skip(n as int), pat@) == 0);
    }
    cnt
}

/// The density estimate of one line: its byte length, plus 2 for each
/// operator occurrence, 3 for each keyword occurrence and 2 for each
/// parenthesis.
pub open spec fn spec_line_density(l: Seq<char>) -> int {
    vstd::utf8::encode_utf8(l).len() + 2 * (
    count_occ(l, "+"@) + count_occ(l, "-"@) + count_occ(l, "*"@) + count_occ(l, "/"@) + count_occ(
        l,
        "="@,
    ) + count_occ(l, "!"@) + count_occ(l, "<"@) + count_occ(l, ">"@) + count_occ(l, "&"@)
        + count_occ(l, "|"@) + count_occ(l, "?"@) + count_occ(l, ":"@) + count_occ(l, "."@)
        + count_occ(l, "->"@) + count_occ(l, "=>"@)) + 3 * (count_occ(l, "if"@) + count_occ(
        l,
        "else"@,
    ) + count_occ(l, "for"@) + count_occ(l, "while"@) + count_occ(l, "match"@) + count_occ(
        l,
        "switch"@,
    ) + count_occ(l, "case"@) + count_occ(l, "return"@) + count_occ(l, "throw"@)) + 2 * (count_occ(
        l,
        "("@,
    ) + count_occ(l, ")"@))
}

/// The operator, keyword and parenthesis density of one line.
pub fn calculate_line_density(line: &str) -> (r: usize)
    requires
        spec_line_density(line@) <= usize::MAX,
    ensures
        r == spec_line_density(line@),
{
    let v = to_char_vec(line);
    let blen: usize = line.as_bytes().len();
    let ops: u128 = (count_pat(&v, "+") as u128) + (count_pat(&v, "-") as u128) + (count_pat(
        &v,
        "*",
    ) as u128) + (count_pat(&v, "/") as u128) + (count_pat(&v, "=") as u128) + (count_pat(&v, "!")
        as u128) + (count_pat(&v, "<") as u128) + (count_pat(&v, ">") as u128) + (count_pat(&v, "&")
        as u128) + (count_pat(&v, "|") as u128) + (count_pat(&v, "?") as u128) + (count_pat(&v, ":")
        as u128) + (count_pat(&v, ".") as u128) + (count_pat(&v, "->") as u128) + (count_pat(
        &v,
        "=>",
    ) as u128);
    let kws: u128 = (count_pat(&v, "if") as u128) + (count_pat(&v, "else") as u128) + (count_pat(
        &v,
        "for",
    ) as u128) + (count_pat(&v, "while") as u128) + (count_pat(&v, "match") as u128) + (count_pat(
        &v,
        "switch",
    ) as u128) + (count_pat(&v, "case") as u128) + (count_pat(&v, "return") as u128) + (count_pat(
        &v,
        "throw",
    ) as u128);
    let parens: u128 = (count_pat(&v, "(") as u128) + (count_pat(&v, ")") as u128);
    let density: u128 = (blen as u128) + 2 * ops + 3 * kws + 2 * parens;
    proof {
        assert(density == spec_line_density(line@));
    }
    density as usize
}


/// One line of the complexity scan, from character `i` on, carrying the
/// running count and the comment, string and escape state. A `//` outside
/// strings and comments abandons the rest of the line; `/*` and `*/`
/// toggle the comment state; quotes toggle the string state; every other
/// character scanned outside strings and comments adds one to the count
/// when the line holds a complexity pattern (`kw`).
pub open spec fn cx_line(
    l: Seq<char>,
    i: int,
    cx: int,
    in_comment: bool,
    in_string: bool,
    escape: bool,
    kw: bool,
) -> (int, bool, bool, bool)
    decreases l.len() - i,
{
    if i < 0 || i >= l.len() {
        (cx, in_comment, in_string, escape)
    } else {
        let c = l[i];
        if escape {
            cx_line(l, i + 1, cx, in_comment, in_string, false, kw)
        } else if c == '\\' && in_string {
            cx_line(l, i + 1, cx, in_comment, in_string, true, kw)
        } else if (c == '"' || c == '\'') && !in_comment {
            cx_line(l, i + 1, cx, in_comment, !in_string, false, kw)
        } else if c == '/' && !in_string && !in_comment {
            if i + 1 < l.len() && l[i + 1] == '/' {
                (cx, in_comment, in_string, false)
            } else if i + 1 < l.len() && l[i + 1] == '*' {
                cx_line(l, i + 2, cx, true, in_string, false, kw)
            } else {
                cx_line(l, i + 1, cx, in_comment, in_string, false, kw)
            }
        } else if c == '*' && in_comment {
            if i + 1 < l.len() && l[i + 1] == '/' {
                cx_line(l, i + 2, cx, false, in_string, false, kw)
            } else {
                cx_line(l, i + 1, cx, in_comment, in_string, false, kw)
            }
        } else if !in_string && !in_comment {
            cx_line(l, i + 1, cx + (if kw { 1int } else { 0int }), in_comment, in_string, false, kw)
        } else {
            cx_line(l, i + 1, cx, in_comment, in_string, false, kw)
        }
    }
}

/// The complexity scan over whole lines: each line is trimmed, blank
/// lines are skipped, and the state carries from line to line.
pub open spec fn cx_lines(
    lines: Seq<Seq<char>>,
    cx: int,
    in_comment: bool,
    in_string: bool,
    escape: bool,
) -> (int, bool, bool, bool)
    decreases lines.len(),
{
    if lines.len() == 0 {
        (cx, in_comment, in_string, escape)
    } else {
        let t = spec_trim(lines.first());
        if t.len() == 0 {
            cx_lines(lines.drop_first(), cx, in_comment, in_string, escape)
        } else {
            let st = cx_line(t, 0, cx, in_comment, in_string, escape, spec_is_complexity_keyword(t));
            cx_lines(lines.drop_first(), st.0, st.1, st.2, st.3)
        }
    }
}

/// The complexity estimate of a file given as its lines: one, plus one
/// per character scanned outside strings and comments on lines that hold
/// a complexity pattern.
pub open spec fn spec_code_complexity(lines: Seq<Seq<char>>) -> int {
    cx_lines(lines, 1, false, false, false).0
}

proof fn lemma_cx_line_mono(
    l: Seq<char>,
    i: int,
    cx: int,
    in_comment: bool,
    in_string: bool,
    escape: bool,
    kw: bool,
)
    ensures
        cx_line(l, i, cx, in_comment, in_string, escape, kw).0 >= cx,
    decreases l.len() - i,
{
    if !(i < 0 || i >= l.len()) {
        let c = l[i];
        if escape {
            lemma_cx_line_mono(l, i + 1, cx, in_comment, in_string, false, kw);
        } else if c == '\\' && in_string {
            lemma_cx_line_mono(l, i + 1, cx, in_comment, in_string, true, kw);
        } else if (c == '"' || c == '\'') && !in_comment {
            lemma_cx_line_mono(l, i + 1, cx, in_comment, !in_string, false, kw);
        } else if c == '/' && !in_string && !in_comment {
            if i + 1 < l.len() && l[i + 1] == '/' {
            } else if i + 1 < l.len() && l[i + 1] == '*' {
                lemma_cx_line_mono(l, i + 2, cx, true, in_string, false, kw);
            } else {
                lemma_cx_line_mono(l, i + 1, cx, in_comment, in_string, false, kw);
            }
        } else if c == '*' && in_comment {
            if i + 1 < l.len() && l[i + 1] == '/' {
                lemma_cx_line_mono(l, i + 2, cx, false, in_string, false, kw);
            } else {
                lemma_cx_line_mono(l, i + 1, cx, in_comment, in_string, false, kw);
            }
        } else if !in_string && !in_comment {
            lemma_cx_line_mono(
                l,
                i + 1,
                cx + (if kw { 1int } else { 0int }),
                in_comment,
                in_string,
                false,
                kw,
            );
        } else {
            lemma_cx_line_mono(l, i + 1, cx, in_comment, in_string, false, kw);
        }
    }
}

proof fn lemma_cx_lines_mono(
    lines: Seq<Seq<char>>,
    cx: int,
    in_comment: bool,
    in_string: bool,
    escape: bool,
)
    ensures
        cx_lines(lines, cx, in_comment, in_string, escape).0 >= cx,
    decreases lines.len(),
{
    if lines.len() > 0 {
        let t = spec_trim(lines.first());
        if t.len() == 0 {
            lemma_cx_lines_mono(lines.drop_first(), cx, in_comment, in_string, escape);
        } else {
            let st = cx_line(t, 0, cx, in_comment, in_string, escape, spec_is_complexity_keyword(t));
            lemma_cx_line_mono(t, 0, cx, in_comment, in_string, escape, spec_is_complexity_keyword(t));
            lemma_cx_lines_mono(lines.drop_first(), st.0, st.1, st.2, st.3);
        }
    }
}

/// The complexity estimate of a source file given as its lines.
pub fn calculate_code_complexity(lines: &Vec<String>) -> (r: usize)
    requires
        spec_code_complexity(lines.deep_view()) <= usize::MAX,
    ensures
        r == spec_code_complexity(lines.deep_view()),
{
    let ghost ls = lines.deep_view();
    let n: usize = lines.len();
    let mut cx: usize = 1;
    let mut in_comment: bool = false;
    let mut in_string: bool = false;
    let mut escape: bool = false;
    let mut i: usize = 0;
    proof {
        assert(ls.skip(0) =~= ls);
    }
    while i < n
        invariant
            n == lines@.len(),
            ls == lines.deep_view(),
            ls.len() == n,
            i <= n,
            spec_code_complexity(ls) <= usize::MAX,
            cx_lines(ls, 1, false, false, false) == cx_lines(
                ls.skip(i as int),
                cx as int,
                in_comment,
                in_string,
                escape,
            ),
        decreases n - i,
    {
        let ghost tail = ls.skip(i as int);
        proof {
            assert(tail.first() == ls[i as int]);
            assert(ls[i as int] == lines@[i as int]@);
            assert(tail.drop_first() =~= ls.skip(i + 1));
        }
        let v = to_char_vec(lines[i].as_str());
        let t = trim_chars(&v);
        let tn: usize = t.len();
        if tn == 0 {
            proof {
                assert(cx_lines(tail, cx as int, in_comment, in_string, escape) == cx_lines(
                    ls.skip(i + 1),
                    cx as int,
                    in_comment,
                    in_string,
                    escape,
                ));
            }
        } else {
            let kw = kw_of(&t);
            let ghost tl = t@;
            let ghost kwb = kw;
            proof {
                assert(cx_lines(tail, cx as int, in_comment, in_string, escape) == {
                    let st = cx_line(tl, 0, cx as int, in_comment, in_string, escape, kwb);
                    cx_lines(ls.skip(i + 1), st.0, st.1, st.2, st.3)
                });
            }
            let mut j: usize = 0;
            while j < tn
                invariant
                    tn == t@.len(),
                    tl == t@,
                    kwb == kw,
                    kwb == spec_is_complexity_keyword(tl),
                    j <= tn,
                    spec_code_complexity(ls) <= usize::MAX,
                    ls.len() == n,
                    i < n,
                    cx_lines(ls, 1, false, false, false) == {
                        let st = cx_line(tl, j as int, cx as int, in_comment, in_string, escape, kwb);
                        cx_lines(ls.skip(i + 1), st.0, st.1, st.2, st.3)
                    },
                decreases tn - j,
            {
                let c = t[j];
                if escape {
                    proof {
                        assert(cx_line(tl, j as int, cx as int, in_comment, in_string, true, kwb)
                            == cx_line(tl, j + 1, cx as int, in_comment, in_string, false, kwb));
                    }
                    escape = false;
                    j = j + 1;
                } else if c == '\\' && in_string {
                    proof {
                        assert(cx_line(tl, j as int, cx as int, in_comment, in_string, false, kwb)
                            == cx_line(tl, j + 1, cx as int, in_comment, in_string, true, kwb));
                    }
                    escape = true;
                    j = j + 1;
                } else if (c == '"' || c == '\'') && !in_comment {
                    proof {
                        assert(cx_line(tl, j as int, cx as int, in_comment, in_string, false, kwb)
                            == cx_line(tl, j + 1, cx as int, in_comment, !in_string, false, kwb));
                    }
                    in_string = !in_string;
                    j = j + 1;
                } else if c == '/' && !in_string && !in_comment {
                    if j + 1 < tn && t[j + 1] == '/' {
                        proof {
                            assert(cx_line(tl, j as int, cx as int, in_comment, in_string, false, kwb)
                                == (cx as int, in_comment, in_string, false));
                            assert(cx_line(tl, tn as int, cx as int, in_comment, in_string, false, kwb)
                                == (cx as int, in_comment, in_string, false));
                        }
                        j = tn;
                    } else if j + 1 < tn && t[j + 1] == '*' {
                        proof {
                            assert(cx_line(tl, j as int, cx as int, in_comment, in_string, false, kwb)
                                == cx_line(tl, j + 2, cx as int, true, in_string, false, kwb));
                        }
                        in_comment = true;
                        j = j + 2;
                    } else {
                        proof {
                            assert(cx_line(tl, j as int, cx as int, in_comment, in_string, false, kwb)
                                == cx_line(tl, j + 1, cx as int, in_comment, in_string, false, kwb));
                        }
                        j = j + 1;
                    }
                } else if c == '*' && in_comment {
                    if j + 1 < tn && t[j + 1] == '/' {
                        proof {
                            assert(cx_line(tl, j as int, cx as int, in_comment, in_string, false, kwb)
                                == cx_line(tl, j + 2, cx as int, false, in_string, false, kwb));
                        }
                        in_comment = false;
                        j = j + 2;
                    } else {
                        proof {
                            assert(cx_line(tl, j as int, cx as int, in_comment, in_string, false, kwb)
                                == cx_line(tl, j + 1, cx as int, in_comment, in_string, false, kwb));
                        }
                        j = j + 1;
                    }
                } else if !in_string && !in_comment {
                    proof {
                        let add: int = if kwb { 1 } else { 0 };
                        assert(cx_line(tl, j as int, cx as int, in_comment, in_string, false, kwb)
                            == cx_line(tl, j + 1, cx as int + add, in_comment, in_string, false, kwb));
                        if kwb {
                            let st = cx_line(tl, j + 1, cx as int + 1, in_comment, in_string, false, kwb);
                            lemma_cx_line_mono(tl, j + 1, cx as int + 1, in_comment, in_string, false, kwb);
                            lemma_cx_lines_mono(ls.skip(i + 1), st.0, st.1, st.2, st.3);
                            assert(cx as int + 1 <= spec_code_complexity(ls));
                        }
                    }
                    if kw {
                        cx = cx + 1;
                    }
                    j = j + 1;
                } else {
                    proof {
                        assert(cx_line(tl, j as int, cx as int, in_comment, in_string, false, kwb)
                            == cx_line(tl, j + 1, cx as int, in_comment, in_string, false, kwb));
                    }
                    j = j + 1;
                }
            }
            proof {
                assert(cx_line(tl, tn as int, cx as int, in_comment, in_string, escape, kwb)
                    == (cx as int, in_comment, in_string, escape));
            }
        }
        i = i + 1;
    }
    proof {
        assert(ls.skip(n as int) =~= Seq::<Seq<char>>::empty());
    }
    cx
}

/// The file extensions treated as code for the complexity estimate.
pub open spec fn is_code_ext(e: Seq<char>) -> bool {
    ||| e == "rs"@
    ||| e == "c"@
    ||| e == "cpp"@
    ||| e == "cc"@
    ||| e == "cxx"@
    ||| e == "h"@
    ||| e == "hpp"@
    ||| e == "java"@
    ||| e == "js"@
    ||| e == "ts"@
    ||| e == "py"@
    ||| e == "go"@
    ||| e == "php"@
}

/// The complexity of a file with the given extension: files whose
/// extension does not mark them as code score zero.
pub fn calculate_complexity(ext: &str, lines: &Vec<String>) -> (r: usize)
    requires
        is_code_ext(ext@) ==> spec_code_complexity(lines.deep_view()) <= usize::MAX,
    ensures
        r == (if is_code_ext(ext@) {
            spec_code_complexity(lines.deep_view())
        } else {
            0int
        }),
{
    if str_eq(ext, "rs") || str_eq(ext, "c") || str_eq(ext, "cpp") || str_eq(ext, "cc") || str_eq(
        ext,
        "cxx",
    ) || str_eq(ext, "h") || str_eq(ext, "hpp") || str_eq(ext, "java") || str_eq(ext, "js")
        || str_eq(ext, "ts") || str_eq(ext, "py") || str_eq(ext, "go") || str_eq(ext, "php") {
        calculate_code_complexity(lines)
    } else {
        0
    }
}


proof fn lemma_encode_utf8_len(l: Seq<char>)
    ensures
        l.len() <= vstd::utf8::encode_utf8(l).len() <= 4 * l.len(),
    decreases l.len(),
{
    if l.len() > 0 {
        lemma_encode_utf8_len(l.drop_first());
    }
}

/// Whether the density scan counts a line: its trimmed text is non-empty
/// and opens with neither `//` nor `#`.
pub open spec fn density_counted(l: Seq<char>) -> bool {
    let t = spec_trim(l);
    t.len() > 0 && !"//"@.is_prefix_of(t) && !"#"@.is_prefix_of(t)
}

/// The density scan over whole lines, carrying the total byte count of
/// counted lines, the counted line count, the running nesting depth
/// (clamped at zero), the deepest nesting seen, and the number of lines
/// whose own density exceeds 50.
pub open spec fn density_lines(
    lines: Seq<Seq<char>>,
    tc: int,
    cl: int,
    depth: int,
    maxd: int,
    dl: int,
) -> (int, int, int, int, int)
    decreases lines.len(),
{
    if lines.len() == 0 {
        (tc, cl, depth, maxd, dl)
    } else if !density_counted(lines.first()) {
        density_lines(lines.drop_first(), tc, cl, depth, maxd, dl)
    } else {
        let t = spec_trim(lines.first());
        let tc2 = tc + vstd::utf8::encode_utf8(t).len();
        let cl2 = cl + 1;
        let ch = nesting_from(t, 0, false, false);
        let depth2: int = if depth + ch > 0 {
            depth + ch
        } else {
            0
        };
        let maxd2: int = if depth2 > maxd {
            depth2
        } else {
            maxd
        };
        let dl2: int = dl + (if spec_line_density(t) > 50 {
            1int
        } else {
            0int
        });
        density_lines(lines.drop_first(), tc2, cl2, depth2, maxd2, dl2)
    }
}

proof fn lemma_density_lines_mono(
    lines: Seq<Seq<char>>,
    tc: int,
    cl: int,
    depth: int,
    maxd: int,
    dl: int,
)
    ensures
        density_lines(lines, tc, cl, depth, maxd, dl).0 >= tc,
    decreases lines.len(),
{
    if lines.len() > 0 {
        if !density_counted(lines.first()) {
            lemma_density_lines_mono(lines.drop_first(), tc, cl, depth, maxd, dl);
        } else {
            let t = spec_trim(lines.first());
            let tc2 = tc + vstd::utf8::encode_utf8(t).len();
            let cl2 = cl + 1;
            let ch = nesting_from(t, 0, false, false);
            let depth2: int = if depth + ch > 0 {
                depth + ch
            } else {
                0
            };
            let maxd2: int = if depth2 > maxd {
                depth2
            } else {
                maxd
            };
            let dl2: int = dl + (if spec_line_density(t) > 50 {
                1int
            } else {
                0int
            });
            lemma_density_lines_mono(lines.drop_first(), tc2, cl2, depth2, maxd2, dl2);
        }
    }
}

proof fn lemma_nesting_from_bounds(l: Seq<char>, change: int, in_string: bool, escape: bool)
    ensures
        change - l.len() <= nesting_from(l, change, in_string, escape) <= change + l.len(),
    decreases l.len(),
{
    if l.len() > 0 {
        let c = l.first();
        let rest = l.drop_first();
        if escape {
            lemma_nesting_from_bounds(rest, change, in_string, false);
        } else if c == '\\' && in_string {
            lemma_nesting_from_bounds(rest, change, in_string, true);
        } else if c == '"' || c == '\'' {
            lemma_nesting_from_bounds(rest, change, !in_string, false);
        } else if (c == '{' || c == '(' || c == '[') && !in_string {
            lemma_nesting_from_bounds(rest, change + 1, in_string, false);
        } else if (c == '}' || c == ')' || c == ']') && !in_string {
            lemma_nesting_from_bounds(rest, change - 1, in_string, false);
        } else {
            lemma_nesting_from_bounds(rest, change, in_string, false);
        }
    }
}

/// The density score of a file given as its lines: the average counted
/// line length, times the deepest nesting, times the number of dense
/// lines, divided by the number of counted lines; zero without counted
/// lines.
pub open spec fn spec_code_density(lines: Seq<Seq<char>>) -> int {
    let st = density_lines(lines, 0, 0, 0, 0, 0);
    if st.1 == 0 {
        0
    } else {
        ((st.0 / st.1) * st.3 * st.4) / st.1
    }
}

/// The operator, keyword and nesting density score of a source file.
pub fn calculate_code_density(lines: &Vec<String>) -> (r: usize)
    requires
        density_lines(lines.deep_view(), 0, 0, 0, 0, 0).0 <= i32::MAX,
        forall|i: int|
            0 <= i < lines.deep_view().len() && density_counted(#[trigger] lines.deep_view()[i])
                ==> spec_line_density(spec_trim(lines.deep_view()[i])) <= usize::MAX,
        spec_code_density(lines.deep_view()) <= usize::MAX,
    ensures
        r == spec_code_density(lines.deep_view()),
{
    let ghost ls = lines.deep_view();
    let n: usize = lines.len();
    let mut tc: usize = 0;
    let mut cl: usize = 0;
    let mut depth: i64 = 0;
    let mut maxd: usize = 0;
    let mut dl: usize = 0;
    let mut i: usize = 0;
    proof {
        assert(ls.skip(0) =~= ls);
    }
    while i < n
        invariant
            n == lines@.len(),
            ls == lines.deep_view(),
            ls.len() == n,
            i <= n,
            density_lines(ls, 0, 0, 0, 0, 0).0 <= i32::MAX,
            forall|k: int|
                0 <= k < ls.len() && density_counted(#[trigger] ls[k]) ==> spec_line_density(
                    spec_trim(ls[k]),
                ) <= usize::MAX,
            0 <= depth <= tc,
            maxd <= tc,
            cl <= i,
            dl <= cl,
            density_lines(ls, 0, 0, 0, 0, 0) == density_lines(
                ls.skip(i as int),
                tc as int,
                cl as int,
                depth as int,
                maxd as int,
                dl as int,
            ),
        decreases n - i,
    {
        let ghost tail = ls.skip(i as int);
        proof {
            assert(tail.first() == ls[i as int]);
            assert(ls[i as int] == lines@[i as int]@);
            assert(tail.drop_first() =~= ls.skip(i + 1));
        }
        let v = to_char_vec(lines[i].as_str());
        let t = trim_chars(&v);
        if t.len() == 0 || starts_with_str(&t, "//") || starts_with_str(&t, "#") {
            proof {
                assert(!density_counted(tail.first()));
            }
        } else {
            let ghost tl = t@;
            let ts = chars_to_string(&t);
            proof {
                assert(density_counted(tail.first()));
                let tc2 = tc as int + vstd::utf8::encode_utf8(tl).len();
                let ch = nesting_from(tl, 0, false, false);
                let depth2: int = if depth as int + ch > 0 {
                    depth as int + ch
                } else {
                    0
                };
                let maxd2: int = if depth2 > maxd as int {
                    depth2
                } else {
                    maxd as int
                };
                let dl2: int = dl as int + (if spec_line_density(tl) > 50 {
                    1int
                } else {
                    0int
                });
                lemma_density_lines_mono(ls.skip(i + 1), tc2, cl as int + 1, depth2, maxd2, dl2);
                lemma_encode_utf8_len(tl);
                lemma_nesting_from_bounds(tl, 0, false, false);
                assert(tc2 <= i32::MAX);
            }
            let blen: usize = ts.as_str().as_bytes().len();
            let change: i32 = count_nesting_change(ts.as_str());
            tc = tc + blen;
            cl = cl + 1;
            let nd: i64 = depth + change as i64;
            depth = if nd > 0 {
                nd
            } else {
                0
            };
            if depth as usize > maxd {
                maxd = depth as usize;
            }
            let ld: usize = calculate_line_density(ts.as_str());
            if ld > 50 {
                dl = dl + 1;
            }
        }
        i = i + 1;
    }
    proof {
        assert(ls.skip(n as int) =~= Seq::<Seq<char>>::empty());
    }
    if cl == 0 {
        return 0;
    }
    let avg: usize = tc / cl;
    proof {
        vstd::arithmetic::div_mod::lemma_div_nonincreasing(tc as int, cl as int);
        assert((avg as int) * (maxd as int) <= 0x4000000000000000) by (nonlinear_arith)
            requires
                0 <= (avg as int) <= 0x80000000,
                0 <= (maxd as int) <= 0x80000000,
        ;
        assert((avg as int) * (maxd as int) * (dl as int) < 0x100000000000000000000000000000000)
            by (nonlinear_arith)
            requires
                0 <= (avg as int) * (maxd as int) <= 0x4000000000000000,
                0 <= (dl as int) <= 0xFFFFFFFFFFFFFFFF,
        ;
    }
    let score: u128 = ((avg as u128) * (maxd as u128) * (dl as u128)) / (cl as u128);
    proof {
        let st = density_lines(ls, 0, 0, 0, 0, 0);
        assert(score == ((st.0 / st.1) * st.3 * st.4) / st.1);
    }
    score as usize
}


/// How often the character `c` occurs in a line.
pub open spec fn count_char_line(l: Seq<char>, c: char) -> int
    decreases l.len(),
{
    if l.len() == 0 {
        0
    } else {
        (if l.first() == c {
            1int
        } else {
            0int
        }) + count_char_line(l.drop_first(), c)
    }
}

/// How often the character `c` occurs over all lines.
pub open spec fn count_char(lines: Seq<Seq<char>>, c: char) -> int
    decreases lines.len(),
{
    if lines.len() == 0 {
        0
    } else {
        count_char_line(lines.first(), c) + count_char(lines.drop_first(), c)
    }
}

/// How many emoji characters a line holds.
pub open spec fn count_emojis_line(l: Seq<char>) -> int
    decreases l.len(),
{
    if l.len() == 0 {
        0
    } else {
        (if spec_is_emoji(l.first()) {
            1int
        } else {
            0int
        }) + count_emojis_line(l.drop_first())
    }
}

/// How many emoji characters all lines hold together.
pub open spec fn count_emojis(lines: Seq<Seq<char>>) -> int
    decreases lines.len(),
{
    if lines.len() == 0 {
        0
    } else {
        count_emojis_line(lines.first()) + count_emojis(lines.drop_first())
    }
}

/// The distinct emoji characters that occur in the lines.
pub open spec fn emoji_char_set(lines: Seq<Seq<char>>) -> Set<char> {
    Set::new(|c: char| spec_is_emoji(c) && count_char(lines, c) > 0)
}

/// Whether `c` is an emoji of the lines that no other occurring emoji
/// outnumbers.
pub open spec fn is_top_emoji(lines: Seq<Seq<char>>, c: char) -> bool {
    &&& emoji_char_set(lines).contains(c)
    &&& forall|d: char|
        emoji_char_set(lines).contains(d) ==> count_char(lines, d) <= count_char(lines, c)
}

proof fn lemma_count_char_line_concat(a: Seq<char>, b: Seq<char>, c: char)
    ensures
        count_char_line(a + b, c) == count_char_line(a, c) + count_char_line(b, c),
    decreases a.len(),
{
    if a.len() == 0 {
        assert(a + b =~= b);
    } else {
        assert((a + b).first() == a.first());
        assert((a + b).drop_first() =~= a.drop_first() + b);
        lemma_count_char_line_concat(a.drop_first(), b, c);
    }
}

proof fn lemma_count_char_line_bounds(l: Seq<char>, c: char)
    ensures
        0 <= count_char_line(l, c) <= l.len(),
    decreases l.len(),
{
    if l.len() > 0 {
        lemma_count_char_line_bounds(l.drop_first(), c);
    }
}

proof fn lemma_count_char_nonneg(lines: Seq<Seq<char>>, c: char)
    ensures
        0 <= count_char(lines, c),
    decreases lines.len(),
{
    if lines.len() > 0 {
        lemma_count_char_line_bounds(lines.first(), c);
        lemma_count_char_nonneg(lines.drop_first(), c);
    }
}

proof fn lemma_count_char_concat(a: Seq<Seq<char>>, b: Seq<Seq<char>>, c: char)
    ensures
        count_char(a + b, c) == count_char(a, c) + count_char(b, c),
    decreases a.len(),
{
    if a.len() == 0 {
        assert(a + b =~= b);
    } else {
        assert((a + b).first() == a.first());
        assert((a + b).drop_first() =~= a.drop_first() + b);
        lemma_count_char_concat(a.drop_first(), b, c);
    }
}

proof fn lemma_count_char_line_single(x: char, c: char)
    ensures
        count_char_line(seq![x], c) == (if x == c {
            1int
        } else {
            0int
        }),
{
    assert((seq![x]).first() == x);
    assert((seq![x]).drop_first() =~= Seq::<char>::empty());
    assert(count_char_line(Seq::<char>::empty(), c) == 0);
}

proof fn lemma_count_char_single(l: Seq<char>, c: char)
    ensures
        count_char(seq![l], c) == count_char_line(l, c),
{
    assert((seq![l]).first() == l);
    assert((seq![l]).drop_first() =~= Seq::<Seq<char>>::empty());
    assert(count_char(Seq::<Seq<char>>::empty(), c) == 0);
}

proof fn lemma_count_emojis_line_bounds(l: Seq<char>)
    ensures
        0 <= count_emojis_line(l) <= l.len(),
    decreases l.len(),
{
    if l.len() > 0 {
        lemma_count_emojis_line_bounds(l.drop_first());
    }
}

proof fn lemma_count_emojis_nonneg(lines: Seq<Seq<char>>)
    ensures
        0 <= count_emojis(lines),
    decreases lines.len(),
{
    if lines.len() > 0 {
        lemma_count_emojis_line_bounds(lines.first());
        lemma_count_emojis_nonneg(lines.drop_first());
    }
}

proof fn lemma_count_char_le_emojis_line(l: Seq<char>, c: char)
    requires
        spec_is_emoji(c),
    ensures
        count_char_line(l, c) <= count_emojis_line(l),
    decreases l.len(),
{
    if l.len() > 0 {
        lemma_count_char_le_emojis_line(l.drop_first(), c);
    }
}

proof fn lemma_count_char_le_emojis(lines: Seq<Seq<char>>, c: char)
    requires
        spec_is_emoji(c),
    ensures
        count_char(lines, c) <= count_emojis(lines),
    decreases lines.len(),
{
    if lines.len() > 0 {
        lemma_count_char_le_emojis_line(lines.first(), c);
        lemma_count_char_le_emojis(lines.drop_first(), c);
    }
}

proof fn lemma_emoji_witness_line(l: Seq<char>)
    requires
        count_emojis_line(l) > 0,
    ensures
        exists|c: char| spec_is_emoji(c) && #[trigger] count_char_line(l, c) > 0,
    decreases l.len(),
{
    if spec_is_emoji(l.first()) {
        let c = l.first();
        lemma_count_char_line_bounds(l.drop_first(), c);
        assert(count_char_line(l, c) > 0);
    } else {
        lemma_emoji_witness_line(l.drop_first());
        let c = choose|c: char| spec_is_emoji(c) && #[trigger] count_char_line(l.drop_first(), c)
            > 0;
        assert(count_char_line(l, c) > 0);
    }
}

proof fn lemma_emoji_witness(lines: Seq<Seq<char>>)
    requires
        count_emojis(lines) > 0,
    ensures
        exists|c: char| spec_is_emoji(c) && #[trigger] count_char(lines, c) > 0,
    decreases lines.len(),
{
    lemma_count_emojis_line_bounds(lines.first());
    lemma_count_emojis_nonneg(lines.drop_first());
    if count_emojis_line(lines.first()) > 0 {
        lemma_emoji_witness_line(lines.first());
        let c = choose|c: char| spec_is_emoji(c) && #[trigger] count_char_line(lines.first(), c)
            > 0;
        lemma_count_char_nonneg(lines.drop_first(), c);
        assert(count_char(lines, c) > 0);
    } else {
        lemma_emoji_witness(lines.drop_first());
        let c = choose|c: char| spec_is_emoji(c) && #[trigger] count_char(lines.drop_first(), c)
            > 0;
        lemma_count_char_line_bounds(lines.first(), c);
        assert(count_char(lines, c) > 0);
    }
}

/// Counts of the emojis in a file: how many in all, how many distinct,
/// and one most frequent emoji as a string (the text `none` when the
/// file has none).
pub struct EmojiAnalysis {
    pub total: usize,
    pub unique: usize,
    pub most_common: String,
}

/// Counts the emoji characters of a file given as its lines: the total
/// number of occurrences, the number of distinct emojis, and one emoji
/// of greatest count; ties may resolve to any of the most frequent.
pub fn analyze_emojis(lines: &Vec<String>) -> (r: EmojiAnalysis)
    requires
        count_emojis(lines.deep_view()) <= usize::MAX,
    ensures
        r.total == count_emojis(lines.deep_view()),
        r.unique == emoji_char_set(lines.deep_view()).len(),
        r.total == 0 ==> r.most_common@ == "none"@,
        r.total > 0 ==> exists|c: char|
            r.most_common@ == seq![c] && #[trigger] is_top_emoji(lines.deep_view(), c),
{
    let ghost ls = lines.deep_view();
    let n: usize = lines.len();
    let mut keys: Vec<char> = Vec::new();
    let mut vals: Vec<usize> = Vec::new();
    let mut total: usize = 0;
    let mut i: usize = 0;
    proof {
        assert(ls.skip(0) =~= ls);
        assert(ls.take(0) =~= Seq::<Seq<char>>::empty());
    }
    while i < n
        invariant
            n == lines@.len(),
            ls == lines.deep_view(),
            ls.len() == n,
            i <= n,
            count_emojis(ls) <= usize::MAX,
            keys@.len() == vals@.len(),
            keys@.no_duplicates(),
            forall|k: int|
                #![trigger keys@[k]]
                #![trigger vals@[k]]
                0 <= k < keys@.len() ==> spec_is_emoji(keys@[k]) && vals@[k] >= 1 && vals@[k]
                    == count_char(ls.take(i as int), keys@[k]),
            forall|c: char|
                spec_is_emoji(c) && #[trigger] count_char(ls.take(i as int), c) > 0
                    ==> keys@.contains(c),
            count_emojis(ls) == total + count_emojis(ls.skip(i as int)),
        decreases n - i,
    {
        let ghost cur = ls.take(i as int);
        let ghost tail = ls.skip(i as int);
        proof {
            assert(tail.first() == ls[i as int]);
            assert(ls[i as int] == lines@[i as int]@);
            assert(tail.drop_first() =~= ls.skip(i + 1));
        }
        let v = to_char_vec(lines[i].as_str());
        let ghost lv = v@;
        let lvn: usize = v.len();
        let mut j: usize = 0;
        proof {
            assert(lv.skip(0) =~= lv);
            assert(lv.take(0) =~= Seq::<char>::empty());
            assert(count_emojis(tail) == count_emojis_line(lv) + count_emojis(ls.skip(i + 1)));
            assert forall|k: int|
                #![trigger keys@[k]]
                #![trigger vals@[k]]
                0 <= k < keys@.len() implies vals@[k] == count_char(cur, keys@[k])
                + count_char_line(lv.take(0), keys@[k]) by {}
        }
        while j < lvn
            invariant
                lvn == lv.len(),
                lv == v@,
                j <= lvn,
                cur == ls.take(i as int),
                ls.len() == n,
                i < n,
                lv == ls[i as int],
                count_emojis(ls) <= usize::MAX,
                keys@.len() == vals@.len(),
                keys@.no_duplicates(),
                forall|k: int|
                    #![trigger keys@[k]]
                    #![trigger vals@[k]]
                    0 <= k < keys@.len() ==> spec_is_emoji(keys@[k]) && vals@[k] >= 1 && vals@[k]
                        == count_char(cur, keys@[k]) + count_char_line(
                        lv.take(j as int),
                        keys@[k],
                    ),
                forall|c: char|
                    spec_is_emoji(c) && #[trigger] count_char(cur, c) + count_char_line(
                        lv.take(j as int),
                        c,
                    ) > 0 ==> keys@.contains(c),
                count_emojis(ls) == total + count_emojis_line(lv.skip(j as int)) + count_emojis(
                    ls.skip(i + 1),
                ),
            decreases lvn - j,
        {
            let x = v[j];
            let ghost ctail = lv.skip(j as int);
            proof {
                assert(ctail.first() == lv[j as int]);
                assert(ctail.drop_first() =~= lv.skip(j + 1));
                assert(lv.take(j + 1) =~= lv.take(j as int) + seq![x]);
                assert((seq![x]).first() == x);
                assert((seq![x]).drop_first() =~= Seq::<char>::empty());
                lemma_count_emojis_line_bounds(lv.skip(j + 1));
                lemma_count_emojis_nonneg(ls.skip(i + 1));
            }
            if is_emoji(x) {
                proof {
                    assert(count_emojis_line(ctail) == 1 + count_emojis_line(lv.skip(j + 1)));
                    assert(total + 1 <= count_emojis(ls));
                }
                total = total + 1;
                // find the running count for x, if one exists yet
                let kn: usize = keys.len();
                let mut idx: usize = kn;
                let mut t: usize = 0;
                while t < kn
                    invariant
                        kn == keys@.len(),
                        t <= kn,
                        idx == kn || (idx < kn && keys@[idx as int] == x),
                        idx == kn ==> forall|tk: int| 0 <= tk < t ==> keys@[tk] != x,
                    decreases kn - t,
                {
                    if idx == kn && keys[t] == x {
                        idx = t;
                    }
                    t = t + 1;
                }
                let ghost oldkeys = keys@;
                let ghost oldvals = vals@;
                if idx < kn {
                    proof {
                        // the stored count grows by one and stays in range
                        assert(ls.take(i as int) + ls.skip(i as int) =~= ls);
                        lemma_count_char_concat(ls.take(i as int), ls.skip(i as int), x);
                        assert(ls.skip(i as int).first() == lv);
                        assert(ls.skip(i as int).drop_first() =~= ls.skip(i + 1));
                        assert(count_char(ls.skip(i as int), x) == count_char_line(lv, x)
                            + count_char(ls.skip(i + 1), x));
                        assert(lv.take(j as int) + lv.skip(j as int) =~= lv);
                        lemma_count_char_line_concat(lv.take(j as int), lv.skip(j as int), x);
                        assert(count_char_line(ctail, x) == 1 + count_char_line(lv.skip(j + 1), x));
                        lemma_count_char_line_bounds(lv.skip(j + 1), x);
                        lemma_count_char_nonneg(ls.skip(i + 1), x);
                        lemma_count_char_le_emojis(ls, x);
                        assert(vals@[idx as int] + 1 <= count_char(ls, x));
                    }
                    let nv = vals[idx] + 1;
                    vals[idx] = nv;
                    proof {
                        assert forall|k: int|
                            #![trigger keys@[k]]
                            #![trigger vals@[k]]
                            0 <= k < keys@.len() implies spec_is_emoji(keys@[k]) && vals@[k] >= 1
                            && vals@[k] == count_char(cur, keys@[k]) + count_char_line(
                            lv.take(j + 1),
                            keys@[k],
                        ) by {
                            lemma_count_char_line_concat(lv.take(j as int), seq![x], keys@[k]);
                            lemma_count_char_line_single(x, keys@[k]);
                            if k != idx {
                                assert(keys@[k] != x);
                            }
                        }
                        assert forall|c: char| spec_is_emoji(c) && #[trigger] count_char(cur, c)
                            + count_char_line(lv.take(j + 1), c) > 0 implies keys@.contains(c) by {
                            lemma_count_char_line_concat(lv.take(j as int), seq![x], c);
                            lemma_count_char_line_single(x, c);
                            if c == x {
                                assert(keys@[idx as int] == x);
                            }
                        }
                    }
                } else {
                    proof {
                        assert(forall|tk: int| 0 <= tk < keys@.len() ==> keys@[tk] != x);
                        assert(!keys@.contains(x));
                        // a character the map misses has count zero so far
                        lemma_count_char_nonneg(cur, x);
                        lemma_count_char_line_bounds(lv.take(j as int), x);
                        assert(count_char(cur, x) + count_char_line(lv.take(j as int), x) == 0);
                    }
                    keys.push(x);
                    vals.push(1);
                    proof {
                        assert(keys@ == oldkeys.push(x));
                        assert forall|k1: int, k2: int|
                            0 <= k1 < k2 < keys@.len() implies keys@[k1] != keys@[k2] by {
                            if k2 == keys@.len() - 1 {
                                assert(keys@[k1] == oldkeys[k1]);
                                assert(!oldkeys.contains(x));
                            }
                        }
                        assert(keys@.no_duplicates());
                        assert forall|k: int|
                            #![trigger keys@[k]]
                            #![trigger vals@[k]]
                            0 <= k < keys@.len() implies spec_is_emoji(keys@[k]) && vals@[k] >= 1
                            && vals@[k] == count_char(cur, keys@[k]) + count_char_line(
                            lv.take(j + 1),
                            keys@[k],
                        ) by {
                            lemma_count_char_line_concat(lv.take(j as int), seq![x], keys@[k]);
                            lemma_count_char_line_single(x, keys@[k]);
                            if k < keys@.len() - 1 {
                                assert(keys@[k] == oldkeys[k]);
                                assert(oldkeys.no_duplicates());
                                assert(!oldkeys.contains(x));
                                assert(keys@[k] != x);
                            }
                        }
                        assert forall|c: char| spec_is_emoji(c) && #[trigger] count_char(cur, c)
                            + count_char_line(lv.take(j + 1), c) > 0 implies keys@.contains(c) by {
                            lemma_count_char_line_concat(lv.take(j as int), seq![x], c);
                            lemma_count_char_line_single(x, c);
                            if c == x {
                                assert(keys@[keys@.len() - 1] == x);
                            } else {
                                assert(oldkeys.contains(c));
                                let ci = choose|ci: int|
                                    0 <= ci < oldkeys.len() && oldkeys[ci] == c;
                                assert(keys@[ci] == c);
                            }
                        }
                    }
                }
            } else {
                proof {
                    assert(count_emojis_line(ctail) == count_emojis_line(lv.skip(j + 1)));
                    assert forall|k: int|
                        #![trigger keys@[k]]
                        #![trigger vals@[k]]
                        0 <= k < keys@.len() implies spec_is_emoji(keys@[k]) && vals@[k] >= 1
                        && vals@[k] == count_char(cur, keys@[k]) + count_char_line(
                        lv.take(j + 1),
                        keys@[k],
                    ) by {
                        lemma_count_char_line_concat(lv.take(j as int), seq![x], keys@[k]);
                        lemma_count_char_line_single(x, keys@[k]);
                        assert(keys@[k] != x);
                    }
                    assert forall|c: char| spec_is_emoji(c) && #[trigger] count_char(cur, c)
                        + count_char_line(lv.take(j + 1), c) > 0 implies keys@.contains(c) by {
                        lemma_count_char_line_concat(lv.take(j as int), seq![x], c);
                        lemma_count_char_line_single(x, c);
                        assert(c != x);
                    }
                }
            }
            j = j + 1;
        }
        proof {
            assert(lv.take(lvn as int) =~= lv);
            assert(lv.skip(lvn as int) =~= Seq::<char>::empty());
            assert(ls.take(i + 1) =~= ls.take(i as int) + seq![ls[i as int]]);
            assert((seq![ls[i as int]]).first() == ls[i as int]);
            assert((seq![ls[i as int]]).drop_first() =~= Seq::<Seq<char>>::empty());
            assert forall|k: int|
                #![trigger keys@[k]]
                #![trigger vals@[k]]
                0 <= k < keys@.len() implies vals@[k] == count_char(ls.take(i + 1), keys@[k]) by {
                lemma_count_char_concat(ls.take(i as int), seq![ls[i as int]], keys@[k]);
                lemma_count_char_single(ls[i as int], keys@[k]);
            }
            assert forall|c: char| spec_is_emoji(c) && #[trigger] count_char(ls.take(i + 1), c)
                > 0 implies keys@.contains(c) by {
                lemma_count_char_concat(ls.take(i as int), seq![ls[i as int]], c);
                lemma_count_char_single(ls[i as int], c);
                assert(count_char(cur, c) + count_char_line(lv.take(lvn as int), c) > 0);
            }
        }
        i = i + 1;
    }
    proof {
        assert(ls.take(n as int) =~= ls);
        assert(ls.skip(n as int) =~= Seq::<Seq<char>>::empty());
        // the gathered keys are exactly the emojis that occur
        assert(emoji_char_set(ls) =~= keys@.to_set()) by {
            assert forall|c: char| emoji_char_set(ls).contains(c) implies keys@.to_set().contains(
                c,
            ) by {
                assert(count_char(ls, c) > 0);
            }
            assert forall|c: char| keys@.to_set().contains(c) implies emoji_char_set(ls).contains(
                c,
            ) by {
                let k = choose|k: int| 0 <= k < keys@.len() && keys@[k] == c;
                assert(vals@[k] >= 1);
            }
        }
        keys@.unique_seq_to_set();
        assert(keys@.len() == emoji_char_set(ls).len());
    }
    let unique: usize = keys.len();

    if keys.len() == 0 {
        proof {
            if total > 0 {
                lemma_emoji_witness(ls);
                let c = choose|c: char| spec_is_emoji(c) && #[trigger] count_char(ls, c) > 0;
                assert(keys@.contains(c));
                assert(false);
            }
        }
        return EmojiAnalysis { total, unique, most_common: String::from_str("none") };
    }

    // one key of greatest count
    let kn: usize = keys.len();
    let mut best: usize = 0;
    let mut t: usize = 1;
    while t < kn
        invariant
            kn == keys@.len() == vals@.len(),
            best < kn,
            t <= kn,
            forall|tk: int| 0 <= tk < t ==> vals@[tk] <= vals@[best as int],
        decreases kn - t,
    {
        if vals[t] > vals[best] {
            best = t;
        }
        t = t + 1;
    }
    let top = keys[best];
    let mut one: Vec<char> = Vec::new();
    one.push(top);
    let most_common = chars_to_string(&one);
    proof {
        // the result names an emoji no other occurring emoji outnumbers
        assert(count_char(ls, top) == vals@[best as int]);
        lemma_count_char_le_emojis(ls, top);
        assert(total >= vals@[best as int]);
        assert forall|d: char| emoji_char_set(ls).contains(d) implies count_char(ls, d)
            <= count_char(ls, top) by {
            assert(keys@.to_set().contains(d));
            let kd = choose|kd: int| 0 <= kd < keys@.len() && keys@[kd] == d;
            assert(vals@[kd] <= vals@[best as int]);
        }
        assert(is_top_emoji(ls, top));
        assert(most_common@ == seq![top]);
    }
    EmojiAnalysis { total, unique, most_common }
}

} // verus!
