//! Content normalization: turns raw file text into a canonical character
//! stream so that cosmetic differences (indentation, spacing, comment
//! markers, letter case) cannot defeat duplicate detection. Each line is
//! trimmed, stripped of spaces and tabs, stripped of the marker substrings
//! `//`, `/*`, `*/`, `#` until none is left, and lowercased last; lines
//! left empty are dropped, and every kept line is followed by a single
//! line feed.

use crate::text::{
    chars_to_string, contains_seq, contains_str, is_white, is_whitespace_char, lower_of,
    lowercase, to_char_vec,
};
use vstd::prelude::*;

verus! {

/// The sequence without its leading whitespace.
pub open spec fn trim_front(l: Seq<char>) -> Seq<char>
    decreases l.len(),
{
    if l.len() > 0 && is_white(l[0]) {
        trim_front(l.drop_first())
    } else {
        l
    }
}

/// The sequence without its trailing whitespace.
pub open spec fn trim_back(l: Seq<char>) -> Seq<char>
    decreases l.len(),
{
    if l.len() > 0 && is_white(l.last()) {
        trim_back(l.drop_last())
    } else {
        l
    }
}

/// The sequence without leading and trailing whitespace.
pub open spec fn spec_trim(l: Seq<char>) -> Seq<char> {
    trim_back(trim_front(l))
}

/// The sequence with every space and tab removed.
pub open spec fn sans_space_tab(l: Seq<char>) -> Seq<char>
    decreases l.len(),
{
    if l.len() == 0 {
        l
    } else if l[0] == ' ' || l[0] == '\t' {
        sans_space_tab(l.drop_first())
    } else {
        seq![l[0]] + sans_space_tab(l.drop_first())
    }
}

/// The sequence with every non-overlapping occurrence of the two-character
/// pattern `ab` removed, scanning left to right.
pub open spec fn sans_pair(l: Seq<char>, a: char, b: char) -> Seq<char>
    decreases l.len(),
{
    if l.len() >= 2 && l[0] == a && l[1] == b {
        sans_pair(l.skip(2), a, b)
    } else if l.len() >= 1 {
        seq![l[0]] + sans_pair(l.drop_first(), a, b)
    } else {
        l
    }
}

/// The sequence with every occurrence of `ch` removed.
pub open spec fn sans_char(l: Seq<char>, ch: char) -> Seq<char>
    decreases l.len(),
{
    if l.len() == 0 {
        l
    } else if l[0] == ch {
        sans_char(l.drop_first(), ch)
    } else {
        seq![l[0]] + sans_char(l.drop_first(), ch)
    }
}

/// Whether the text still holds one of the marker substrings.
pub open spec fn has_marker(l: Seq<char>) -> bool {
    ||| contains_seq(l, "//"@)
    ||| contains_seq(l, "/*"@)
    ||| contains_seq(l, "*/"@)
    ||| contains_seq(l, "#"@)
}

/// One round of marker removal: the substrings `//`, `/*`, `*/` and the
/// character `#`, each in one left-to-right pass, in that order.
pub open spec fn marker_round(l: Seq<char>) -> Seq<char> {
    sans_char(sans_pair(sans_pair(sans_pair(l, '/', '/'), '/', '*'), '*', '/'), '#')
}

/// Marker removal run to a fixed point: rounds repeat until no marker
/// substring is left, so removals that join two halves of a marker (as
/// deleting the `#` of `/#/` does) cannot leave one behind.
pub open spec fn strip_markers(l: Seq<char>) -> Seq<char>
    decreases l.len(),
    via strip_markers_decreases
{
    if !has_marker(l) {
        l
    } else {
        strip_markers(marker_round(l))
    }
}

#[via_fn]
proof fn strip_markers_decreases(l: Seq<char>) {
    if has_marker(l) {
        lemma_marker_round_progress(l);
    }
}

/// The cleaning passes of one raw line, in the order the normalizer
/// applies them: trim, strip every space and tab, then remove the marker
/// substrings to a fixed point.
pub open spec fn clean_line(l: Seq<char>) -> Seq<char> {
    strip_markers(sans_space_tab(spec_trim(l)))
}

/// A whole normalized line: cleaned first, Unicode-lowercased last.
pub open spec fn norm_line(l: Seq<char>) -> Seq<char> {
    lower_of(clean_line(l))
}

/// The normalized lines that survive cleaning, in order.
pub open spec fn kept_lines(lines: Seq<Seq<char>>) -> Seq<Seq<char>>
    decreases lines.len(),
{
    if lines.len() == 0 {
        Seq::empty()
    } else {
        let c = norm_line(lines.first());
        (if c.len() == 0 {
            Seq::empty()
        } else {
            seq![c]
        }) + kept_lines(lines.drop_first())
    }
}

/// Lines joined back together, each followed by a single line feed.
pub open spec fn join_lines(ls: Seq<Seq<char>>) -> Seq<char>
    decreases ls.len(),
{
    if ls.len() == 0 {
        Seq::empty()
    } else {
        ls.first() + seq!['\n'] + join_lines(ls.drop_first())
    }
}

/// The full normalized text of a file given as its raw lines.
pub open spec fn normalized_text(lines: Seq<Seq<char>>) -> Seq<char> {
    join_lines(kept_lines(lines))
}

/// Removes leading and trailing whitespace.
pub fn trim_chars(v: &Vec<char>) -> (r: Vec<char>)
    ensures
        r@ == spec_trim(v@),
{
    let n: usize = v.len();
    let mut lo: usize = 0;
    while lo < n && is_whitespace_char(v[lo])
        invariant
            n == v@.len(),
            lo <= n,
            forall|k: int| 0 <= k < lo ==> is_white(v@[k]),
        decreases n - lo,
    {
        lo = lo + 1;
    }
    let mut hi: usize = n;
    while hi > lo && is_whitespace_char(v[hi - 1])
        invariant
            n == v@.len(),
            lo <= hi <= n,
            forall|k: int| 0 <= k < lo ==> is_white(v@[k]),
            forall|k: int| hi <= k < n ==> is_white(v@[k]),
        decreases hi,
    {
        hi = hi - 1;
    }
    let mut r: Vec<char> = Vec::new();
    let mut i: usize = lo;
    while i < hi
        invariant
            n == v@.len(),
            lo <= i <= hi <= n,
            r@ == v@.subrange(lo as int, i as int),
        decreases hi - i,
    {
        r.push(v[i]);
        proof {
            assert(v@.subrange(lo as int, i + 1) =~= v@.subrange(lo as int, i as int).push(
                v@[i as int],
            ));
        }
        i = i + 1;
    }
    proof {
        lemma_trim_front_at(v@, lo as int);
        let u = v@.subrange(lo as int, n as int);
        lemma_trim_back_at(u, (hi - lo) as int);
        assert(u.subrange(0, hi - lo) =~= v@.subrange(lo as int, hi as int));
        if hi > lo {
            assert(u[hi - lo - 1] == v@[hi - 1]);
        }
        assert forall|k: int| hi - lo <= k < u.len() implies is_white(u[k]) by {
            assert(u[k] == v@[lo + k]);
        }
    }
    r
}

/// Leading whitespace runs exactly `fi` characters deep, so trimming the
/// front keeps the suffix from `fi` on.
proof fn lemma_trim_front_at(l: Seq<char>, fi: int)
    requires
        0 <= fi <= l.len(),
        forall|k: int| 0 <= k < fi ==> is_white(l[k]),
        fi < l.len() ==> !is_white(l[fi]),
    ensures
        trim_front(l) == l.subrange(fi, l.len() as int),
    decreases fi,
{
    if fi == 0 {
        if l.len() > 0 && is_white(l[0]) {
            assert(false);
        }
        assert(l.subrange(0, l.len() as int) =~= l);
    } else {
        let t = l.drop_first();
        assert forall|k: int| 0 <= k < fi - 1 implies is_white(t[k]) by {
            assert(t[k] == l[k + 1]);
        }
        lemma_trim_front_at(t, fi - 1);
        assert(t.subrange(fi - 1, t.len() as int) =~= l.subrange(fi, l.len() as int));
    }
}

/// Trailing whitespace starts exactly at `hi`, so trimming the back keeps
/// the prefix up to `hi`.
proof fn lemma_trim_back_at(l: Seq<char>, hi: int)
    requires
        0 <= hi <= l.len(),
        forall|k: int| hi <= k < l.len() ==> is_white(l[k]),
        hi > 0 ==> !is_white(l[hi - 1]),
    ensures
        trim_back(l) == l.subrange(0, hi),
    decreases l.len(),
{
    if hi == l.len() {
        if l.len() > 0 && is_white(l.last()) {
            assert(false);
        }
        assert(l.subrange(0, l.len() as int) =~= l);
    } else {
        let t = l.drop_last();
        assert(is_white(l.last()));
        lemma_trim_back_at(t, hi);
        assert(t.subrange(0, hi) =~= l.subrange(0, hi));
    }
}

/// Removes every space and tab.
pub fn remove_space_tab(v: &Vec<char>) -> (r: Vec<char>)
    ensures
        r@ == sans_space_tab(v@),
{
    let n: usize = v.len();
    let mut r: Vec<char> = Vec::new();
    let mut i: usize = 0;
    proof {
        assert(v@.skip(0) =~= v@);
    }
    while i < n
        invariant
            n == v@.len(),
            i <= n,
            sans_space_tab(v@) == r@ + sans_space_tab(v@.skip(i as int)),
        decreases n - i,
    {
        let ghost tail = v@.skip(i as int);
        proof {
            assert(tail[0] == v@[i as int]);
            assert(tail.drop_first() =~= v@.skip(i + 1));
        }
        let c = v[i];
        if c != ' ' && c != '\t' {
            r.push(c);
            proof {
                assert(sans_space_tab(tail) == seq![tail[0]] + sans_space_tab(tail.drop_first()));
                assert(r@ + sans_space_tab(v@.skip(i + 1)) =~= sans_space_tab(v@));
            }
        } else {
            proof {
                assert(sans_space_tab(tail) == sans_space_tab(tail.drop_first()));
            }
        }
        i = i + 1;
    }
    proof {
        assert(sans_space_tab(v@.skip(n as int)) == Seq::<char>::empty());
        assert(r@ + Seq::<char>::empty() =~= r@);
    }
    r
}

/// Removes every non-overlapping occurrence of the pattern `ab`.
pub fn remove_pair(v: &Vec<char>, a: char, b: char) -> (r: Vec<char>)
    ensures
        r@ == sans_pair(v@, a, b),
{
    let n: usize = v.len();
    let mut r: Vec<char> = Vec::new();
    let mut i: usize = 0;
    proof {
        assert(v@.skip(0) =~= v@);
    }
    while i < n
        invariant
            n == v@.len(),
            i <= n,
            sans_pair(v@, a, b) == r@ + sans_pair(v@.skip(i as int), a, b),
        decreases n - i,
    {
        let ghost tail = v@.skip(i as int);
        proof {
            assert(tail[0] == v@[i as int]);
            if tail.len() >= 2 {
                assert(tail[1] == v@[i + 1]);
            }
            assert(tail.drop_first() =~= v@.skip(i + 1));
        }
        if i + 1 < n && v[i] == a && v[i + 1] == b {
            proof {
                assert(tail.skip(2) =~= v@.skip(i + 2));
                assert(sans_pair(tail, a, b) == sans_pair(tail.skip(2), a, b));
            }
            i = i + 2;
        } else {
            r.push(v[i]);
            proof {
                assert(sans_pair(tail, a, b) == seq![tail[0]] + sans_pair(
                    tail.drop_first(),
                    a,
                    b,
                ));
                assert(r@ + sans_pair(v@.skip(i + 1), a, b) =~= sans_pair(v@, a, b));
            }
            i = i + 1;
        }
    }
    proof {
        assert(i == n || i == n + 1);
        assert(sans_pair(v@.skip(i as int), a, b) == Seq::<char>::empty());
        assert(r@ + Seq::<char>::empty() =~= r@);
    }
    r
}

/// Removes every occurrence of `ch`.
pub fn remove_char(v: &Vec<char>, ch: char) -> (r: Vec<char>)
    ensures
        r@ == sans_char(v@, ch),
{
    let n: usize = v.len();
    let mut r: Vec<char> = Vec::new();
    let mut i: usize = 0;
    proof {
        assert(v@.skip(0) =~= v@);
    }
    while i < n
        invariant
            n == v@.len(),
            i <= n,
            sans_char(v@, ch) == r@ + sans_char(v@.skip(i as int), ch),
        decreases n - i,
    {
        let ghost tail = v@.skip(i as int);
        proof {
            assert(tail[0] == v@[i as int]);
            assert(tail.drop_first() =~= v@.skip(i + 1));
        }
        let c = v[i];
        if c != ch {
            r.push(c);
            proof {
                assert(sans_char(tail, ch) == seq![tail[0]] + sans_char(tail.drop_first(), ch));
                assert(r@ + sans_char(v@.skip(i + 1), ch) =~= sans_char(v@, ch));
            }
        } else {
            proof {
                assert(sans_char(tail, ch) == sans_char(tail.drop_first(), ch));
            }
        }
        i = i + 1;
    }
    proof {
        assert(sans_char(v@.skip(n as int), ch) == Seq::<char>::empty());
        assert(r@ + Seq::<char>::empty() =~= r@);
    }
    r
}

fn has_marker_chars(v: &Vec<char>) -> (r: bool)
    ensures
        r == has_marker(v@),
{
    contains_str(v, "//") || contains_str(v, "/*") || contains_str(v, "*/") || contains_str(
        v,
        "#",
    )
}

/// Removes the marker substrings round after round until none is left.
fn strip_marker_rounds(v: Vec<char>) -> (r: Vec<char>)
    ensures
        r@ == strip_markers(v@),
{
    let ghost orig = v@;
    let mut cur = v;
    while has_marker_chars(&cur)
        invariant
            strip_markers(orig) == strip_markers(cur@),
        decreases cur@.len(),
    {
        proof {
            lemma_marker_round_progress(cur@);
        }
        let ghost before = cur@;
        let p1 = remove_pair(&cur, '/', '/');
        let p2 = remove_pair(&p1, '/', '*');
        let p3 = remove_pair(&p2, '*', '/');
        cur = remove_char(&p3, '#');
        proof {
            assert(cur@ == marker_round(before));
            assert(strip_markers(before) == strip_markers(cur@));
        }
    }
    proof {
        assert(strip_markers(cur@) == cur@);
    }
    cur
}

/// Normalizes one raw line: trim, drop every space and tab, remove the
/// substrings `//`, `/*`, `*/` and every `#` until none remains, then
/// lowercase.
pub fn normalize_line(line: &str) -> (r: String)
    ensures
        r@ == norm_line(line@),
{
    let chars = to_char_vec(line);
    let trimmed = trim_chars(&chars);
    let no_ws = remove_space_tab(&trimmed);
    let cleaned = strip_marker_rounds(no_ws);
    let cs = chars_to_string(&cleaned);
    lowercase(cs.as_str())
}

/// Normalizes a whole file given as its raw lines: every line is
/// normalized, lines left empty are dropped, and each kept line is
/// followed by a single line feed.
pub fn normalize_content(lines: &Vec<String>) -> (r: String)
    ensures
        r@ == normalized_text(lines.deep_view()),
{
    let ghost ls = lines.deep_view();
    let n: usize = lines.len();
    let mut out = String::new();
    let mut i: usize = 0;
    proof {
        assert(ls.skip(0) =~= ls);
    }
    while i < n
        invariant
            n == lines@.len(),
            ls == lines.deep_view(),
            ls.len() == n,
            i <= n,
            normalized_text(ls) == out@ + normalized_text(ls.skip(i as int)),
        decreases n - i,
    {
        let ghost tail = ls.skip(i as int);
        proof {
            assert(tail.first() == ls[i as int]);
            assert(ls[i as int] == lines@[i as int]@);
            assert(tail.drop_first() =~= ls.skip(i + 1));
        }
        let nl = normalize_line(lines[i].as_str());
        if !nl.as_str().is_empty() {
            out.append(nl.as_str());
            out.append("\n");
            proof {
                let c = norm_line(tail.first());
                assert(kept_lines(tail) == seq![c] + kept_lines(tail.drop_first()));
                assert(kept_lines(tail).first() == c);
                assert(kept_lines(tail).drop_first() =~= kept_lines(tail.drop_first()));
                assert(kept_lines(tail).len() > 0);
                assert(join_lines(kept_lines(tail)) == c + seq!['\n'] + join_lines(
                    kept_lines(tail.drop_first()),
                ));
                assert("\n"@ =~= seq!['\n']) by {
                    reveal_strlit("\n");
                }
                assert(out@ + normalized_text(ls.skip(i + 1)) =~= normalized_text(ls));
            }
        } else {
            proof {
                let c = norm_line(tail.first());
                assert(kept_lines(tail) == Seq::<Seq<char>>::empty() + kept_lines(
                    tail.drop_first(),
                ));
                assert(kept_lines(tail) =~= kept_lines(tail.drop_first()));
            }
        }
        i = i + 1;
    }
    proof {
        assert(ls.skip(n as int) =~= Seq::<Seq<char>>::empty());
        assert(normalized_text(ls.skip(n as int)) == Seq::<char>::empty());
        assert(out@ + Seq::<char>::empty() =~= out@);
    }
    out
}


proof fn lemma_sans_space_tab_clean(l: Seq<char>)
    ensures
        forall|i: int|
            0 <= i < sans_space_tab(l).len() ==> #[trigger] sans_space_tab(l)[i] != ' '
                && sans_space_tab(l)[i] != '\t',
    decreases l.len(),
{
    if l.len() > 0 {
        lemma_sans_space_tab_clean(l.drop_first());
        assert forall|i: int| 0 <= i < sans_space_tab(l).len() implies #[trigger] sans_space_tab(
            l,
        )[i] != ' ' && sans_space_tab(l)[i] != '\t' by {
            if l[0] == ' ' || l[0] == '\t' {
                assert(sans_space_tab(l)[i] == sans_space_tab(l.drop_first())[i]);
            } else if i == 0 {
                assert(sans_space_tab(l)[0] == l[0]);
            } else {
                assert(sans_space_tab(l)[i] == sans_space_tab(l.drop_first())[i - 1]);
            }
        }
    }
}

proof fn lemma_sans_pair_keeps_clean(l: Seq<char>, a: char, b: char)
    requires
        forall|i: int| 0 <= i < l.len() ==> #[trigger] l[i] != ' ' && l[i] != '\t',
    ensures
        forall|i: int|
            0 <= i < sans_pair(l, a, b).len() ==> #[trigger] sans_pair(l, a, b)[i] != ' '
                && sans_pair(l, a, b)[i] != '\t',
    decreases l.len(),
{
    if l.len() >= 2 && l[0] == a && l[1] == b {
        assert forall|i: int| 0 <= i < l.skip(2).len() implies #[trigger] l.skip(2)[i] != ' '
            && l.skip(2)[i] != '\t' by {
            assert(l.skip(2)[i] == l[i + 2]);
        }
        lemma_sans_pair_keeps_clean(l.skip(2), a, b);
        assert forall|i: int| 0 <= i < sans_pair(l, a, b).len() implies #[trigger] sans_pair(
            l,
            a,
            b,
        )[i] != ' ' && sans_pair(l, a, b)[i] != '\t' by {
            assert(sans_pair(l, a, b)[i] == sans_pair(l.skip(2), a, b)[i]);
        }
    } else if l.len() >= 1 {
        assert forall|i: int| 0 <= i < l.drop_first().len() implies #[trigger] l.drop_first()[i]
            != ' ' && l.drop_first()[i] != '\t' by {
            assert(l.drop_first()[i] == l[i + 1]);
        }
        lemma_sans_pair_keeps_clean(l.drop_first(), a, b);
        assert forall|i: int| 0 <= i < sans_pair(l, a, b).len() implies #[trigger] sans_pair(
            l,
            a,
            b,
        )[i] != ' ' && sans_pair(l, a, b)[i] != '\t' by {
            if i == 0 {
                assert(sans_pair(l, a, b)[0] == l[0]);
            } else {
                assert(sans_pair(l, a, b)[i] == sans_pair(l.drop_first(), a, b)[i - 1]);
            }
        }
    }
}

proof fn lemma_sans_char_keeps_clean(l: Seq<char>, ch: char)
    requires
        forall|i: int| 0 <= i < l.len() ==> #[trigger] l[i] != ' ' && l[i] != '\t',
    ensures
        forall|i: int|
            0 <= i < sans_char(l, ch).len() ==> #[trigger] sans_char(l, ch)[i] != ' '
                && sans_char(l, ch)[i] != '\t',
    decreases l.len(),
{
    if l.len() > 0 {
        assert forall|i: int| 0 <= i < l.drop_first().len() implies #[trigger] l.drop_first()[i]
            != ' ' && l.drop_first()[i] != '\t' by {
            assert(l.drop_first()[i] == l[i + 1]);
        }
        lemma_sans_char_keeps_clean(l.drop_first(), ch);
        if l[0] == ch {
            assert forall|i: int| 0 <= i < sans_char(l, ch).len() implies #[trigger] sans_char(
                l,
                ch,
            )[i] != ' ' && sans_char(l, ch)[i] != '\t' by {
                assert(sans_char(l, ch)[i] == sans_char(l.drop_first(), ch)[i]);
            }
        }
        if l[0] != ch {
            assert forall|i: int| 0 <= i < sans_char(l, ch).len() implies #[trigger] sans_char(
                l,
                ch,
            )[i] != ' ' && sans_char(l, ch)[i] != '\t' by {
                if i == 0 {
                    assert(sans_char(l, ch)[0] == l[0]);
                } else {
                    assert(sans_char(l, ch)[i] == sans_char(l.drop_first(), ch)[i - 1]);
                }
            }
        }
    }
}

proof fn lemma_sans_pair_len(l: Seq<char>, a: char, b: char)
    ensures
        sans_pair(l, a, b).len() <= l.len(),
    decreases l.len(),
{
    if l.len() >= 2 && l[0] == a && l[1] == b {
        lemma_sans_pair_len(l.skip(2), a, b);
    } else if l.len() >= 1 {
        lemma_sans_pair_len(l.drop_first(), a, b);
    }
}

proof fn lemma_sans_char_len(l: Seq<char>, ch: char)
    ensures
        sans_char(l, ch).len() <= l.len(),
    decreases l.len(),
{
    if l.len() > 0 {
        lemma_sans_char_len(l.drop_first(), ch);
    }
}

/// A pass that finds no occurrence of its pattern copies the text.
proof fn lemma_sans_pair_absent(l: Seq<char>, a: char, b: char)
    requires
        !contains_seq(l, seq![a, b]),
    ensures
        sans_pair(l, a, b) == l,
    decreases l.len(),
{
    let pat = seq![a, b];
    if l.len() >= 2 && l[0] == a && l[1] == b {
        assert(l.subrange(0, 0 + pat.len() as int) =~= pat);
        assert(false);
    } else if l.len() >= 1 {
        assert(!contains_seq(l.drop_first(), pat)) by {
            if contains_seq(l.drop_first(), pat) {
                let i = choose|i: int|
                    0 <= i <= l.drop_first().len() - pat.len() && #[trigger] l.drop_first()
                        .subrange(i, i + pat.len()) == pat;
                assert(l.subrange(i + 1, i + 1 + pat.len()) =~= l.drop_first().subrange(
                    i,
                    i + pat.len(),
                ));
            }
        }
        lemma_sans_pair_absent(l.drop_first(), a, b);
        assert(seq![l[0]] + l.drop_first() =~= l);
    }
}

proof fn lemma_sans_char_absent(l: Seq<char>, ch: char)
    requires
        !contains_seq(l, seq![ch]),
    ensures
        sans_char(l, ch) == l,
    decreases l.len(),
{
    let pat = seq![ch];
    if l.len() > 0 {
        if l[0] == ch {
            assert(l.subrange(0, 0 + pat.len() as int) =~= pat);
            assert(false);
        }
        assert(!contains_seq(l.drop_first(), pat)) by {
            if contains_seq(l.drop_first(), pat) {
                let i = choose|i: int|
                    0 <= i <= l.drop_first().len() - pat.len() && #[trigger] l.drop_first()
                        .subrange(i, i + pat.len()) == pat;
                assert(l.subrange(i + 1, i + 1 + pat.len()) =~= l.drop_first().subrange(
                    i,
                    i + pat.len(),
                ));
            }
        }
        lemma_sans_char_absent(l.drop_first(), ch);
        assert(seq![l[0]] + l.drop_first() =~= l);
    }
}

/// A pass that finds its pattern makes the text strictly shorter.
proof fn lemma_sans_pair_shrinks(l: Seq<char>, a: char, b: char)
    requires
        contains_seq(l, seq![a, b]),
    ensures
        sans_pair(l, a, b).len() < l.len(),
    decreases l.len(),
{
    let pat = seq![a, b];
    let i = choose|i: int|
        0 <= i <= l.len() - pat.len() && #[trigger] l.subrange(i, i + pat.len()) == pat;
    if l.len() >= 2 && l[0] == a && l[1] == b {
        lemma_sans_pair_len(l.skip(2), a, b);
    } else {
        assert(i >= 1) by {
            if i == 0 {
                assert(l[0] == l.subrange(0, 0 + pat.len() as int)[0]);
                assert(l[1] == l.subrange(0, 0 + pat.len() as int)[1]);
            }
        }
        assert(l.drop_first().subrange(i - 1, i - 1 + pat.len()) =~= l.subrange(
            i,
            i + pat.len(),
        ));
        assert(contains_seq(l.drop_first(), pat));
        lemma_sans_pair_shrinks(l.drop_first(), a, b);
    }
}

proof fn lemma_sans_char_shrinks(l: Seq<char>, ch: char)
    requires
        contains_seq(l, seq![ch]),
    ensures
        sans_char(l, ch).len() < l.len(),
    decreases l.len(),
{
    let pat = seq![ch];
    let i = choose|i: int|
        0 <= i <= l.len() - pat.len() && #[trigger] l.subrange(i, i + pat.len()) == pat;
    if l[0] == ch {
        lemma_sans_char_len(l.drop_first(), ch);
    } else {
        assert(i >= 1) by {
            if i == 0 {
                assert(l[0] == l.subrange(0, 0 + pat.len() as int)[0]);
            }
        }
        assert(l.drop_first().subrange(i - 1, i - 1 + pat.len()) =~= l.subrange(
            i,
            i + pat.len(),
        ));
        assert(contains_seq(l.drop_first(), pat));
        lemma_sans_char_shrinks(l.drop_first(), ch);
    }
}

/// A round applied to a text that still holds a marker strictly shrinks
/// it: every pass keeps or shortens the text, passes without a match copy
/// it, and the pass whose marker is present removes at least one
/// character.
proof fn lemma_marker_round_progress(l: Seq<char>)
    requires
        has_marker(l),
    ensures
        marker_round(l).len() < l.len(),
{
    reveal_strlit("//");
    reveal_strlit("/*");
    reveal_strlit("*/");
    reveal_strlit("#");
    assert("//"@ =~= seq!['/', '/']);
    assert("/*"@ =~= seq!['/', '*']);
    assert("*/"@ =~= seq!['*', '/']);
    assert("#"@ =~= seq!['#']);
    let p1 = sans_pair(l, '/', '/');
    let p2 = sans_pair(p1, '/', '*');
    let p3 = sans_pair(p2, '*', '/');
    lemma_sans_pair_len(l, '/', '/');
    lemma_sans_pair_len(p1, '/', '*');
    lemma_sans_pair_len(p2, '*', '/');
    lemma_sans_char_len(p3, '#');
    if contains_seq(l, seq!['/', '/']) {
        lemma_sans_pair_shrinks(l, '/', '/');
    } else {
        lemma_sans_pair_absent(l, '/', '/');
        if contains_seq(l, seq!['/', '*']) {
            lemma_sans_pair_shrinks(p1, '/', '*');
        } else {
            lemma_sans_pair_absent(p1, '/', '*');
            if contains_seq(l, seq!['*', '/']) {
                lemma_sans_pair_shrinks(p2, '*', '/');
            } else {
                lemma_sans_pair_absent(p2, '*', '/');
                assert(contains_seq(p3, seq!['#']));
                lemma_sans_char_shrinks(p3, '#');
            }
        }
    }
}

/// Marker removal reaches its fixed point: the stripped text holds no
/// occurrence of any of the four markers.
pub proof fn lemma_strip_markers_no_marker(l: Seq<char>)
    ensures
        !has_marker(strip_markers(l)),
    decreases l.len(),
{
    if has_marker(l) {
        lemma_marker_round_progress(l);
        lemma_strip_markers_no_marker(marker_round(l));
    }
}

proof fn lemma_marker_round_keeps_clean(l: Seq<char>)
    requires
        forall|i: int| 0 <= i < l.len() ==> #[trigger] l[i] != ' ' && l[i] != '\t',
    ensures
        forall|i: int|
            0 <= i < marker_round(l).len() ==> #[trigger] marker_round(l)[i] != ' '
                && marker_round(l)[i] != '\t',
{
    let p1 = sans_pair(l, '/', '/');
    let p2 = sans_pair(p1, '/', '*');
    let p3 = sans_pair(p2, '*', '/');
    lemma_sans_pair_keeps_clean(l, '/', '/');
    lemma_sans_pair_keeps_clean(p1, '/', '*');
    lemma_sans_pair_keeps_clean(p2, '*', '/');
    lemma_sans_char_keeps_clean(p3, '#');
}

proof fn lemma_strip_markers_keeps_clean(l: Seq<char>)
    requires
        forall|i: int| 0 <= i < l.len() ==> #[trigger] l[i] != ' ' && l[i] != '\t',
    ensures
        forall|i: int|
            0 <= i < strip_markers(l).len() ==> #[trigger] strip_markers(l)[i] != ' '
                && strip_markers(l)[i] != '\t',
    decreases l.len(),
{
    if has_marker(l) {
        lemma_marker_round_progress(l);
        lemma_marker_round_keeps_clean(l);
        lemma_strip_markers_keeps_clean(marker_round(l));
        assert forall|i: int| 0 <= i < strip_markers(l).len() implies #[trigger] strip_markers(
            l,
        )[i] != ' ' && strip_markers(l)[i] != '\t' by {
            assert(strip_markers(l)[i] == strip_markers(marker_round(l))[i]);
        }
    }
}

/// A cleaned line holds no space, no tab, and no marker substring: the
/// space and tab pass removes every one, the marker passes never add a
/// character and repeat until none of `//`, `/*`, `*/`, `#` is left. The
/// normalized line is the Unicode-lowercase image of this text.
pub proof fn lemma_clean_line_clean(l: Seq<char>)
    ensures
        forall|i: int|
            0 <= i < clean_line(l).len() ==> #[trigger] clean_line(l)[i] != ' ' && clean_line(
                l,
            )[i] != '\t',
        !has_marker(clean_line(l)),
{
    lemma_sans_space_tab_clean(spec_trim(l));
    lemma_strip_markers_keeps_clean(sans_space_tab(spec_trim(l)));
    lemma_strip_markers_no_marker(sans_space_tab(spec_trim(l)));
}

/// Normalized content is the concatenation of the surviving normalized
/// lines, each followed by one line feed, and no surviving line is blank.
/// Each normalized line is the Unicode-lowercase image of its cleaned
/// text, whose freedom from spaces, tabs and marker substrings
/// `lemma_clean_line_clean` states; the lowercase map comes last and is
/// trusted and opaque, so those properties are stated of its input.
pub proof fn lemma_normalize_properties(lines: Seq<Seq<char>>)
    ensures
        normalized_text(lines) == join_lines(kept_lines(lines)),
        forall|k: int| 0 <= k < kept_lines(lines).len() ==> #[trigger] kept_lines(lines)[k].len() > 0,
    decreases lines.len(),
{
    if lines.len() == 0 {
    } else {
        let rest = lines.drop_first();
        lemma_normalize_properties(rest);
        let c = norm_line(lines.first());
        if c.len() == 0 {
            assert(kept_lines(lines) =~= kept_lines(rest));
        } else {
            assert(kept_lines(lines) == seq![c] + kept_lines(rest));
            assert forall|k: int| 0 <= k < kept_lines(lines).len() implies #[trigger] kept_lines(
                lines,
            )[k].len() > 0 by {
                if k > 0 {
                    assert(kept_lines(lines)[k] == kept_lines(rest)[k - 1]);
                }
            }
        }
    }
}

} // verus!
