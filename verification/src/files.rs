//! File-level helpers: the noise-file heuristic, glob-based path
//! filtering, human-readable size formatting and character
//! counting.

use crate::text::{
    chars_to_string, contains_seq, contains_str, is_white, is_whitespace_char, lower_of,
    lowercase, to_char_vec,
};
use vstd::prelude::*;

verus! {

/// Whether the lowercased path text marks a noise file: configuration,
/// lock, generated, documentation, data, asset or vendored paths.
pub open spec fn matches_noise_pattern(p: Seq<char>) -> bool {
    ||| contains_seq(p, ".json"@)
    ||| contains_seq(p, ".xml"@)
    ||| contains_seq(p, ".yaml"@)
    ||| contains_seq(p, ".yml"@)
    ||| contains_seq(p, ".toml"@)
    ||| contains_seq(p, ".ini"@)
    ||| contains_seq(p, ".cfg"@)
    ||| contains_seq(p, ".conf"@)
    ||| contains_seq(p, "package-lock.json"@)
    ||| contains_seq(p, "yarn.lock"@)
    ||| contains_seq(p, "cargo.lock"@)
    ||| contains_seq(p, "gemfile.lock"@)
    ||| contains_seq(p, "composer.lock"@)
    ||| contains_seq(p, ".min.js"@)
    ||| contains_seq(p, ".min.css"@)
    ||| contains_seq(p, ".d.ts"@)
    ||| contains_seq(p, ".map"@)
    ||| contains_seq(p, ".md"@)
    ||| contains_seq(p, ".txt"@)
    ||| contains_seq(p, ".rst"@)
    ||| contains_seq(p, ".adoc"@)
    ||| contains_seq(p, ".csv"@)
    ||| contains_seq(p, ".sql"@)
    ||| contains_seq(p, ".db"@)
    ||| contains_seq(p, ".sqlite"@)
    ||| contains_seq(p, ".png"@)
    ||| contains_seq(p, ".jpg"@)
    ||| contains_seq(p, ".jpeg"@)
    ||| contains_seq(p, ".gif"@)
    ||| contains_seq(p, ".svg"@)
    ||| contains_seq(p, ".ico"@)
    ||| contains_seq(p, ".woff"@)
    ||| contains_seq(p, ".woff2"@)
    ||| contains_seq(p, ".ttf"@)
    ||| contains_seq(p, ".eot"@)
    ||| contains_seq(p, "/vendor/"@)
    ||| contains_seq(p, "/node_modules/"@)
    ||| contains_seq(p, "/target/"@)
    ||| contains_seq(p, "/build/"@)
    ||| contains_seq(p, "/dist/"@)
    ||| contains_seq(p, "/.git/"@)
    ||| contains_seq(p, "/fixtures/"@)
    ||| contains_seq(p, "/mocks/"@)
    ||| contains_seq(p, "/test/data/"@)
    ||| contains_seq(p, "/testdata/"@)
}

/// Whether the lowercased file name starts like a well-known noise file.
pub open spec fn matches_noise_name(f: Seq<char>) -> bool {
    ||| "readme"@.is_prefix_of(f)
    ||| "license"@.is_prefix_of(f)
    ||| "changelog"@.is_prefix_of(f)
    ||| "makefile"@.is_prefix_of(f)
    ||| "dockerfile"@.is_prefix_of(f)
    ||| "docker-compose"@.is_prefix_of(f)
    ||| "vagrantfile"@.is_prefix_of(f)
    ||| ".gitignore"@.is_prefix_of(f)
    ||| ".dockerignore"@.is_prefix_of(f)
    ||| ".eslintrc"@.is_prefix_of(f)
    ||| ".prettierrc"@.is_prefix_of(f)
    ||| "tsconfig.json"@.is_prefix_of(f)
    ||| "jest.config.js"@.is_prefix_of(f)
    ||| "webpack.config.js"@.is_prefix_of(f)
    ||| "rollup.config.js"@.is_prefix_of(f)
}

/// Whether one of the noise checks fires for a path and its file name.
pub open spec fn spec_is_noise_file(path: Seq<char>, name: Seq<char>) -> bool {
    matches_noise_pattern(lower_of(path)) || matches_noise_name(lower_of(name))
}

/// Prefix test on character vectors.
pub fn starts_with_str(hay: &Vec<char>, pat: &str) -> (r: bool)
    ensures
        r == pat@.is_prefix_of(hay@),
{
    let p = to_char_vec(pat);
    let m: usize = p.len();
    if m > hay.len() {
        return false;
    }
    let mut j: usize = 0;
    while j < m
        invariant
            m == p@.len(),
            p@ == pat@,
            m <= hay@.len(),
            j <= m,
            forall|k: int| 0 <= k < j ==> hay@[k] == pat@[k],
        decreases m - j,
    {
        if hay[j] != p[j] {
            proof {
                assert(!pat@.is_prefix_of(hay@)) by {
                    if pat@.is_prefix_of(hay@) {
                        assert(hay@.subrange(0, m as int)[j as int] == pat@[j as int]);
                    }
                }
            }
            return false;
        }
        j = j + 1;
    }
    proof {
        assert(hay@.subrange(0, m as int) =~= pat@);
    }
    true
}

fn has_noise_pattern(p: &Vec<char>) -> (r: bool)
    ensures
        r == matches_noise_pattern(p@),
{
    contains_str(p, ".json") || contains_str(p, ".xml") || contains_str(p, ".yaml")
        || contains_str(p, ".yml") || contains_str(p, ".toml") || contains_str(p, ".ini")
        || contains_str(p, ".cfg") || contains_str(p, ".conf") || contains_str(
        p,
        "package-lock.json",
    ) || contains_str(p, "yarn.lock") || contains_str(p, "cargo.lock") || contains_str(
        p,
        "gemfile.lock",
    ) || contains_str(p, "composer.lock") || contains_str(p, ".min.js") || contains_str(
        p,
        ".min.css",
    ) || contains_str(p, ".d.ts") || contains_str(p, ".map") || contains_str(p, ".md")
        || contains_str(p, ".txt") || contains_str(p, ".rst") || contains_str(p, ".adoc")
        || contains_str(p, ".csv") || contains_str(p, ".sql") || contains_str(p, ".db")
        || contains_str(p, ".sqlite") || contains_str(p, ".png") || contains_str(p, ".jpg")
        || contains_str(p, ".jpeg") || contains_str(p, ".gif") || contains_str(p, ".svg")
        || contains_str(p, ".ico") || contains_str(p, ".woff") || contains_str(p, ".woff2")
        || contains_str(p, ".ttf") || contains_str(p, ".eot") || contains_str(p, "/vendor/")
        || contains_str(p, "/node_modules/") || contains_str(p, "/target/") || contains_str(
        p,
        "/build/",
    ) || contains_str(p, "/dist/") || contains_str(p, "/.git/") || contains_str(p, "/fixtures/")
        || contains_str(p, "/mocks/") || contains_str(p, "/test/data/") || contains_str(
        p,
        "/testdata/",
    )
}

fn has_noise_name(f: &Vec<char>) -> (r: bool)
    ensures
        r == matches_noise_name(f@),
{
    starts_with_str(f, "readme") || starts_with_str(f, "license") || starts_with_str(
        f,
        "changelog",
    ) || starts_with_str(f, "makefile") || starts_with_str(f, "dockerfile") || starts_with_str(
        f,
        "docker-compose",
    ) || starts_with_str(f, "vagrantfile") || starts_with_str(f, ".gitignore") || starts_with_str(
        f,
        ".dockerignore",
    ) || starts_with_str(f, ".eslintrc") || starts_with_str(f, ".prettierrc") || starts_with_str(
        f,
        "tsconfig.json",
    ) || starts_with_str(f, "jest.config.js") || starts_with_str(f, "webpack.config.js")
        || starts_with_str(f, "rollup.config.js")
}

/// Decides whether a file counts as noise (configuration, lock files,
/// generated output, documentation, data, assets, vendored directories,
/// or a well-known tool file name), from the file's path text and its
/// file name, case-insensitively.
pub fn is_noise_file(path: &str, file_name: &str) -> (r: bool)
    ensures
        r == spec_is_noise_file(path@, file_name@),
{
    let lowered_path = lowercase(path);
    let pv = to_char_vec(lowered_path.as_str());
    if has_noise_pattern(&pv) {
        return true;
    }
    let lowered_name = lowercase(file_name);
    let fv = to_char_vec(lowered_name.as_str());
    has_noise_name(&fv)
}

/// Whether `glob::Pattern::new` accepts this pattern text, on the
/// compiled target.
pub uninterp spec fn glob_ok(p: Seq<char>) -> bool;

/// What `glob::Pattern::matches` returns for a compiled pattern and a
/// text, as a function of the two strings on the compiled target.
pub uninterp spec fn glob_match_of(p: Seq<char>, t: Seq<char>) -> bool;

/// Relies on glob::Pattern::new and glob::Pattern::matches: compiling a
/// pattern and matching it against a text depend only on the two strings
/// and the compiled target's path-separator convention, so within any
/// build both outcomes are functions of the strings; the compile error
/// is reported as `None`.
#[verifier::external_body]
fn glob_match(pattern: &str, text: &str) -> (r: Option<bool>)
    ensures
        r == (if glob_ok(pattern@) {
            Some(glob_match_of(pattern@, text@))
        } else {
            None::<bool>
        }),
{
    match glob::Pattern::new(pattern) {
        Ok(p) => Some(p.matches(text)),
        Err(_) => None,
    }
}

/// The excludes scan: the first pattern that fails to compile stops the
/// scan, the first match excludes the path, and a clean pass moves on.
pub open spec fn scan_exclude(path: Seq<char>, pats: Seq<Seq<char>>) -> Option<bool>
    decreases pats.len(),
{
    if pats.len() == 0 {
        Some(true)
    } else if !glob_ok(pats.first()) {
        None
    } else if glob_match_of(pats.first(), path) {
        Some(false)
    } else {
        scan_exclude(path, pats.drop_first())
    }
}

/// The includes scan: the first pattern that fails to compile stops the
/// scan, the first match includes the path, and a clean pass rejects.
pub open spec fn scan_include(path: Seq<char>, pats: Seq<Seq<char>>) -> Option<bool>
    decreases pats.len(),
{
    if pats.len() == 0 {
        Some(false)
    } else if !glob_ok(pats.first()) {
        None
    } else if glob_match_of(pats.first(), path) {
        Some(true)
    } else {
        scan_include(path, pats.drop_first())
    }
}

/// Whether the filters admit the path: an excludes match rejects it, then
/// an includes match (or an empty includes list) admits it. `None` reports
/// the first invalid pattern the scan reaches.
pub open spec fn spec_should_include(
    path: Seq<char>,
    includes: Seq<Seq<char>>,
    excludes: Seq<Seq<char>>,
) -> Option<bool> {
    match scan_exclude(path, excludes) {
        None => None,
        Some(false) => Some(false),
        Some(true) => if includes.len() == 0 {
            Some(true)
        } else {
            scan_include(path, includes)
        },
    }
}

/// Applies the excludes and includes glob filters to a path. Exclusions win
/// over inclusions; with no includes patterns every path not excluded is
/// admitted. Returns `None` when a pattern the scan reaches does not
/// compile.
pub fn should_include(path: &str, includes: &Vec<String>, excludes: &Vec<String>) -> (r: Option<
    bool,
>)
    ensures
        r == spec_should_include(path@, includes.deep_view(), excludes.deep_view()),
{
    let ghost ev = excludes.deep_view();
    let ne: usize = excludes.len();
    let mut i: usize = 0;
    proof {
        assert(ev.skip(0) =~= ev);
    }
    while i < ne
        invariant
            ne == excludes@.len(),
            ev == excludes.deep_view(),
            ev.len() == ne,
            i <= ne,
            scan_exclude(path@, ev) == scan_exclude(path@, ev.skip(i as int)),
        decreases ne - i,
    {
        let ghost tail = ev.skip(i as int);
        proof {
            assert(tail.first() == ev[i as int]);
            assert(ev[i as int] == excludes@[i as int]@);
            assert(tail.drop_first() =~= ev.skip(i + 1));
        }
        match glob_match(excludes[i].as_str(), path) {
            None => {
                return None;
            },
            Some(true) => {
                return Some(false);
            },
            Some(false) => {},
        }
        i = i + 1;
    }
    proof {
        assert(ev.skip(ne as int) =~= Seq::<Seq<char>>::empty());
    }

    let ghost iv = includes.deep_view();
    let ni: usize = includes.len();
    if ni == 0 {
        return Some(true);
    }
    let mut j: usize = 0;
    proof {
        assert(iv.skip(0) =~= iv);
    }
    while j < ni
        invariant
            ni == includes@.len(),
            iv == includes.deep_view(),
            iv.len() == ni,
            j <= ni,
            scan_exclude(path@, excludes.deep_view()) == Some(true),
            scan_include(path@, iv) == scan_include(path@, iv.skip(j as int)),
        decreases ni - j,
    {
        let ghost tail = iv.skip(j as int);
        proof {
            assert(tail.first() == iv[j as int]);
            assert(iv[j as int] == includes@[j as int]@);
            assert(tail.drop_first() =~= iv.skip(j + 1));
        }
        match glob_match(includes[j].as_str(), path) {
            None => {
                return None;
            },
            Some(true) => {
                return Some(true);
            },
            Some(false) => {},
        }
        j = j + 1;
    }
    proof {
        assert(iv.skip(ni as int) =~= Seq::<Seq<char>>::empty());
    }
    Some(false)
}

/// The decimal digits of a non-negative number, most significant first.
pub open spec fn dec_str(n: int) -> Seq<char>
    decreases n,
{
    if n < 0 {
        Seq::empty()
    } else if n < 10 {
        seq![((48 + n) as u8) as char]
    } else {
        dec_str(n / 10).push(((48 + n % 10) as u8) as char)
    }
}

/// Division by `den`, rounded to the nearest integer with ties to even,
/// as fixed-precision decimal formatting rounds.
pub open spec fn round_half_even(n: int, den: int) -> int {
    let q = n / den;
    let r = n % den;
    if 2 * r > den {
        q + 1
    } else if 2 * r < den {
        q
    } else if q % 2 == 1 {
        q + 1
    } else {
        q
    }
}

/// The rendering of a byte count: plain bytes below 1 KiB, else the
/// count scaled by the largest fitting power of 1024 (capped at TiB),
/// shown with one rounded decimal digit and the unit letter.
pub open spec fn spec_format_size(b: int) -> Seq<char> {
    if b < 1024 {
        dec_str(b) + seq!['B']
    } else {
        let k: int = if b < 0x100000 {
            1
        } else if b < 0x40000000 {
            2
        } else if b < 0x10000000000 {
            3
        } else {
            4
        };
        let den: int = if k == 1 {
            1024
        } else if k == 2 {
            0x100000
        } else if k == 3 {
            0x40000000
        } else {
            0x10000000000
        };
        let unit: char = if k == 1 {
            'K'
        } else if k == 2 {
            'M'
        } else if k == 3 {
            'G'
        } else {
            'T'
        };
        let d = round_half_even(b * 10, den);
        dec_str(d / 10) + seq!['.'] + dec_str(d % 10) + seq![unit]
    }
}

/// Appends the decimal digits of `n`.
fn push_dec(n: u64, out: &mut Vec<char>)
    ensures
        final(out)@ == old(out)@ + dec_str(n as int),
    decreases n,
{
    if n < 10 {
        out.push((48 + n as u8) as char);
        proof {
            assert(out@ =~= old(out)@ + dec_str(n as int));
        }
    } else {
        push_dec(n / 10, out);
        let ghost mid = out@;
        out.push((48 + (n % 10) as u8) as char);
        proof {
            assert(mid == old(out)@ + dec_str(n as int / 10));
            assert(out@ =~= old(out)@ + dec_str(n as int));
        }
    }
}

/// Renders a byte count for humans: bytes below 1 KiB, else one decimal
/// digit of the scaled value and a unit letter from K to T.
pub fn format_size(bytes: usize) -> (r: String)
    ensures
        r@ == spec_format_size(bytes as int),
{
    let mut out: Vec<char> = Vec::new();
    let b: u128 = bytes as u128;
    if b < 1024 {
        push_dec(bytes as u64, &mut out);
        out.push('B');
        proof {
            assert(out@ =~= dec_str(bytes as int) + seq!['B']);
        }
    } else {
        let den: u128 = if b < 0x100000 {
            1024
        } else if b < 0x40000000 {
            0x100000
        } else if b < 0x10000000000 {
            0x40000000
        } else {
            0x10000000000
        };
        let unit: char = if b < 0x100000 {
            'K'
        } else if b < 0x40000000 {
            'M'
        } else if b < 0x10000000000 {
            'G'
        } else {
            'T'
        };
        let n: u128 = b * 10;
        let q: u128 = n / den;
        let rem: u128 = n % den;
        let d: u128 = if 2 * rem > den {
            q + 1
        } else if 2 * rem < den {
            q
        } else if q % 2 == 1 {
            q + 1
        } else {
            q
        };
        proof {
            assert(q * den + rem == n) by {
                vstd::arithmetic::div_mod::lemma_fundamental_div_mod(n as int, den as int);
            }
            assert(q <= n) by (nonlinear_arith)
                requires
                    q * den + rem == n,
                    den >= 1024,
                    rem >= 0,
                    q >= 0,
            ;
            assert(d as int == round_half_even(bytes as int * 10, den as int));
        }
        push_dec((d / 10) as u64, &mut out);
        out.push('.');
        push_dec((d % 10) as u64, &mut out);
        out.push(unit);
        proof {
            let di = d as int;
            assert(out@ =~= dec_str(di / 10) + seq!['.'] + dec_str(di % 10) + seq![unit]);
        }
    }
    chars_to_string(&out)
}

/// Counts the characters without the Unicode `White_Space` property over
/// all lines.
pub open spec fn count_nonws_line(l: Seq<char>) -> int
    decreases l.len(),
{
    if l.len() == 0 {
        0
    } else {
        (if is_white(l.first()) {
            0int
        } else {
            1int
        }) + count_nonws_line(l.drop_first())
    }
}

pub open spec fn count_nonws(lines: Seq<Seq<char>>) -> int
    decreases lines.len(),
{
    if lines.len() == 0 {
        0
    } else {
        count_nonws_line(lines.first()) + count_nonws(lines.drop_first())
    }
}

proof fn lemma_count_nonws_line_bounds(l: Seq<char>)
    ensures
        0 <= count_nonws_line(l) <= l.len(),
    decreases l.len(),
{
    if l.len() > 0 {
        lemma_count_nonws_line_bounds(l.drop_first());
    }
}

proof fn lemma_count_nonws_nonneg(lines: Seq<Seq<char>>)
    ensures
        0 <= count_nonws(lines),
    decreases lines.len(),
{
    if lines.len() > 0 {
        lemma_count_nonws_line_bounds(lines.first());
        lemma_count_nonws_nonneg(lines.drop_first());
    }
}

/// Counts the non-whitespace characters of a file given as its lines.
pub fn count_nonwhitespace_chars(lines: &Vec<String>) -> (r: usize)
    requires
        count_nonws(lines.deep_view()) <= usize::MAX,
    ensures
        r == count_nonws(lines.deep_view()),
{
    let ghost ls = lines.deep_view();
    let n: usize = lines.len();
    let mut total: usize = 0;
    let mut i: usize = 0;
    proof {
        assert(ls.skip(0) =~= ls);
    }
    while i < n
        invariant
            n == lines@.len(),
            ls == lines.deep_view(),
            ls.len() == n,
            i <= n,
            count_nonws(ls) == total + count_nonws(ls.skip(i as int)),
            count_nonws(ls) <= usize::MAX,
        decreases n - i,
    {
        let ghost tail = ls.skip(i as int);
        proof {
            assert(tail.first() == ls[i as int]);
            assert(ls[i as int] == lines@[i as int]@);
            assert(tail.drop_first() =~= ls.skip(i + 1));
            lemma_count_nonws_nonneg(ls.skip(i + 1));
            lemma_count_nonws_line_bounds(tail.first());
        }
        let v = to_char_vec(lines[i].as_str());
        let m: usize = v.len();
        let mut j: usize = 0;
        let ghost l = v@;
        proof {
            assert(l.skip(0) =~= l);
        }
        while j < m
            invariant
                m == v@.len(),
                l == v@,
                j <= m,
                count_nonws(ls) == total + count_nonws_line(l.skip(j as int)) + count_nonws(
                    ls.skip(i + 1),
                ),
                count_nonws(ls) <= usize::MAX,
                count_nonws_line(l.skip(j as int)) >= 0,
                count_nonws(ls.skip(i + 1)) >= 0,
            decreases m - j,
        {
            let ghost lt = l.skip(j as int);
            proof {
                assert(lt.first() == l[j as int]);
                assert(lt.drop_first() =~= l.skip(j + 1));
                lemma_count_nonws_line_bounds(l.skip(j + 1));
            }
            if !is_whitespace_char(v[j]) {
                total = total + 1;
            }
            j = j + 1;
        }
        proof {
            assert(l.skip(m as int) =~= Seq::<char>::empty());
        }
        i = i + 1;
    }
    proof {
        assert(ls.skip(n as int) =~= Seq::<Seq<char>>::empty());
    }
    total
}

} // verus!
