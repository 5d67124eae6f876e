//! Character and string utilities: thin trusted wrappers around std's
//! Unicode-dependent operations, and verified conversions between strings
//! and character vectors.

use vstd::prelude::*;

verus! {

/// What `str::to_lowercase` returns for a given character sequence. The
/// mapping is determined by the Unicode tables compiled into std, so it is
/// a function of the input alone; its full definition is not restated here.
pub uninterp spec fn lower_of(s: Seq<char>) -> Seq<char>;

/// Whether a character has the Unicode `White_Space` property, as decided
/// by `char::is_whitespace`.
pub uninterp spec fn is_white(c: char) -> bool;

/// Relies on str::to_lowercase: the result depends on the input characters
/// alone.
#[verifier::external_body]
pub fn lowercase(s: &str) -> (r: String)
    ensures
        r@ == lower_of(s@),
{
    s.to_lowercase()
}

/// Relies on char::is_whitespace: a character's `White_Space` property
/// depends on the character alone.
#[verifier::external_body]
pub fn is_whitespace_char(c: char) -> (r: bool)
    ensures
        r == is_white(c),
{
    c.is_whitespace()
}

/// Relies on String::push: appends the given character to the end of the
/// string.
#[verifier::external_body]
pub fn push_char(s: &mut String, c: char)
    ensures
        final(s)@ == old(s)@.push(c),
{
    s.push(c);
}

/// The characters of a string slice, as a vector.
pub fn to_char_vec(s: &str) -> (v: Vec<char>)
    ensures
        v@ == s@,
{
    let n: usize = s.unicode_len();
    let mut v: Vec<char> = Vec::new();
    let mut i: usize = 0;
    while i < n
        invariant
            i <= n == s@.len(),
            v@ == s@.take(i as int),
        decreases n - i,
    {
        let c = s.get_char(i);
        v.push(c);
        proof {
            assert(s@.take(i + 1) =~= s@.take(i as int).push(s@[i as int]));
        }
        i = i + 1;
    }
    proof {
        assert(s@.take(n as int) =~= s@);
    }
    v
}

/// A string holding exactly the given characters.
pub fn chars_to_string(v: &Vec<char>) -> (s: String)
    ensures
        s@ == v@,
{
    let mut s = String::new();
    let n: usize = v.len();
    let mut i: usize = 0;
    while i < n
        invariant
            i <= n == v@.len(),
            s@ == v@.take(i as int),
        decreases n - i,
    {
        push_char(&mut s, v[i]);
        proof {
            assert(v@.take(i + 1) =~= v@.take(i as int).push(v@[i as int]));
        }
        i = i + 1;
    }
    proof {
        assert(v@.take(n as int) =~= v@);
    }
    s
}

/// Whether `pat` occurs in `hay` as a contiguous subsequence.
pub open spec fn contains_seq(hay: Seq<char>, pat: Seq<char>) -> bool {
    exists|i: int| 0 <= i <= hay.len() - pat.len() && #[trigger] hay.subrange(i, i + pat.len()) == pat
}

/// Substring search by scanning every start position.
pub fn contains_str(hay: &Vec<char>, pat: &str) -> (r: bool)
    ensures
        r == contains_seq(hay@, pat@),
{
    let p = to_char_vec(pat);
    let m: usize = p.len();
    let n: usize = hay.len();
    if m > n {
        proof {
            assert(hay@.len() - pat@.len() < 0);
            assert(!contains_seq(hay@, pat@));
        }
        return false;
    }
    let mut i: usize = 0;
    while i <= n - m
        invariant
            m == pat@.len() == p@.len(),
            p@ == pat@,
            n == hay@.len(),
            m <= n,
            i <= n - m + 1,
            forall|t: int| 0 <= t < i ==> #[trigger] hay@.subrange(t, t + m) != pat@,
        decreases n + 1 - i,
    {
        let mut j: usize = 0;
        let mut all: bool = true;
        while j < m
            invariant
                m == p@.len(),
                p@ == pat@,
                n == hay@.len(),
                i + m <= n,
                j <= m,
                all == (hay@.subrange(i as int, i + j) =~= pat@.subrange(0, j as int)),
            decreases m - j,
        {
            let ghost prev = all;
            if hay[i + j] != p[j] {
                all = false;
            }
            proof {
                if prev && hay@[i + j] == p@[j as int] {
                    assert(hay@.subrange(i as int, i + j + 1) =~= hay@.subrange(
                        i as int,
                        i + j,
                    ).push(hay@[i + j]));
                    assert(pat@.subrange(0, j + 1) =~= pat@.subrange(0, j as int).push(
                        pat@[j as int],
                    ));
                } else {
                    if !(hay@.subrange(i as int, i + j + 1) != pat@.subrange(0, j + 1)) {
                        assert(hay@.subrange(i as int, i + j + 1)[j as int] == pat@.subrange(
                            0,
                            j + 1,
                        )[j as int]);
                        assert(hay@.subrange(i as int, i + j)
                            =~= hay@.subrange(i as int, i + j + 1).take(j as int));
                        assert(pat@.subrange(0, j as int)
                            =~= pat@.subrange(0, j + 1).take(j as int));
                    }
                }
            }
            j = j + 1;
        }
        proof {
            assert(pat@.subrange(0, m as int) =~= pat@);
        }
        if all {
            return true;
        }
        i = i + 1;
    }
    proof {
        assert forall|t: int| 0 <= t <= hay@.len() - pat@.len() implies #[trigger] hay@.subrange(
            t,
            t + pat@.len(),
        ) != pat@ by {}
    }
    false
}


/// Character-for-character string equality.
pub fn str_eq(a: &str, b: &str) -> (r: bool)
    ensures
        r == (a@ == b@),
{
    let na: usize = a.unicode_len();
    let nb: usize = b.unicode_len();
    if na != nb {
        proof {
            assert(a@ != b@);
        }
        return false;
    }
    let mut i: usize = 0;
    while i < na
        invariant
            na == a@.len() == b@.len(),
            i <= na,
            forall|k: int| 0 <= k < i ==> a@[k] == b@[k],
        decreases na - i,
    {
        if a.get_char(i) != b.get_char(i) {
            return false;
        }
        i = i + 1;
    }
    proof {
        assert(a@ =~= b@);
    }
    true
}

} // verus!
