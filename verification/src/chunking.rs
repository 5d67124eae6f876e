//! Content-defined chunking: a rolling hash over a 32-byte sliding window
//! marks a cut wherever the hash's low 8 bits are zero, and the cuts are
//! turned into chunk spans of at least 20 bytes; spans shorter than that
//! merge forward into the next one. Each span is fingerprinted.

use crate::hashing::{
    fast_pow, fingerprint_of, lemma_poly_hash_bounds, lemma_poly_hash_empty,
    lemma_poly_hash_push, lemma_poly_hash_roll, poly_hash, simple_hash, BASE, MODULUS,
};
use vstd::arithmetic::power::pow;
use vstd::prelude::*;
use vstd::string::StringSliceAdditionalSpecFns;

verus! {

/// Size in bytes of the sliding hash window.
pub const WINDOW: usize = 32;

/// Minimum chunk span length in bytes.
pub const MIN_CHUNK: usize = 20;

/// A cut lies at `j` when the window starting there hashes to a value
/// whose low 8 bits are zero. Only windows the rolling scan visits
/// count: the window must end strictly before the last byte's successor,
/// so the final window of the content is never tested.
pub open spec fn is_cut(s: Seq<u8>, j: int) -> bool {
    &&& 0 <= j
    &&& j + WINDOW < s.len()
    &&& poly_hash(s.subrange(j, j + WINDOW)) % 256 == 0
}

/// Position of the first cut at or after `j`, or -1 when there is none.
pub open spec fn next_cut_from(s: Seq<u8>, j: int) -> int
    decreases s.len() - j,
{
    if j < 0 || j + WINDOW >= s.len() {
        -1
    } else if is_cut(s, j) {
        j
    } else {
        next_cut_from(s, j + 1)
    }
}

pub proof fn lemma_next_cut_ge(s: Seq<u8>, j: int)
    ensures
        next_cut_from(s, j) == -1 || next_cut_from(s, j) >= j,
    decreases s.len() - j,
{
    if !(j < 0 || j + WINDOW >= s.len()) && !is_cut(s, j) {
        lemma_next_cut_ge(s, j + 1);
    }
}

/// When `next_cut_from` finds nothing, there is no cut at or after `j`.
pub proof fn lemma_next_cut_none(s: Seq<u8>, j: int)
    requires
        j >= 0,
        next_cut_from(s, j) == -1,
    ensures
        forall|t: int| t >= j ==> !is_cut(s, t),
    decreases s.len() - j,
{
    if j + WINDOW >= s.len() {
        assert forall|t: int| t >= j implies !is_cut(s, t) by {}
    } else {
        lemma_next_cut_none(s, j + 1);
    }
}

/// When `next_cut_from` finds a cut, it is the least one at or after `j`.
pub proof fn lemma_next_cut_some(s: Seq<u8>, j: int)
    requires
        j >= 0,
        next_cut_from(s, j) >= 0,
    ensures
        is_cut(s, next_cut_from(s, j)),
        next_cut_from(s, j) >= j,
        forall|t: int| j <= t < next_cut_from(s, j) ==> !is_cut(s, t),
    decreases s.len() - j,
{
    if !(j + WINDOW >= s.len()) && !is_cut(s, j) {
        lemma_next_cut_some(s, j + 1);
    }
}

/// Conversely, the least cut at or after `j` is what `next_cut_from` finds.
pub proof fn lemma_next_cut_val(s: Seq<u8>, j: int, c: int)
    requires
        0 <= j <= c,
        is_cut(s, c),
        forall|t: int| j <= t < c ==> !is_cut(s, t),
    ensures
        next_cut_from(s, j) == c,
    decreases c - j,
{
    if j < c {
        lemma_next_cut_val(s, j + 1, c);
    }
}

/// And when no cut lies at or after `j`, `next_cut_from` finds nothing.
pub proof fn lemma_next_cut_none_val(s: Seq<u8>, j: int)
    requires
        0 <= j,
        forall|t: int| t >= j ==> !is_cut(s, t),
    ensures
        next_cut_from(s, j) == -1,
    decreases s.len() - j,
{
    if !(j + WINDOW >= s.len()) {
        lemma_next_cut_none_val(s, j + 1);
    }
}

/// Fingerprints of the chunk spans of `s` from position `start` on: a span
/// ends at the first cut at least `MIN_CHUNK` bytes further, and the final
/// span reaches the end of the content, where it counts only if it is at
/// least `MIN_CHUNK` bytes long.
pub open spec fn chunk_fps_from(s: Seq<u8>, start: int) -> Seq<u64>
    decreases s.len() - start,
    when start >= 0
    via chunk_fps_from_decreases
{
    let c = next_cut_from(s, start + MIN_CHUNK);
    if c < 0 {
        if s.len() - start >= MIN_CHUNK {
            seq![fingerprint_of(s.subrange(start, s.len() as int))]
        } else {
            Seq::empty()
        }
    } else {
        seq![fingerprint_of(s.subrange(start, c))] + chunk_fps_from(s, c)
    }
}

#[via_fn]
proof fn chunk_fps_from_decreases(s: Seq<u8>, start: int) {
    lemma_next_cut_ge(s, start + MIN_CHUNK);
    if next_cut_from(s, start + MIN_CHUNK) >= 0 {
        lemma_next_cut_some(s, start + MIN_CHUNK);
    }
}

/// All chunk fingerprints of a content: none when the content is shorter
/// than the hash window, else the spans from the start of the content.
pub open spec fn chunk_fps(s: Seq<u8>) -> Seq<u64> {
    if s.len() < WINDOW {
        Seq::empty()
    } else {
        chunk_fps_from(s, 0)
    }
}

/// Chunking is deterministic: the fingerprint list is a function of the
/// content bytes alone, so chunking the same content twice yields the
/// same spans and the same fingerprints.
pub proof fn lemma_chunking_deterministic(c1: Seq<u8>, c2: Seq<u8>)
    requires
        c1 =~= c2,
    ensures
        chunk_fps(c1) == chunk_fps(c2),
{
}

/// The sorted sequence of all cut positions below `m`.
pub open spec fn cuts_upto(s: Seq<u8>, m: int) -> Seq<usize>
    decreases m,
{
    if m <= 0 {
        Seq::empty()
    } else if is_cut(s, m - 1) {
        cuts_upto(s, m - 1).push((m - 1) as usize)
    } else {
        cuts_upto(s, m - 1)
    }
}

pub proof fn lemma_cuts_upto_props(s: Seq<u8>, m: int)
    requires
        m <= usize::MAX,
    ensures
        forall|k: int|
            0 <= k < cuts_upto(s, m).len() ==> is_cut(s, #[trigger] cuts_upto(s, m)[k] as int)
                && (cuts_upto(s, m)[k] as int) < m,
        forall|k1: int, k2: int|
            0 <= k1 < k2 < cuts_upto(s, m).len() ==> cuts_upto(s, m)[k1] < cuts_upto(s, m)[k2],
        forall|j: int|
            0 <= j < m && is_cut(s, j) ==> exists|k: int|
                0 <= k < cuts_upto(s, m).len() && cuts_upto(s, m)[k] as int == j,
    decreases m,
{
    if m > 0 {
        lemma_cuts_upto_props(s, m - 1);
        let prev = cuts_upto(s, m - 1);
        let cur = cuts_upto(s, m);
        assert forall|j: int| 0 <= j < m && is_cut(s, j) implies exists|k: int|
            0 <= k < cur.len() && cur[k] as int == j by {
            if j < m - 1 {
                let k = choose|k: int| 0 <= k < prev.len() && prev[k] as int == j;
                assert(cur[k] as int == j);
            } else if is_cut(s, m - 1) {
                assert(cur[cur.len() - 1] as int == j);
            }
        }
    }
}

/// Splits a normalized content into content-defined chunks and returns
/// their fingerprints, in content order.
pub fn extract_chunks(content: &str) -> (chunks: Vec<u64>)
    ensures
        chunks@ == chunk_fps(content.spec_bytes()),
{
    let bytes: &[u8] = content.as_bytes();
    let ghost s = bytes@;
    let n: usize = bytes.len();
    let mut chunks: Vec<u64> = Vec::new();

    if n < WINDOW {
        return chunks;
    }

    // hash of the first full window
    let mut rolling: u64 = 0;
    let mut i: usize = 0;
    proof {
        lemma_poly_hash_empty();
        assert(s.take(0) =~= Seq::<u8>::empty());
    }
    while i < WINDOW
        invariant
            i <= WINDOW,
            WINDOW <= n == s.len(),
            s == bytes@,
            rolling == poly_hash(s.take(i as int)),
            0 <= rolling < MODULUS,
        decreases WINDOW - i,
    {
        proof {
            assert(s.take(i + 1) =~= s.take(i as int).push(s[i as int]));
            lemma_poly_hash_push(s.take(i as int), s[i as int]);
            lemma_poly_hash_bounds(s.take(i + 1));
        }
        rolling = (rolling * BASE + bytes[i] as u64) % MODULUS;
        i = i + 1;
    }

    let power: u64 = fast_pow(BASE, WINDOW - 1, MODULUS);

    // roll the window across the content, recording every cut position
    let mut boundaries: Vec<usize> = Vec::new();
    let mut i: usize = WINDOW;
    proof {
        assert(s.take(WINDOW as int) =~= s.subrange(0, WINDOW as int));
    }
    while i < n
        invariant
            WINDOW <= i <= n == s.len(),
            s == bytes@,
            rolling == poly_hash(s.subrange(i - WINDOW, i as int)),
            0 <= rolling < MODULUS,
            power == pow(BASE as int, (WINDOW - 1) as nat) % (MODULUS as int),
            power < MODULUS,
            boundaries@ == cuts_upto(s, i - WINDOW),
        decreases n - i,
    {
        proof {
            lemma_poly_hash_bounds(s.subrange(i - WINDOW, i as int));
        }
        if rolling & 0xFF == 0 {
            proof {
                assert((rolling & 0xFF == 0) == (rolling % 256 == 0)) by (bit_vector);
                assert(is_cut(s, i - WINDOW));
            }
            boundaries.push(i - WINDOW);
        } else {
            proof {
                assert((rolling & 0xFF == 0) == (rolling % 256 == 0)) by (bit_vector);
                assert(!is_cut(s, i - WINDOW));
            }
        }
        proof {
            assert(cuts_upto(s, i - WINDOW + 1) == (if is_cut(s, i - WINDOW) {
                cuts_upto(s, i - WINDOW).push((i - WINDOW) as usize)
            } else {
                cuts_upto(s, i - WINDOW)
            }));
        }
        let outgoing = bytes[i - WINDOW];
        let ghost w = s.subrange(i - WINDOW, i as int);
        proof {
            lemma_poly_hash_roll(w, s[i as int]);
            assert(w.drop_first().push(s[i as int]) =~= s.subrange(i - WINDOW + 1, i + 1));
            assert(w[0] == s[i - WINDOW]);
            assert((outgoing as int) * (power as int) < 0x1_0000_0000_0000_0000) by (nonlinear_arith)
                requires
                    outgoing <= 255,
                    0 <= power < 1_000_000_007u64,
            ;
        }
        rolling = (rolling + MODULUS - (outgoing as u64 * power) % MODULUS) % MODULUS;
        rolling = (rolling * BASE + bytes[i] as u64) % MODULUS;
        i = i + 1;
    }

    proof {
        lemma_cuts_upto_props(s, n - WINDOW as int);
        assert forall|j: int| is_cut(s, j) implies 0 <= j < n - WINDOW as int by {}
    }

    // turn the cuts into chunk spans; a span shorter than MIN_CHUNK merges
    // forward by skipping its cut
    let ghost bl = boundaries@;
    let mut start: usize = 0;
    let mut k: usize = 0;
    while k < boundaries.len()
        invariant
            s == bytes@,
            n == s.len(),
            WINDOW <= n,
            bl == boundaries@,
            bl == cuts_upto(s, n - WINDOW as int),
            k <= bl.len(),
            start as int == 0 || (k > 0 && is_cut(s, start as int)),
            start + WINDOW < n || start as int == 0,
            forall|kk: int| 0 <= kk < k ==> bl[kk] < start + MIN_CHUNK,
            chunks@ + chunk_fps_from(s, start as int) == chunk_fps_from(s, 0),
        decreases boundaries.len() - k,
    {
        let b = boundaries[k];
        proof {
            lemma_cuts_upto_props(s, n - WINDOW as int);
        }
        if b >= start + MIN_CHUNK {
            proof {
                assert forall|t: int| start + MIN_CHUNK <= t < b implies !is_cut(s, t) by {
                    if is_cut(s, t) {
                        let kk = choose|kk: int|
                            0 <= kk < bl.len() && bl[kk] as int == t;
                        assert(bl[kk] < bl[k as int]);
                        assert(kk < k);
                    }
                }
                lemma_next_cut_val(s, start + MIN_CHUNK, b as int);
                assert(chunk_fps_from(s, start as int) == seq![
                    fingerprint_of(s.subrange(start as int, b as int)),
                ] + chunk_fps_from(s, b as int));
            }
            let piece = vstd::slice::slice_subrange(bytes, start, b);
            let fp = simple_hash(piece);
            chunks.push(fp);
            start = b;
        }
        k = k + 1;
    }

    // the trailing span
    proof {
        lemma_cuts_upto_props(s, n - WINDOW as int);
        assert forall|t: int| t >= start + MIN_CHUNK implies !is_cut(s, t) by {
            if is_cut(s, t) {
                let kk = choose|kk: int| 0 <= kk < bl.len() && bl[kk] as int == t;
            }
        }
        lemma_next_cut_none_val(s, start + MIN_CHUNK);
    }
    if n - start >= MIN_CHUNK {
        let piece = vstd::slice::slice_subrange(bytes, start, n);
        let fp = simple_hash(piece);
        proof {
            assert(s.subrange(start as int, n as int) == s.subrange(start as int, s.len() as int));
        }
        chunks.push(fp);
    }
    chunks
}


/// A fingerprint somewhere in a chunk suffix is in any concatenation that
/// ends with that suffix.
proof fn lemma_concat_contains(a: Seq<u64>, b: Seq<u64>, f: u64)
    requires
        b.contains(f),
    ensures
        (a + b).contains(f),
{
    let i = choose|i: int| 0 <= i < b.len() && b[i] == f;
    assert((a + b)[a.len() + i] == f);
}

/// A cut is "stable" at `j` when no other cut lies in the `MIN_CHUNK - 1`
/// positions before it. The greedy span construction always ends a span
/// exactly at a stable cut, no matter where it started: whatever span is
/// open when the scan approaches `j` must have begun at least `MIN_CHUNK`
/// bytes before `j`, and every closer cut is ruled out. So every chunk
/// fingerprint produced from `j` on is produced from `st` on too.
pub proof fn lemma_chunks_reach_stable_cut(s: Seq<u8>, st: int, j: int)
    requires
        0 <= st,
        st + MIN_CHUNK <= j,
        is_cut(s, j),
        forall|t: int| j - MIN_CHUNK < t < j ==> !is_cut(s, t),
    ensures
        forall|f: u64|
            chunk_fps_from(s, j).contains(f) ==> #[trigger] chunk_fps_from(s, st).contains(f),
    decreases j - st,
{
    let c = next_cut_from(s, st + MIN_CHUNK);
    lemma_next_cut_ge(s, st + MIN_CHUNK);
    if c < 0 {
        lemma_next_cut_none(s, st + MIN_CHUNK);
        assert(false);
    }
    lemma_next_cut_some(s, st + MIN_CHUNK);
    if c > j {
        assert(!is_cut(s, j));
        assert(false);
    }
    let head = seq![fingerprint_of(s.subrange(st, c))];
    assert(chunk_fps_from(s, st) == head + chunk_fps_from(s, c));
    if c == j {
        assert forall|f: u64| chunk_fps_from(s, j).contains(f) implies chunk_fps_from(
            s,
            st,
        ).contains(f) by {
            lemma_concat_contains(head, chunk_fps_from(s, j), f);
        }
    } else {
        // c is a cut before j, so stability pushes it MIN_CHUNK bytes back
        assert(c <= j - MIN_CHUNK);
        lemma_chunks_reach_stable_cut(s, c, j);
        assert forall|f: u64| chunk_fps_from(s, j).contains(f) implies chunk_fps_from(
            s,
            st,
        ).contains(f) by {
            assert(chunk_fps_from(s, c).contains(f));
            lemma_concat_contains(head, chunk_fps_from(s, c), f);
        }
    }
}

/// Cuts are a property of the window bytes alone: where `b` occurs inside
/// `a` at offset `o`, the interior cut positions agree.
pub proof fn lemma_cut_local(a: Seq<u8>, b: Seq<u8>, o: int, j: int)
    requires
        0 <= o,
        o + b.len() <= a.len(),
        a.subrange(o, o + b.len()) == b,
        0 <= j,
        j + WINDOW < b.len(),
    ensures
        is_cut(b, j) == is_cut(a, o + j),
{
    assert(b.subrange(j, j + WINDOW) =~= a.subrange(o + j, o + j + WINDOW));
}

/// The content-defined property: when the whole of one content `b` occurs
/// verbatim inside another content `a`, and `b` has a stable cut `j1`
/// (no other cut in the `MIN_CHUNK - 1` positions before it, and none of
/// the first `MIN_CHUNK` positions) followed by a further cut at least
/// `MIN_CHUNK` bytes later, then one chunk of `a` and one chunk of `b` are
/// fingerprint-identical: boundaries depend only on the local window, so
/// both contents cut the shared bytes in the same places.
pub proof fn lemma_content_defined_match(a: Seq<u8>, b: Seq<u8>, o: int, j1: int, j2: int)
    requires
        0 <= o,
        o + b.len() <= a.len(),
        a.subrange(o, o + b.len()) == b,
        MIN_CHUNK <= j1,
        is_cut(b, j1),
        forall|t: int| j1 - MIN_CHUNK < t < j1 ==> !is_cut(b, t),
        j1 + MIN_CHUNK <= j2,
        is_cut(b, j2),
    ensures
        exists|f: u64| #[trigger] chunk_fps(a).contains(f) && chunk_fps(b).contains(f),
{
    // the next cut of b at least MIN_CHUNK past j1; j2 witnesses that it exists
    let c2 = next_cut_from(b, j1 + MIN_CHUNK);
    lemma_next_cut_ge(b, j1 + MIN_CHUNK);
    if c2 < 0 {
        lemma_next_cut_none(b, j1 + MIN_CHUNK);
        assert(false);
    }
    lemma_next_cut_some(b, j1 + MIN_CHUNK);
    assert(c2 <= j2);
    let fp = fingerprint_of(b.subrange(j1, c2));

    // b's own chunks: the span [j1, c2) is emitted
    assert(chunk_fps_from(b, j1) == seq![fp] + chunk_fps_from(b, c2));
    assert(chunk_fps_from(b, j1).contains(fp)) by {
        assert(chunk_fps_from(b, j1)[0] == fp);
    }
    lemma_chunks_reach_stable_cut(b, 0, j1);
    assert(chunk_fps_from(b, 0).contains(fp));

    // the same cuts exist in a, shifted by o
    lemma_cut_local(a, b, o, j1);
    assert(is_cut(a, o + j1));
    assert forall|t: int| o + j1 - MIN_CHUNK < t < o + j1 implies !is_cut(a, t) by {
        let u = t - o;
        lemma_cut_local(a, b, o, u);
        assert(!is_cut(b, u));
    }
    assert(next_cut_from(a, o + j1 + MIN_CHUNK) == o + c2) by {
        lemma_cut_local(a, b, o, c2);
        assert forall|t: int| o + j1 + MIN_CHUNK <= t < o + c2 implies !is_cut(a, t) by {
            let u = t - o;
            lemma_cut_local(a, b, o, u);
            assert(!is_cut(b, u));
        }
        lemma_next_cut_val(a, o + j1 + MIN_CHUNK, o + c2);
    }

    // a's chunk starting at o + j1 carries the same bytes, so the same print
    assert(a.subrange(o + j1, o + c2) =~= b.subrange(j1, c2));
    assert(chunk_fps_from(a, o + j1) == seq![fp] + chunk_fps_from(a, o + c2));
    assert(chunk_fps_from(a, o + j1).contains(fp)) by {
        assert(chunk_fps_from(a, o + j1)[0] == fp);
    }
    lemma_chunks_reach_stable_cut(a, 0, o + j1);
    assert(chunk_fps_from(a, 0).contains(fp));

    assert(b.len() >= WINDOW);
    assert(a.len() >= WINDOW);
    assert(chunk_fps(a).contains(fp) && chunk_fps(b).contains(fp));
}

} // verus!
