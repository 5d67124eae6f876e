//! The duplication scorer: a file's score is the share of its chunk
//! fingerprints that also occur in the corpus index, the set of all chunk
//! fingerprints of the other files of the corpus. The result is an
//! integer percentage, floor-divided and clamped to [0, 100].

use crate::chunking::{chunk_fps, extract_chunks};
use crate::normalize::{normalize_content, normalized_text};
use std::collections::HashSet;
use vstd::prelude::*;
use vstd::utf8::encode_utf8;

verus! {

broadcast use vstd::std_specs::hash::group_hash_axioms;

/// The smallest normalized byte length a file must have to be scored.
pub const MIN_CONTENT_LEN: usize = 100;

/// The chunk fingerprints of one file, given as its raw lines.
pub open spec fn file_chunk_fps(lines: Seq<Seq<char>>) -> Seq<u64> {
    chunk_fps(encode_utf8(normalized_text(lines)))
}

/// The set of fingerprints in a list.
pub open spec fn fps_set(fps: Seq<u64>) -> Set<u64>
    decreases fps.len(),
{
    if fps.len() == 0 {
        Set::empty()
    } else {
        fps_set(fps.drop_first()).insert(fps.first())
    }
}

/// The corpus index: every chunk fingerprint of every corpus file.
pub open spec fn corpus_fp_set(corpus: Seq<Seq<Seq<char>>>) -> Set<u64>
    decreases corpus.len(),
{
    if corpus.len() == 0 {
        Set::empty()
    } else {
        corpus_fp_set(corpus.drop_first()).union(fps_set(file_chunk_fps(corpus.first())))
    }
}

/// How many entries of `fps` lie in `idx`, counting each target chunk
/// instance, not each distinct fingerprint.
pub open spec fn count_dup(fps: Seq<u64>, idx: Set<u64>) -> int
    decreases fps.len(),
{
    if fps.len() == 0 {
        0
    } else {
        (if idx.contains(fps.first()) {
            1int
        } else {
            0int
        }) + count_dup(fps.drop_first(), idx)
    }
}

pub proof fn lemma_count_dup_bounds(fps: Seq<u64>, idx: Set<u64>)
    ensures
        0 <= count_dup(fps, idx) <= fps.len(),
    decreases fps.len(),
{
    if fps.len() > 0 {
        lemma_count_dup_bounds(fps.drop_first(), idx);
    }
}

/// The duplication score of a target file against a corpus of other
/// files, all given as raw lines. A target whose normalized content is
/// shorter than `MIN_CONTENT_LEN` bytes, or yields no chunks, scores 0.
pub open spec fn spec_duplication_score(
    target: Seq<Seq<char>>,
    corpus: Seq<Seq<Seq<char>>>,
) -> int {
    let bytes = encode_utf8(normalized_text(target));
    if bytes.len() < MIN_CONTENT_LEN {
        0
    } else {
        let fps = chunk_fps(bytes);
        if fps.len() == 0 {
            0
        } else {
            let p = count_dup(fps, corpus_fp_set(corpus)) * 100 / (fps.len() as int);
            if p > 100 {
                100int
            } else {
                p
            }
        }
    }
}

/// Score bounds: for every target and corpus the score lies in [0, 100].
pub proof fn lemma_score_bounds(target: Seq<Seq<char>>, corpus: Seq<Seq<Seq<char>>>)
    ensures
        0 <= spec_duplication_score(target, corpus) <= 100,
{
    let bytes = encode_utf8(normalized_text(target));
    if bytes.len() >= MIN_CONTENT_LEN {
        let fps = chunk_fps(bytes);
        if fps.len() != 0 {
            let d = count_dup(fps, corpus_fp_set(corpus));
            lemma_count_dup_bounds(fps, corpus_fp_set(corpus));
            vstd::arithmetic::div_mod::lemma_div_pos_is_pos(d * 100, fps.len() as int);
        }
    }
}

/// Computes the duplication percentage of a target file against the other
/// files of the corpus: normalize and chunk every corpus file into one
/// fingerprint index, then count how many of the target's own chunks the
/// index holds.
pub fn calculate_duplication_percentage(
    target_lines: &Vec<String>,
    corpus: &Vec<Vec<String>>,
) -> (score: usize)
    ensures
        score == spec_duplication_score(target_lines.deep_view(), corpus.deep_view()),
        score <= 100,
{
    let content = normalize_content(target_lines);
    let byte_len: usize = content.as_str().as_bytes().len();
    if byte_len < MIN_CONTENT_LEN {
        return 0;
    }
    let fps = extract_chunks(content.as_str());
    let total: usize = fps.len();
    if total == 0 {
        return 0;
    }

    let ghost cs = corpus.deep_view();
    let mut index: HashSet<u64> = HashSet::new();
    let nf: usize = corpus.len();
    let mut f: usize = 0;
    proof {
        assert(cs.skip(0) =~= cs);
        assert(index@ =~= Set::<u64>::empty());
        assert(corpus_fp_set(cs) =~= index@.union(corpus_fp_set(cs.skip(0))));
    }
    while f < nf
        invariant
            nf == corpus@.len(),
            cs == corpus.deep_view(),
            cs.len() == nf,
            f <= nf,
            vstd::std_specs::hash::obeys_key_model::<u64>(),
            vstd::std_specs::hash::builds_valid_hashers::<std::hash::RandomState>(),
            corpus_fp_set(cs) == index@.union(corpus_fp_set(cs.skip(f as int))),
        decreases nf - f,
    {
        let ghost tail = cs.skip(f as int);
        proof {
            assert(tail.first() == cs[f as int]);
            assert(cs[f as int] == corpus@[f as int].deep_view());
            assert(tail.drop_first() =~= cs.skip(f + 1));
        }
        let fcontent = normalize_content(&corpus[f]);
        let ffps = extract_chunks(fcontent.as_str());
        let ghost file_fps = ffps@;
        let m: usize = ffps.len();
        let mut t: usize = 0;
        proof {
            assert(file_fps.skip(0) =~= file_fps);
        }
        while t < m
            invariant
                m == ffps@.len(),
                file_fps == ffps@,
                t <= m,
                vstd::std_specs::hash::obeys_key_model::<u64>(),
                vstd::std_specs::hash::builds_valid_hashers::<std::hash::RandomState>(),
                corpus_fp_set(cs) == index@.union(fps_set(file_fps.skip(t as int))).union(
                    corpus_fp_set(cs.skip(f + 1)),
                ),
            decreases m - t,
        {
            let ghost ftail = file_fps.skip(t as int);
            proof {
                assert(ftail.first() == file_fps[t as int]);
                assert(ftail.drop_first() =~= file_fps.skip(t + 1));
            }
            let ghost idx0 = index@;
            index.insert(ffps[t]);
            proof {
                assert(fps_set(ftail) == fps_set(file_fps.skip(t + 1)).insert(file_fps[t as int]));
                assert(idx0.insert(file_fps[t as int]).union(fps_set(file_fps.skip(t + 1))).union(
                    corpus_fp_set(cs.skip(f + 1)),
                ) =~= idx0.union(fps_set(ftail)).union(corpus_fp_set(cs.skip(f + 1))));
            }
            t = t + 1;
        }
        proof {
            assert(fps_set(file_fps.skip(m as int)) =~= Set::<u64>::empty());
            assert(index@.union(fps_set(file_fps.skip(m as int))).union(
                corpus_fp_set(cs.skip(f + 1)),
            ) =~= index@.union(corpus_fp_set(cs.skip(f + 1))));
        }
        f = f + 1;
    }
    proof {
        assert(cs.skip(nf as int) =~= Seq::<Seq<Seq<char>>>::empty());
        assert(corpus_fp_set(cs.skip(nf as int)) =~= Set::<u64>::empty());
        assert(index@.union(Set::<u64>::empty()) =~= index@);
        assert(index@ == corpus_fp_set(cs));
    }

    // count the target chunks the index holds
    let ghost tf = fps@;
    let mut dup: usize = 0;
    let mut i: usize = 0;
    proof {
        assert(tf.skip(0) =~= tf);
    }
    while i < total
        invariant
            total == fps@.len(),
            tf == fps@,
            i <= total,
            dup <= i,
            vstd::std_specs::hash::obeys_key_model::<u64>(),
            vstd::std_specs::hash::builds_valid_hashers::<std::hash::RandomState>(),
            index@ == corpus_fp_set(corpus.deep_view()),
            count_dup(tf, index@) == dup + count_dup(tf.skip(i as int), index@),
        decreases total - i,
    {
        let ghost ttail = tf.skip(i as int);
        proof {
            assert(ttail.first() == tf[i as int]);
            assert(ttail.drop_first() =~= tf.skip(i + 1));
        }
        if index.contains(&fps[i]) {
            dup = dup + 1;
        }
        i = i + 1;
    }
    proof {
        assert(tf.skip(total as int) =~= Seq::<u64>::empty());
        assert(count_dup(tf, index@) == dup);
    }

    let q: u128 = (dup as u128) * 100 / (total as u128);
    proof {
        assert(q == count_dup(tf, index@) * 100 / (total as int));
    }
    if q > 100 {
        100
    } else {
        q as usize
    }
}

} // verus!
