use madu::chunking::extract_chunks;
use madu::normalize::{normalize_content, normalize_line};
use madu::score::calculate_duplication_percentage;
use madu::simple_hash;

fn lines(v: &[&str]) -> Vec<String> {
    v.iter().map(|s| s.to_string()).collect()
}

const SHARED: &str = "oxyimcfip6nzb353y5mzf5obr704yhqgeyygdvpf57nje8c5mj32s9w1ikg8uw56mtjw7s6e68owpasvorc1qyt0lzhkbmkthayvk1oi0200fesgcfg77xj65jembivyhtwuxa5ndcllv12hfmo54jyhg2i26f4zx3odmd2hgnabx17f6m6ou7y7massfuzosf90xu7twsgm5xytnszy7wx1m576frke5r0hrsr6rr0pxpp63po7mx5ghyfk1cibmqfg33sfiweucfixeocuoswue7hw1kkqyj1eg8ofslvmgdd9lk9usp64hfiioun0lki2d2s01x5x7ltr4ir5686sn7zi54hszccx6swybjafl2i1gx6cxwgug4kp4xwx1xcjudco6x4x49ltirb2sq3ssz52f52vigx3x4yn87lj6cf9tnjzqmhac2nuubabittacnvuf0pag76m40h16jejw1dq0mbse5ukodztqt7rbznnmh5jupf1w6953xik4go7vk9po1mvire2ujpzbuzwthhy20a5v9mba6ux4glhd2rf9bmpedvwyu5k5rd43p8d66z274kh6kvs8zh29ltk";

const UNIQUE: &str = "1gzwe3k81iopx5mxo3lc5j30mb83n8lgqksfaubqs79hmsyuoow5hsy3x5r4vadj2eosbxini6vwvs4mzeoptt0ua9kg503yz7btdcmmgvmjgei9rn9vgndkjxkf5ronrbbpj772o4kq70ac3dye4rnb1gsnvovoaoic854jjy1mpvgquzu51nljs1shqi2zk4oqq8ew87flj4268jmi11atefz78n3xy9703a2s2smpecdqibco36o5stpe51xpidnm130curomwh8i16a5jxhz3mlqfa2v5bw5dky0ol78ihxxgxvoc919336wcyidiu6jcwywnpwk47dvlkoslro1o9orwrnyfxxjux7m7tlu0t6ggvmvo5l46vms96lmtmgvhmj9gztbc138finc1kfzh3o16w5ov9vcb36ayv5s4k2mldj8nf5kd01mzsrlkneoiz6stipre3a5u2ks13h4cgcd9fghtxnf3hawnl51s9ifraxv2war6rd1jqspzi7gok0usbg3hz8vab0574x8umuhco69i26z2bbgvdol6uo9ca79679oqf24ct5c4qgowloeq4wvr6ufawxuutl5";

#[test]
fn identical_files_score_full() {
    let content = [
        "let alpha = beta + gamma;",
        "fn compute(x: u64) -> u64 { x * 3 + 7 }",
        "let delta = alpha * alpha;",
        "return delta + compute(alpha);",
    ];
    let target = lines(&content);
    let corpus = vec![lines(&content)];
    assert_eq!(calculate_duplication_percentage(&target, &corpus), 100);
}

#[test]
fn small_file_scores_zero() {
    // exactly 99 normalized bytes, below the 100-byte threshold
    let base = "qwertyuiopasdfghjklzxcvbnmqwzz";
    let target = lines(&[base, base, base, "qwert"]);
    assert_eq!(normalize_content(&target).len(), 99);
    let corpus = vec![lines(&[SHARED])];
    assert_eq!(calculate_duplication_percentage(&target, &corpus), 0);
}

#[test]
fn disjoint_corpus_scores_zero() {
    let target = lines(&[
        "zzz111 independent text with no overlap at all qqq",
        "another completely different line of content here",
        "and a third line to push the byte count over limit",
    ]);
    let corpus = vec![lines(&[SHARED])];
    assert_eq!(calculate_duplication_percentage(&target, &corpus), 0);
}

#[test]
fn half_duplicated_scores_about_half() {
    // the target is the shared block followed by an equally long unique
    // block; chunk boundaries land so that exactly half the chunks match
    let target = lines(&[SHARED, UNIQUE]);
    let corpus = vec![lines(&[SHARED])];
    assert_eq!(calculate_duplication_percentage(&target, &corpus), 50);
}

#[test]
fn singleton_corpus_scores_zero() {
    // self-exclusion: the corpus for a target holds the other files only,
    // so a corpus of just the target itself is empty
    let target = lines(&[SHARED]);
    let corpus: Vec<Vec<String>> = vec![];
    assert_eq!(calculate_duplication_percentage(&target, &corpus), 0);
}

#[test]
fn chunking_is_deterministic() {
    let content = normalize_content(&lines(&[SHARED, UNIQUE]));
    let a = extract_chunks(&content);
    let b = extract_chunks(&content);
    assert_eq!(a, b);
    assert!(!a.is_empty());
}

#[test]
fn short_content_has_no_chunks() {
    assert_eq!(extract_chunks("abcdefghijklmnopqrstuvwxyz01234"), Vec::<u64>::new());
}

#[test]
fn single_span_content_yields_one_fingerprint() {
    let content = normalize_content(&lines(&["p8ix4ea4q9om4894zjoj7yaekctbr4y1z2ixgci5"]));
    assert_eq!(content.len(), 41);
    let chunks = extract_chunks(&content);
    assert_eq!(chunks, vec![simple_hash(content.as_bytes())]);
    assert_eq!(chunks, vec![6839450876019917546u64]);
}

#[test]
fn shared_content_chunk_count() {
    let content = normalize_content(&lines(&[SHARED]));
    assert_eq!(extract_chunks(&content).len(), 5);
}

#[test]
fn normalize_line_strips_noise() {
    assert_eq!(normalize_line("  Hello  World // comment"), "helloworldcomment");
    assert_eq!(normalize_line("\tlet X = 1; /* note */"), "letx=1;note");
    assert_eq!(normalize_line("# heading"), "heading");
    assert_eq!(normalize_line("   "), "");
    assert_eq!(normalize_line("a/ /b"), "ab");
}

#[test]
fn normalize_line_removes_markers_to_a_fixed_point() {
    // deleting the # joins the two slashes; the next round removes them
    assert_eq!(normalize_line("/#/"), "");
    assert_eq!(normalize_line("ab/#/cd"), "abcd");
    assert_eq!(normalize_line("x/#*y"), "xy");
    assert_eq!(normalize_line("##"), "");
}

#[test]
fn normalize_lowercases_after_cleaning() {
    // a capital sigma next to a removed space lowercases by its position
    // in the cleaned text, where it is no longer word-final
    assert_eq!(normalize_line("A\u{03A3} B"), "a\u{03C3}b");
}

#[test]
fn normalize_content_drops_blank_lines() {
    let input = lines(&["A b", "", "  ", "c#d", "\t"]);
    assert_eq!(normalize_content(&input), "ab\ncd\n");
}

#[test]
fn normalize_lowercases() {
    assert_eq!(normalize_line("ABC"), "abc");
    assert_eq!(normalize_line("MiXeD123"), "mixed123");
}

#[test]
fn normalize_trims_unicode_whitespace() {
    // vertical tab is Unicode whitespace, so trimming removes it at the ends
    assert_eq!(normalize_line("\u{000B}abc\u{000B}"), "abc");
}

#[test]
fn simple_hash_known_value() {
    assert_eq!(simple_hash(b"abc"), 96354);
    assert_eq!(simple_hash(b""), 0);
    assert_eq!(simple_hash(b"a"), 97);
}

#[test]
fn fast_pow_values() {
    assert_eq!(madu::fast_pow(257, 2, 1000), 49);
    assert_eq!(madu::fast_pow(2, 10, 1_000_000_007), 1024);
    assert_eq!(madu::fast_pow(5, 0, 7), 1);
    assert_eq!(madu::fast_pow(257, 31, 1_000_000_007), {
        let mut acc: u64 = 1;
        for _ in 0..31 {
            acc = acc * 257 % 1_000_000_007;
        }
        acc
    });
}
