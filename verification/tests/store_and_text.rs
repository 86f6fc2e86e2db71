//! Suffix array, corpus store, interner, tokenizer, hashing and snapshot codec.

use munou::charclass;
use munou::embed::HashEmbedder;
use munou::entropy;
use munou::entropy::EntropyModel;
use munou::ids::TokenId;
use munou::intern::Interner;
use munou::lcs;
use munou::params::Params;
use munou::sais;
use munou::snapshot::{R, W};
use munou::store::Store;
use munou::text;
use munou::tokenizer;
use munou::tokenizer::Tokenizer;

fn naive(text: &[TokenId]) -> Vec<u32> {
    let n = text.len();
    let mut sa: Vec<u32> = (0..n as u32).collect();
    sa.sort_by(|&i, &j| text[i as usize..].cmp(&text[j as usize..]));
    sa
}

#[test]
fn mississippi() {
    let s: Vec<TokenId> = b"mississippi".iter().map(|&c| c as u32).collect();
    assert_eq!(sais::suffix_array(&s), naive(&s));
}

#[test]
fn banana() {
    let s: Vec<TokenId> = b"banana".iter().map(|&c| c as u32).collect();
    assert_eq!(sais::suffix_array(&s), naive(&s));
}

#[test]
fn repeated_zeros() {
    let s = vec![0u32, 1, 0, 1, 0, 2, 0];
    assert_eq!(sais::suffix_array(&s), naive(&s));
}

#[test]
fn random_matches_naive() {
    let mut x = 0x1234_5678u64;
    for n in [1usize, 2, 3, 8, 17, 64, 200, 512] {
        let mut s = Vec::with_capacity(n);
        for _ in 0..n {
            x = x.wrapping_mul(6364136223846793005).wrapping_add(1);
            s.push(((x >> 33) as u32) % 7);
        }
        assert_eq!(sais::suffix_array(&s), naive(&s), "n={n}");
    }
}

#[test]
fn range_finds_pattern() {
    let s: Vec<TokenId> = b"banana".iter().map(|&c| c as u32).collect();
    let sa = sais::suffix_array(&s);
    let pat = vec![b'a' as u32, b'n' as u32];
    let (lo, hi) = sais::sa_range(&s, &sa, &pat).unwrap();
    assert!(hi - lo >= 2);
    for &i in &sa[lo..hi] {
        let i = i as usize;
        assert_eq!(&s[i..i + 2], pat.as_slice());
    }
}

#[test]
fn range_of_an_absent_pattern_is_none() {
    let s: Vec<TokenId> = b"banana".iter().map(|&c| c as u32).collect();
    let sa = sais::suffix_array(&s);
    assert_eq!(sais::sa_range(&s, &sa, &[b'x' as u32]), None);
    assert_eq!(sais::sa_range(&s, &sa, &[b'n' as u32, b'n' as u32]), None);
    assert!(sais::suffix_array(&[]).is_empty());
}

#[test]
fn suffix_array_of_wide_symbols() {
    let s = vec![90_000, 0, 70_000, 90_000, 0, 70_000, 16];
    assert_eq!(sais::suffix_array(&s), naive(&s));
}

#[test]
fn lookup_after_merge() {
    let mut s = Store::new(4);
    s.push_utterance(&[10, 11, 12]);
    s.push_utterance(&[10, 11, 13]);
    s.merge();
    let (c, total) = s.next_counts(&[10, 11]);
    assert!(total >= 2);
    let ids: Vec<TokenId> = c.iter().map(|(id, _)| *id).collect();
    assert!(ids.contains(&12) || ids.contains(&13));
}

/// Statistics of the buffer equal those of a merged store over the same stream.
#[test]
fn incremental_stats_match_recompute() {
    let mut a = Store::new(1024);
    let mut b = Store::new(1024);
    let utts: Vec<Vec<TokenId>> = vec![
        vec![20, 21, 22],
        vec![20, 21],
        vec![23, 20, 21, 22],
        vec![24],
        vec![20, 21, 22],
    ];
    for u in &utts {
        a.push_utterance(u);
        b.push_utterance(u);
    }
    b.merge();
    assert_eq!(a.bigram_count_of_counts(), b.bigram_count_of_counts());
    assert_eq!(a.continuation_unigram(), b.continuation_unigram());
    assert_eq!(a.unigram_counts(), b.unigram_counts());
}

/// Deferred pushes and one final merge give what pushes with merges on the way give.
#[test]
fn deferred_replay_equals_incremental_pushes() {
    let mut a = Store::new(8);
    let mut b = Store::new(8);
    let mut utts: Vec<Vec<TokenId>> = Vec::new();
    for i in 0..50u32 {
        utts.push(vec![20 + i % 7, 30 + i % 5, 40 + i % 3]);
    }
    for u in &utts {
        a.push_utterance(u);
    }
    a.merge();
    for u in &utts {
        b.push_utterance_deferred(u);
    }
    b.merge();
    assert_eq!(a.text, b.text);
    assert_eq!(a.sa, b.sa);
    assert_eq!(a.unigram_counts(), b.unigram_counts());
    assert_eq!(a.continuation_unigram(), b.continuation_unigram());
    assert_eq!(a.bigram_count_of_counts(), b.bigram_count_of_counts());
}

fn naive_counts(s: &Store, ctx: &[TokenId]) -> (Vec<(TokenId, u32)>, u32) {
    let mut acc = std::collections::BTreeMap::new();
    for text in [&s.text, &s.buf] {
        for i in 0..text.len() {
            if text[i..].starts_with(ctx) && i + ctx.len() < text.len() {
                *acc.entry(text[i + ctx.len()]).or_insert(0u32) += 1;
            }
        }
    }
    let total: u32 = acc.values().copied().sum();
    (acc.into_iter().collect(), total)
}

#[test]
fn next_counts_linear_and_binary_paths_agree() {
    let mut s = Store::new(32);
    for i in 0..100u32 {
        s.push_utterance(&[50, 51, 52 + (i % 3)]);
    }
    s.push_utterance(&[60, 61, 62]);
    s.merge();
    for ctx in [vec![50u32, 51], vec![60, 61], vec![51]] {
        let (got, total) = s.next_counts(&ctx);
        let (want, wtotal) = naive_counts(&s, &ctx);
        assert_eq!(got, want, "ctx={ctx:?}");
        assert_eq!(total, wtotal, "ctx={ctx:?}");
    }
}

#[test]
fn next_counts_see_the_buffer() {
    let mut s = Store::new(1024);
    s.push_utterance(&[50, 51]);
    s.merge();
    s.push_utterance(&[50, 52]);
    let (got, total) = s.next_counts(&[50]);
    assert_eq!(got, vec![(51, 1), (52, 1)]);
    assert_eq!(total, 2);
    assert!(s.contains_seq(&[50, 52]));
    assert!(!s.contains_seq(&[52, 50]));
    assert_eq!(s.longest_match_len(&[50, 51, 77]), 2);
    assert_eq!(s.longest_match_len(&[77, 50]), 0);
}

#[test]
fn store_counts_are_exact() {
    let mut s = Store::new(1024);
    assert!(s.is_empty());
    s.push_utterance(&[20, 21]);
    s.push_utterance(&[20, 21]);
    s.push_utterance(&[20, 22]);
    assert_eq!(s.count_of(20), 3);
    assert_eq!(s.count_of(21), 2);
    assert_eq!(s.count_of(99), 0);
    let (ml, total) = s.ml_unigram();
    assert_eq!(ml.iter().map(|(_, c)| *c).sum::<u32>(), total);
    assert!(ml.contains(&(20, 3)));
    let mut t = Store::new(1024);
    t.push_utterance(&[20, 21]);
    t.push_utterance(&[20, 21]);
    t.push_utterance(&[20, 22]);
    t.merge();
    let before = (t.text.clone(), t.sa.clone());
    t.rebuild_index();
    assert_eq!(before, (t.text.clone(), t.sa.clone()));
    assert_eq!(s.len(), t.len());
}

#[test]
fn snapshot_roundtrip() {
    let mut a = Interner::new();
    let id = a.intern("天気");
    let mut b = Interner::from_snapshot(a.snapshot());
    assert_eq!(b.get(id), "天気");
    assert_eq!(b.intern("天気"), id);
}

#[test]
fn interner_names_specials_and_resolves() {
    let mut a = Interner::new();
    assert_eq!(a.get(0), "<eos>");
    assert_eq!(a.get(1), "<bos>");
    assert_eq!(a.get(2), "<sep>");
    assert_eq!(a.vocab_user(), 0);
    let id = a.intern("空");
    assert_eq!(id, 16);
    assert_eq!(a.intern("空"), 16);
    assert_eq!(a.intern("海"), 17);
    assert_eq!(a.resolve("空"), Some(16));
    assert_eq!(a.resolve("山"), None);
    assert_eq!(a.vocab_user(), 2);
    assert_eq!(a.len(), 18);
}

/// Half of the entropy of what follows the gram, half of the logarithm of its kinds.
fn cut_scores(tok: &Tokenizer, text: &str) -> Vec<u64> {
    let chars = text::chars_of(text);
    let codes = entropy::codes_of(&chars);
    let mut out = vec![0.0f64.to_bits(); chars.len()];
    for i in 0..chars.len() {
        if tok.wants_score(&chars, i) {
            let next = tok.model.nexts_of(&tok.cut_gram(&codes, i));
            let total: u32 = next.iter().map(|(_, c)| *c).sum();
            let mut h = 0.0;
            for &(_, c) in &next {
                let p = c as f64 / total as f64;
                h -= p * p.ln();
            }
            out[i] = (0.5 * h + 0.5 * (next.len() as f64).max(1.0).ln()).to_bits();
        }
    }
    out
}

#[test]
fn splits_script_runs() {
    let tok = Tokenizer::new(&Params::default());
    let mut intern = Interner::new();
    let t = tok.tokenize(&mut intern, "hello世界123", &cut_scores(&tok, "hello世界123"));
    let morphs: Vec<&str> = t.morphemes.iter().map(|id| intern.get(*id)).collect();
    assert!(morphs.iter().any(|s| *s == "hello"));
    assert!(morphs.iter().any(|s| s.contains('世') || *s == "世"));
}

#[test]
fn entropy_cuts_after_observation() {
    let mut tok = Tokenizer::new(&Params::default());
    let corpus = "東京都の天気は晴れ。大阪府の天気は雨。北海道の天気は雪。";
    for _ in 0..40 {
        tok.observe(corpus);
    }
    let spans = tok.morph_spans(&text::chars_of(corpus), &cut_scores(&tok, corpus));
    assert!(spans.len() > 3, "got {spans:?}");
    let joined: String = spans
        .iter()
        .flat_map(|&(lo, hi)| corpus.chars().skip(lo).take(hi - lo))
        .collect();
    assert_eq!(joined, corpus);
}

#[test]
fn detokenize_ascii_spacing() {
    assert_eq!(tokenizer::detokenize(&["hello".into(), "world".into()]), "hello world");
    assert_eq!(tokenizer::detokenize(&["今日".into(), "は".into()]), "今日は");
}

#[test]
fn tokenize_drops_blanks_and_keeps_punctuation_apart() {
    let tok = Tokenizer::new(&Params::default());
    let mut intern = Interner::new();
    let line = "hello  world!";
    let t = tok.tokenize(&mut intern, line, &cut_scores(&tok, line));
    let morphs: Vec<&str> = t.morphemes.iter().map(|id| intern.get(*id)).collect();
    assert_eq!(morphs, vec!["hello", "world", "!"]);
    let blank = tok.tokenize(&mut intern, " \t　", &cut_scores(&tok, " \t　"));
    assert!(blank.morphemes.is_empty() && blank.chunks.is_empty());
}

#[test]
fn entropy_model_counts_grams() {
    let mut m = EntropyModel::new(2);
    m.observe("ababac");
    assert_eq!(m.total_chars, 6);
    assert!(!m.ready());
    let a = 'a' as u32;
    let b = 'b' as u32;
    let mut next = m.nexts_of(&vec![a]);
    next.sort();
    assert_eq!(next, vec![(b, 2), ('c' as u32, 1)]);
    assert_eq!(m.nexts_of(&vec![b, a]).len(), 2);
    assert!(m.nexts_of(&vec!['z' as u32]).is_empty());
    for _ in 0..50 {
        m.observe("ababac");
    }
    assert!(m.ready());
}

#[test]
fn script_classes() {
    assert!(charclass::class('ー') == charclass::Class::Kata);
    assert!(charclass::class('。') == charclass::Class::Punct);
    assert!(charclass::class('あ') == charclass::Class::Hira);
    assert!(charclass::class('界') == charclass::Class::Han);
    assert!(charclass::class('7') == charclass::Class::Digit);
    assert!(charclass::class('é') == charclass::Class::Other);
    assert!(charclass::class('　') == charclass::Class::Ws);
    assert!(charclass::is_punct_str("……"));
    assert!(!charclass::is_punct_str("…あ"));
}

#[test]
fn lcs_simple() {
    assert_eq!(lcs::lcs_len(&[1, 2, 3], &[2, 3, 4]), 2);
    assert_eq!(lcs::lcs_len(&[1], &[2]), 0);
}

#[test]
fn common_runs_and_subsequences_differ() {
    let a = [1u32, 9, 2, 8, 3];
    let b = [1u32, 2, 3];
    assert_eq!(lcs::lcs_len(&a, &b), 3);
    assert_eq!(lcs::lcsubstr_len(&a, &b), 1);
    assert_eq!(lcs::lcsubstr_len(&[4, 5, 6, 7], &[0, 5, 6, 9]), 2);
    assert_eq!(lcs::lcs_len(&[], &b), 0);
}

/// The denominator is the shorter length: padding a full copy does not dilute it.
#[test]
fn rote_penalty_not_diluted_by_padding() {
    let ratio = |(n, d): (usize, usize)| n as f32 / d as f32;
    assert!((ratio(lcs::overlap(&[7, 8], &[7, 8])) - 1.0).abs() < 1e-6);
    assert!(
        (ratio(lcs::overlap(&[7, 8, 9, 10, 11, 12], &[7, 8])) - 1.0).abs() < 1e-6,
        "long candidate containing the whole input is still a full copy"
    );
}

fn unit(bins: &[i64]) -> Vec<f32> {
    let mut n = 0.0f32;
    for &b in bins {
        n += b as f32 * b as f32;
    }
    let n = n.sqrt();
    bins.iter().map(|&b| if n < 1e-8 { b as f32 } else { b as f32 / n }).collect()
}

fn cosine(a: &[f32], b: &[f32]) -> f32 {
    let mut acc = 0.0f32;
    for (x, y) in a.iter().zip(b) {
        acc += x * y;
    }
    acc.clamp(-1.0, 1.0)
}

#[test]
fn self_cosine_is_one() {
    let e = HashEmbedder::new(64);
    let a = unit(&e.embed("こんにちは世界"));
    assert!((cosine(&a, &a) - 1.0).abs() < 1e-5);
}

#[test]
fn related_beats_unrelated() {
    let e = HashEmbedder::new(128);
    let t = unit(&e.embed("今日の天気は晴れ"));
    let a = unit(&e.embed("明日の天気も晴れ"));
    let b = unit(&e.embed("xml parser buffer overflow"));
    assert!(cosine(&t, &a) > cosine(&t, &b));
}

#[test]
fn embedding_counts_signed_grams() {
    let e = HashEmbedder::new(2);
    assert_eq!(e.dim, 8);
    assert_eq!(e.embed(""), vec![0i64; 8]);
    let one = e.embed("a");
    assert_eq!(one.iter().map(|x| x.abs()).sum::<i64>(), 1);
    let two = e.embed("aa");
    let parity: i64 = two.iter().map(|x| x.abs()).sum::<i64>() % 2;
    assert_eq!(parity, 1);
}

#[test]
fn header_gates_on_identity() {
    let mut w = W::header(1, 2, 3);
    w.str("x");
    assert!(R::open(&w.0, 1, 2, 3).is_some());
    assert!(R::open(&w.0, 9, 2, 3).is_none(), "params mismatch");
    assert!(R::open(&w.0, 1, 9, 3).is_none(), "log length mismatch");
    assert!(R::open(&w.0, 1, 2, 9).is_none(), "log hash mismatch");
    assert!(R::open(&w.0[..8], 1, 2, 3).is_none(), "truncation");
}

#[test]
fn primitives_round_trip() {
    let mut w = W::header(0, 0, 0);
    w.u8(7);
    w.u128(1 << 100);
    w.f64_bits(0.1f64.to_bits());
    w.str("こんにちは");
    w.toks(&[1, 2, 3]);
    w.opt_str(None);
    w.opt_u64(Some(42));
    let mut r = R::open(&w.0, 0, 0, 0).unwrap();
    assert_eq!(r.u8(), Some(7));
    assert_eq!(r.u128(), Some(1 << 100));
    assert_eq!(r.f64_bits().map(f64::from_bits), Some(0.1));
    assert_eq!(r.str().as_deref(), Some("こんにちは"));
    assert_eq!(r.toks(), Some(vec![1, 2, 3]));
    assert_eq!(r.opt_str(), Some(None));
    assert_eq!(r.opt_u64(), Some(Some(42)));
}

#[test]
fn reading_past_the_end_is_none() {
    let mut w = W::header(5, 6, 7);
    w.u32(9);
    let mut r = R::open(&w.0, 5, 6, 7).unwrap();
    assert_eq!(r.u64(), None);
    let mut r = R::open(&w.0, 5, 6, 7).unwrap();
    assert_eq!(r.u32(), Some(9));
    assert_eq!(r.u8(), None);
    assert_eq!(r.str(), None);
    assert_eq!(r.toks(), None);
}

#[test]
fn broken_utf8_in_a_snapshot_is_none() {
    let mut w = W::header(0, 0, 0);
    w.str("ab");
    let n = w.0.len();
    w.0[n - 1] = 0xff;
    let mut r = R::open(&w.0, 0, 0, 0).unwrap();
    assert_eq!(r.str(), None);
}

#[test]
fn hash_of_pieces_is_hash_of_the_whole() {
    assert_eq!(munou::snapshot::fnv64(b""), 0xcbf2_9ce4_8422_2325);
    assert_eq!(munou::snapshot::fnv64(b"a"), 0xaf63_dc4c_8601_ec8c);
    let h = munou::snapshot::fnv64_on(munou::snapshot::fnv64(b"foo"), b"bar");
    assert_eq!(h, munou::snapshot::fnv64(b"foobar"));
}

#[test]
fn texts_trim_and_order() {
    assert_eq!(text::trim(" 　猫 \n"), "猫");
    assert!(text::is_blank(" \t　"));
    assert!(!text::is_blank(" a"));
    assert!(text::contains("今日は晴れ", "は晴"));
    assert!(!text::contains("今日は晴れ", "雨"));
    assert!(text::contains("x", ""));
    let sorted: Vec<String> = text::sort_words(&vec!["b".into(), "a".into(), "ab".into()])
        .into_iter()
        .map(|w| w.into_iter().collect())
        .collect();
    assert_eq!(sorted, vec!["a", "ab", "b"]);
    let s: String = text::zero_padded(7, 2).into_iter().collect();
    assert_eq!(s, "07");
    let s: String = text::decimal(u64::MAX).into_iter().collect();
    assert_eq!(s, "18446744073709551615");
}

#[test]
fn digits_are_joined_without_spaces() {
    assert_eq!(tokenizer::detokenize(&["10".into(), "20".into()]), "1020");
    assert_eq!(tokenizer::detokenize(&["a".into(), "1".into(), "b".into()]), "a1b");
    assert_eq!(tokenizer::detokenize(&["ab".into(), "cd".into(), "・".into(), "x".into()]), "ab cd・x");
}

#[test]
fn white_space_is_that_of_unicode() {
    for u in 0..=0x10_ffffu32 {
        let Some(c) = char::from_u32(u) else { continue };
        let listed = (0x9..=0xd).contains(&u)
            || [0x20, 0x85, 0xa0, 0x1680, 0x2028, 0x2029, 0x202f, 0x205f, 0x3000].contains(&u)
            || (0x2000..=0x200a).contains(&u);
        assert_eq!(charclass::class(c) == charclass::Class::Ws, listed, "{u:x}");
        assert_eq!(c.is_whitespace(), listed, "{u:x}");
    }
}

#[test]
fn chunks_gather_up_to_their_bound() {
    let tok = Tokenizer::new(&Params { chunk_morphs: 2, ..Params::default() });
    let mut intern = Interner::new();
    let line = "a1b2c!d";
    let t = tok.tokenize(&mut intern, line, &cut_scores(&tok, line));
    let chunks: Vec<&str> = t.chunks.iter().map(|id| intern.get(*id)).collect();
    assert_eq!(chunks, vec!["a1", "b2", "c", "!", "d"]);
}

#[test]
fn a_full_buffer_goes_into_the_body() {
    let mut s = Store::new(0);
    s.push_utterance(&[20; 28]);
    assert_eq!((s.text.len(), s.buf.len()), (0, 30));
    s.push_utterance(&[21]);
    assert_eq!((s.text.len(), s.buf.len()), (33, 0));
}
