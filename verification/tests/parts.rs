//! Sources, ledgers, calendar, random stream and command line, each on its own.

use munou::adapt;
use munou::adapt::PairStore;
use munou::alias;
use munou::alias::AliasTable;
use munou::bits;
use munou::cli;
use munou::cli::{ChatCommand, Overrides, Row, Score, Status};
use munou::embed::HashEmbedder;
use munou::engine;
use munou::eval;
use munou::explain::{GenStep, PathKind};
use munou::fabricate;
use munou::fabricate::FabricateOpts;
use munou::generate;
use munou::generate::Generated;
use munou::ids;
use munou::ids::TokenId;
use munou::interest::InterestLedger;
use munou::interject::InterjectBank;
use munou::intern::Interner;
use munou::log;
use munou::log::{Clock, Record, Role};
use munou::memory;
use munou::milestone;
use munou::mix::Pool;
use munou::observe::LogDigest;
use munou::params::{MixMode, Params, SmoothingKind};
use munou::propose;
use munou::report;
use munou::retrieve::Round;
use munou::rng;
use munou::rng::Stream;
use munou::select;
use munou::smoothing;
use munou::smoothing::{KneserNey, NaiveBackoff};
use munou::sort;
use munou::store::Store;
use munou::turn;
use munou::weather;
use rand_chacha::ChaCha8Rng;
use rand_core::{Rng, SeedableRng};
use rustc_hash::FxHashSet;

fn unit(bins: &[i64]) -> Vec<f32> {
    let mut n = 0.0f32;
    for &b in bins {
        n += b as f32 * b as f32;
    }
    let n = n.sqrt();
    bins.iter().map(|&b| if n < 1e-8 { b as f32 } else { b as f32 / n }).collect()
}

fn sims(ps: &PairStore, e: &HashEmbedder, s: &str) -> Vec<u32> {
    let q = unit(&e.embed(s));
    ps.items
        .iter()
        .map(|p| {
            let acc: f32 = q.iter().zip(unit(&p.bins)).map(|(x, y)| x * y).sum();
            acc.clamp(-1.0, 1.0).to_bits()
        })
        .collect()
}

#[test]
fn substitutes_differing_content_chunk() {
    let mut intern = Interner::new();
    let ruby = intern.intern("Ruby");
    let dou = intern.intern("ってどうよ");
    let saiko = intern.intern("サイコー");
    let rails = intern.intern("Rails");
    let store = Store::new(64);
    let mut ps = PairStore::new();
    ps.push_raw("Rubyってどうよ".into(), vec![ruby, dou], vec![ruby, saiko]);
    let e = HashEmbedder::new(64);
    ps.finish(&e, 0);
    let q = sims(&ps, &e, "Railsってどうよ");
    let mut pool = Pool::new();
    ps.propose(&mut pool, &intern, &store, "Railsってどうよ", &vec![rails, dou], &q, &q, 1, 0);
    assert_eq!(pool.items.len(), 1);
    assert_eq!(pool.items[0].source, PathKind::Adapt);
    assert_eq!(pool.items[0].text, "Railsサイコー", "{:?}", pool.items[0]);
}

#[test]
fn substitution_survives_non_adjacent_duplicates() {
    let mut intern = Interner::new();
    let x = intern.intern("えっくす");
    let z = intern.intern("ぜっと");
    let n1 = intern.intern("いち");
    let n2 = intern.intern("に");
    let store = Store::new(64);
    let mut ps = PairStore::new();
    ps.push_raw("えっくすぜっとえっくす".into(), vec![x, z, x], vec![x, z]);
    let e = HashEmbedder::new(64);
    ps.finish(&e, 0);
    let q = sims(&ps, &e, "いちに");
    let mut pool = Pool::new();
    ps.propose(&mut pool, &intern, &store, "いちに", &vec![n1, n2], &q, &q, 1, 0);
    assert_eq!(pool.items.len(), 1);
    let toks = &pool.items[0].tokens;
    assert!(
        toks.contains(&n1) && toks.contains(&n2),
        "both differing chunks must be substituted: {toks:?}"
    );
}

#[test]
fn quotes_past_user_line_as_second_proposal() {
    let mut intern = Interner::new();
    let neko = intern.intern("猫かわいい");
    let hai = intern.intern("そうだね");
    let store = Store::new(64);
    let mut ps = PairStore::new();
    ps.push_raw("猫かわいい".into(), vec![neko], vec![hai]);
    let e = HashEmbedder::new(64);
    ps.finish(&e, 0);
    let q = sims(&ps, &e, "うちの猫の話");
    let mut pool = Pool::new();
    ps.propose(&mut pool, &intern, &store, "うちの猫の話", &vec![], &q, &q, 2, 0);
    assert!(
        pool.items.iter().any(|p| p.text == "猫かわいい"),
        "past user line should be quoted: {:?}",
        pool.items
    );
}

#[test]
fn substitution_takes_at_most_two_pairs() {
    let mut intern = Interner::new();
    let olds: Vec<TokenId> = ["あ一", "い二", "う三"].iter().map(|w| intern.intern(w)).collect();
    let news: Vec<TokenId> = ["か四", "き五", "く六"].iter().map(|w| intern.intern(w)).collect();
    let mut ps = PairStore::new();
    ps.push_raw("x".into(), olds.clone(), olds.clone());
    let out = adapt::substitute(&Store::new(64), &intern, &ps.items[0], &news);
    assert_eq!(out.iter().filter(|t| news.contains(t)).count(), 2);
    assert_eq!(adapt::substitute(&Store::new(64), &intern, &ps.items[0], &olds), olds);
    let none: Vec<u32> = vec![0];
    assert_eq!(ps.nearest("x", &none, 0), None);
    assert_eq!(ps.nearest("y", &none, 0), Some(0));
}

#[test]
fn adapted_replies_use_known_words_only() {
    let mut intern = Interner::new();
    let ids: Vec<TokenId> = ["猫", "犬", "鳥", "好き", "だね"].iter().map(|w| intern.intern(w)).collect();
    let mut ps = PairStore::new();
    ps.push_raw("猫好き".into(), vec![ids[0], ids[3]], vec![ids[0], ids[4], ids[0]]);
    let input = vec![ids[1], ids[3]];
    let out = adapt::substitute(&Store::new(64), &intern, &ps.items[0], &input);
    assert_eq!(out, vec![ids[1], ids[4], ids[1]]);
}

const PAIRS: [&str; 4] = ["おはよう", "ありがとう", "おやすみ", "ただいま"];

#[test]
fn unique_words_are_kana_not_digits() {
    let opts = |unique_frac: f64| FabricateOpts {
        pairs: 60,
        rng_seed: 2,
        unique_frac: unique_frac.to_bits(),
    };
    let recs = fabricate::records(opts(1.0));
    assert!(recs.iter().all(|r| !r.text.chars().any(|c| c.is_ascii_digit())));
    let plain = fabricate::records(FabricateOpts { pairs: 2000, ..opts(0.0) });
    let base: std::collections::HashSet<&str> = plain.iter().map(|r| r.text.as_str()).collect();
    assert!(base.contains(PAIRS[0]));
    assert!(
        recs.iter().any(|r| !base.contains(r.text.as_str())),
        "unique_frac=1 must actually grow the surface vocabulary"
    );
}

#[test]
fn deterministic_and_even() {
    let opts = FabricateOpts { pairs: 40, rng_seed: 3, unique_frac: 0.0f64.to_bits() };
    let a = fabricate::records(FabricateOpts { ..opts });
    let b = fabricate::records(FabricateOpts { pairs: 40, rng_seed: 3, unique_frac: 0.0f64.to_bits() });
    assert_eq!(a.len(), 80);
    assert_eq!(a[0].text, b[0].text);
    assert!(a.iter().any(|r| r.text == "おはよう"));
    assert_eq!(a.iter().filter(|r| r.role == Role::User).count(), 40);
}

#[test]
fn fabricated_lines_alternate_in_time() {
    let a = fabricate::records(FabricateOpts { pairs: 5, rng_seed: 9, unique_frac: 1.0f64.to_bits() });
    for (i, r) in a.iter().enumerate() {
        assert_eq!(r.role, if i % 2 == 0 { Role::User } else { Role::Bot });
        assert!(r.learned);
    }
    assert_eq!(a[0].t, fabricate::FIRST_T);
    assert!(a.windows(2).all(|w| w[0].t <= w[1].t));
    let d = FabricateOpts::default();
    assert_eq!((d.pairs, d.rng_seed), (1000, 1));
}

fn vocabulary() -> Interner {
    let mut v = Interner::new();
    for i in 0..100 {
        v.intern(&format!("語{i}"));
    }
    v
}

#[test]
fn hearsay_gate_opens_at_min_utterances() {
    let v = vocabulary();
    let mut l = InterestLedger::new();
    l.learn(&vec![70], &v);
    assert!(l.is_hearsay(70, 2));
    assert_eq!(l.elapsed(70, 2), None);
    l.learn(&vec![70], &v);
    assert!(!l.is_hearsay(70, 2));
    assert!(l.elapsed(70, 2).is_some());
    assert!(l.is_hearsay(99, 2), "unknown chunks are hearsay");
}

#[test]
fn repeats_inside_one_utterance_count_once() {
    let mut a = InterestLedger::new();
    let touches = a.learn(&vec![70, 70, 70], &vocabulary());
    assert_eq!(touches.len(), 1);
    assert!(a.is_hearsay(70, 2), "そうそうそう must not fast-track a word");
}

#[test]
fn interest_clock_runs_by_utterance_length() {
    let v = vocabulary();
    let mut l = InterestLedger::new();
    l.learn(&vec![70, 71, 72], &v);
    assert_eq!(l.g, 3);
    let touches = l.learn(&vec![71, 73], &v);
    let again = touches.iter().find(|t| t.id == 71).unwrap();
    assert_eq!(again.elapsed, 3);
    assert_eq!(l.elapsed(71, 1), Some(2));
    assert_eq!(l.elapsed(70, 1), Some(5));
    let mut e = l.established(2);
    e.sort_unstable();
    assert_eq!(e, vec![71]);
}

#[test]
fn a_dumped_ledger_reads_back() {
    let v = vocabulary();
    let mut l = InterestLedger::new();
    l.learn(&vec![70, 71, 72], &v);
    l.learn(&vec![71, 73], &v);
    let (g, mut entries) = l.snap_dump();
    assert_eq!(g, 5);
    let r = InterestLedger::from_snap(g, &entries);
    for id in [70, 71, 72, 73, 74] {
        assert_eq!(r.elapsed(id, 1), l.elapsed(id, 1));
        assert_eq!(r.is_hearsay(id, 2), l.is_hearsay(id, 2));
    }
    let mut later = entries[0];
    later.utts = 9;
    entries.push(later);
    let r = InterestLedger::from_snap(g, &entries);
    assert!(!r.is_hearsay(later.id, 9), "the later entry counts");
}

#[test]
fn harvests_short_lines_with_counts() {
    let mut b = InterjectBank::new();
    for t in ["はい", "はい", "うん", "そうだね", "今日はとてもいい天気ですね"] {
        b.learn(t);
    }
    assert_eq!(b.distinct(), 3, "long line must be ignored");
    assert_eq!(b.entries()[0], ("はい".into(), 2));
}

#[test]
fn punct_only_lines_are_ignored() {
    let mut b = InterjectBank::new();
    b.learn("……");
    b.learn("！？");
    assert_eq!(b.distinct(), 0);
}

#[test]
fn pick_is_deterministic_and_respects_weights() {
    let mut b = InterjectBank::new();
    for _ in 0..20 {
        b.learn("はい");
    }
    b.learn("うん");
    b.learn("おお");
    let mut r1 = Stream::new(5);
    let mut r2 = Stream::new(5);
    let picks1: Vec<_> = (0..10).map(|_| b.pick(&mut r1, "")).collect();
    let picks2: Vec<_> = (0..10).map(|_| b.pick(&mut r2, "")).collect();
    assert_eq!(picks1, picks2);
    let hai = picks1.iter().filter(|p| p.as_deref() == Some("はい")).count();
    assert!(hai >= 6, "frequency weight must dominate: {picks1:?}");
}

#[test]
fn small_bank_stays_silent() {
    let mut b = InterjectBank::new();
    b.learn("はい");
    b.learn("うん");
    let mut r = Stream::new(1);
    assert_eq!(b.pick(&mut r, ""), None);
    assert_eq!(r.pos, 0);
}

#[test]
fn a_pick_never_doubles_the_reply() {
    let mut b = InterjectBank::new();
    for t in ["はい", "うん", "おお", "うん"] {
        b.learn(t);
    }
    assert_eq!(b.pick_at(0, ""), Some("はい".into()));
    assert_eq!(b.pick_at(1, ""), Some("うん".into()));
    assert_eq!(b.pick_at(2, ""), Some("うん".into()));
    assert_eq!(b.pick_at(3, ""), Some("おお".into()));
    assert_eq!(b.pick_at(3, "おお"), None);
    assert_eq!(b.pick_at(4, ""), None);
}

fn rec(role: Role, t: u64, learned: bool) -> Record {
    Record {
        v: 1,
        t,
        role,
        text: "x".into(),
        slipped: None,
        score: None,
        learned,
        path: None,
        novelty_lcs: None,
        n_tok: None,
        rng_word_pos: None,
    }
}

#[test]
fn learned_crossing_fires_once() {
    let mut d = LogDigest::new();
    for i in 0..9 {
        d.ingest(&rec(Role::User, 1000 + i, true));
    }
    let pre = (d.learned, d.last_speech_t, d.aloof_left);
    d.ingest(&rec(Role::User, 2000, true));
    let l = milestone::lines(pre.0, pre.1, pre.2, &d);
    assert_eq!(l, vec!["節目 吸収10".to_string()]);
    let pre = (d.learned, d.last_speech_t, d.aloof_left);
    d.ingest(&rec(Role::User, 3000, true));
    assert!(milestone::lines(pre.0, pre.1, pre.2, &d).is_empty());
}

#[test]
fn day_mark_fires_on_crossing_turn() {
    let day = 86_400_000u64;
    let mut d = LogDigest::new();
    d.ingest(&rec(Role::User, 10, false));
    d.ingest(&rec(Role::User, 3 * day, false));
    let pre = (d.learned, d.last_speech_t, d.aloof_left);
    d.ingest(&rec(Role::User, 8 * day, false));
    let l = milestone::lines(pre.0, pre.1, pre.2, &d);
    assert!(l.iter().any(|s| s == "節目 7日目"), "{l:?}");
}

#[test]
fn absence_sets_aloof_and_reports_gap() {
    let day = 86_400_000u64;
    let mut d = LogDigest::new();
    d.ingest(&rec(Role::User, 10, false));
    let pre = (d.learned, d.last_speech_t, d.aloof_left);
    d.ingest(&rec(Role::User, 9 * day, false));
    assert!(d.aloof_left > 0);
    let l = milestone::lines(pre.0, pre.1, pre.2, &d);
    assert!(l.iter().any(|s| s.ends_with("日ぶり")), "{l:?}");
    for i in 0..milestone::ALOOF_SPEECH {
        d.ingest(&rec(Role::Bot, 9 * day + 1 + i as u64, false));
    }
    assert_eq!(d.aloof_left, 0);
}

#[test]
fn digest_counts_roles_and_paths() {
    let mut recs = vec![rec(Role::User, 5, true), rec(Role::Meta, 6, false), rec(Role::Bot, 7, false)];
    recs[2].path = Some(PathKind::Echo);
    let d = LogDigest::scan(&recs);
    assert_eq!((d.speech, d.meta, d.learned), (2, 1, 1));
    assert_eq!(d.paths, [0, 0, 0, 1, 0]);
    assert_eq!(d.path_known, 1);
    assert_eq!((d.first_speech_t, d.last_speech_t), (Some(5), Some(7)));
    assert_eq!(d.first_learned_user.as_deref(), Some("x"));
}

#[test]
fn skips_duplicate_text() {
    let mut p = Pool::new();
    p.push(PathKind::Trigger, "おはよう".into(), vec![1]);
    p.push(PathKind::Echo, "おはよう".into(), vec![1]);
    p.push(PathKind::Markov, "散歩しよう".into(), vec![2]);
    assert_eq!(p.items.len(), 2);
    assert_eq!(p.items[0].source, PathKind::Trigger);
    assert_eq!(p.items[1].source, PathKind::Markov);
}

#[test]
fn l_max_above_eight_is_honoured() {
    let p = Params { l_max: 12, ..Params::default() };
    assert_eq!(p.l_max_capped(), 12);
    let zero = Params { l_max: 0, ..Params::default() };
    assert_eq!(zero.l_max_capped(), 1);
}

#[test]
fn default_params_hold_the_stated_numbers() {
    let p = Params::default();
    assert_eq!(f64::from_bits(p.tau_gen), 1.0);
    assert_eq!(f32::from_bits(p.theta_trig), 0.42);
    assert_eq!(f64::from_bits(p.p_slip), 0.15);
    assert_eq!(f64::from_bits(p.p_learn), 0.35);
    assert_eq!(f64::from_bits(p.entropy_cut), 0.8);
    assert_eq!(f32::from_bits(p.band_lo), 0.25);
    assert_eq!(f32::from_bits(p.band_hi), 0.85);
    assert_eq!(f32::from_bits(p.band_penalty), 0.5);
    assert_eq!(f64::from_bits(p.tau_slip), 0.45);
    assert_eq!(f64::from_bits(p.kn_discount), 0.75);
    assert_eq!(f64::from_bits(p.lambda_skip), 0.12);
    assert_eq!(f64::from_bits(p.lambda_cache), 0.10);
    assert_eq!(f32::from_bits(p.echo_penalty), 0.25);
    assert_eq!(f32::from_bits(p.rote_penalty), 0.50);
    assert_eq!(f32::from_bits(p.self_penalty), 0.60);
    assert_eq!(f32::from_bits(p.trigger_bonus), 0.10);
    assert_eq!(f32::from_bits(p.trigger_match_weight), 1.0);
    assert_eq!(f32::from_bits(p.retrieve_penalty), 0.20);
    assert_eq!(f32::from_bits(p.adapt_penalty), 0.10);
    assert_eq!(f32::from_bits(p.surprise_weight), 0.0);
    assert_eq!(f32::from_bits(p.mmr_lambda), 0.75);
    assert_eq!(f64::from_bits(p.p_nucleus), 1.0);
    assert_eq!(f32::from_bits(p.pref_step), 0.08);
    assert_eq!(f32::from_bits(p.pref_clip), 0.35);
    assert_eq!(f64::from_bits(p.interject_rate), 0.30);
    assert_eq!(f32::from_bits(p.interest_weight), 0.08);
    assert_eq!(f32::from_bits(p.care_bonus), 0.05);
    assert_eq!(f64::from_bits(p.hearsay_release), 0.15);
    assert_eq!((p.n_cand, p.l_max, p.f_min, p.k_topic), (10, 8, 3, 5));
    assert_eq!((p.max_gen_len, p.merge_threshold, p.entropy_n), (24, 4096, 5));
    assert_eq!((p.chunk_morphs, p.embed_dim, p.n_retrieve), (3, 256, 4));
    assert_eq!((p.n_retrieve_scan, p.n_echo, p.self_window), (1024, 1, 8));
    assert_eq!((p.n_adapt, p.k_top, p.hearsay_min), (2, 0, 2));
    assert!(p.bidir && p.weather && !p.ppm_exclude);
}

fn rand_f64(rng: &mut Stream) -> f64 {
    rng.rand_53() as f64 * (1.0f64 / (1u64 << 53) as f64)
}

#[test]
fn draw_sequence_is_pinned() {
    let mut rng = Stream::new(1);
    let f: Vec<f64> = (0..3).map(|_| rand_f64(&mut rng)).collect();
    for x in &f {
        assert!((0.0..1.0).contains(x));
    }
    let mut rng2 = Stream::new(1);
    let f2: Vec<f64> = (0..3).map(|_| rand_f64(&mut rng2)).collect();
    assert_eq!(f, f2, "same seed must reproduce the same draws");
    let mut raw = ChaCha8Rng::seed_from_u64(1);
    let f3: Vec<f64> = (0..3)
        .map(|_| (raw.next_u64() >> 11) as f64 * (1.0f64 / (1u64 << 53) as f64))
        .collect();
    assert_eq!(f, f3);
}

#[test]
fn stream_follows_the_generator_and_resumes() {
    let mut raw = ChaCha8Rng::seed_from_u64(77);
    let mut s = Stream::new(77);
    for _ in 0..100 {
        assert_eq!(s.next_u64(), raw.next_u64());
        assert_eq!(s.pos, raw.get_word_pos());
    }
    let mut t = Stream::at(77, s.pos);
    assert_eq!(t.next_u64(), raw.next_u64());
}

#[test]
fn rand_below_is_uniform_and_in_range() {
    let mut rng = Stream::new(7);
    let n = 5usize;
    let mut hist = [0u32; 5];
    let draws = 50_000;
    for _ in 0..draws {
        let v = rng.rand_below(n);
        assert!(v < n);
        hist[v] += 1;
    }
    let exp = draws as f64 / n as f64;
    for (i, &h) in hist.iter().enumerate() {
        let dev = (h as f64 - exp).abs() / exp;
        assert!(dev < 0.05, "bucket {i}: {h} vs {exp}");
    }
}

#[test]
fn degenerate_n_consumes_nothing() {
    let mut a = Stream::new(3);
    let mut b = Stream::new(3);
    assert_eq!(a.rand_below(0), 0);
    assert_eq!(a.rand_below(1), 0);
    assert_eq!(a.next_u64(), b.next_u64());
}

#[test]
fn widening_multiply_rejects_the_short_tail() {
    assert_eq!(rng::accept(0, 3), None);
    assert_eq!(rng::accept(1, 3), Some(0));
    assert_eq!(rng::accept(u64::MAX, 3), Some(2));
    assert_eq!(rng::accept(0, 4), Some(0));
    assert_eq!(rng::accept(1 << 63, 4), Some(2));
}

#[test]
fn deterministic_per_seed_and_day() {
    for day in 0..64 {
        assert_eq!(weather::day_weather(9, day).name(), weather::day_weather(9, day).name());
    }
}

#[test]
fn special_weather_never_two_days_running() {
    for seed in 0..8u64 {
        let mut prev = "";
        for day in 0..3000u64 {
            let w = weather::day_weather(seed, day).name();
            if w != "なぎ" {
                assert_ne!(w, prev, "seed={seed} day={day}");
            }
            prev = w;
        }
    }
}

#[test]
fn all_weathers_occur() {
    let mut seen = std::collections::HashSet::new();
    for day in 0..2000u64 {
        seen.insert(weather::day_weather(3, day).name());
    }
    assert_eq!(seen.len(), 4, "{seen:?}");
}

#[test]
fn civil_dates() {
    assert_eq!(weather::civil_from_day(0), (1970, 1, 1));
    assert_eq!(weather::civil_from_day(19_723), (2024, 1, 1));
    assert_eq!(weather::civil_from_day(20_684), (2026, 8, 19));
    assert_eq!(weather::day_of_ms(20_684 * 86_400_000 + 123), 20_684);
}

#[test]
fn leap_days_have_dates() {
    assert_eq!(weather::civil_from_day(11_016), (2000, 2, 29));
    assert_eq!(weather::civil_from_day(11_017), (2000, 3, 1));
    assert_eq!(weather::civil_from_day(47_540), (2100, 2, 28));
    assert_eq!(weather::civil_from_day(47_541), (2100, 3, 1));
}

#[test]
fn aloof_mutes_beats_and_care() {
    let g = weather::effective(weather::Weather::Calm, true);
    assert_eq!(f64::from_bits(g.interject), 0.0);
    assert_eq!(f32::from_bits(g.care), 0.0);
    assert!(f64::from_bits(g.slip) < f64::from_bits(weather::Weather::Calm.gains().slip));
    assert_eq!(f64::from_bits(g.slip), 0.5);
}

#[test]
fn weather_gains_hold_the_stated_numbers() {
    let all = [
        (weather::Weather::Calm, "なぎ", 1.0, 1.0, 1.0, 1.0f32),
        (weather::Weather::Lively, "はずみ", 1.2, 1.6, 1.0, 1.0),
        (weather::Weather::Damp, "しめり", 0.7, 0.4, 1.0, 0.5),
        (weather::Weather::Whim, "きまぐれ", 1.8, 1.0, 2.5, 1.5),
    ];
    for (w, name, slip, interject, release, care) in all {
        let g = w.gains();
        assert_eq!(w.name(), name);
        assert_eq!(f64::from_bits(g.slip), slip);
        assert_eq!(f64::from_bits(g.interject), interject);
        assert_eq!(f64::from_bits(g.release), release);
        assert_eq!(f32::from_bits(g.care), care);
        assert_eq!(f64::from_bits(weather::effective(w, true).slip), slip / 2.0);
    }
}

#[test]
fn mixing_is_the_published_finalizer() {
    assert_eq!(weather::mix(0), 0xe220_a839_7b1d_cdaf);
    let i = weather::care_index(5, 9, 7);
    assert_eq!(i, weather::care_index(5, 9, 7));
    assert!(i < 7);
    assert_eq!(weather::care_index(5, 9, 0), 0);
}

#[test]
fn bit_patterns_order_as_numbers() {
    let xs = [-1.5f64, -0.0, 0.0, 1e-300, 0.5, 1.0, 7.0, f64::INFINITY];
    for a in xs {
        for b in xs {
            assert_eq!(bits::order64(a.to_bits()) < bits::order64(b.to_bits()), a < b, "{a} {b}");
            let (c, d) = (a as f32, b as f32);
            assert_eq!(bits::order32(c.to_bits()) < bits::order32(d.to_bits()), c < d);
        }
        assert_eq!(f64::from_bits(bits::clamp_unit(a.to_bits())), a.clamp(0.0, 1.0));
    }
    for p in [0.0, 0.1, 0.25, 0.35, 0.5, 0.75, 1.0, 1e-20] {
        for roll in [0u64, 1, 1 << 50, (1 << 51) - 1, 1 << 51, 1 << 52, (1 << 53) - 1] {
            let x = roll as f64 / (1u64 << 53) as f64;
            assert_eq!(bits::roll_is_below(roll, f64::to_bits(p)), x < p, "{roll} {p}");
        }
    }
}

#[test]
fn alias_tables_refuse_lists_that_do_not_fit() {
    let one = 1.0f64.to_bits();
    assert!(AliasTable::from_parts(&vec![], &vec![]).is_none());
    assert!(AliasTable::from_parts(&vec![one], &vec![0, 0]).is_none());
    assert!(AliasTable::from_parts(&vec![one], &vec![1]).is_none());
    let t = AliasTable::from_parts(&vec![2.0f64.to_bits(), (-1.0f64).to_bits()], &vec![0, 0]).unwrap();
    assert_eq!(t.prob, vec![one, 0]);
    let mut s = Stream::new(4);
    for _ in 0..50 {
        assert_eq!(t.sample(&mut s), 0);
    }
    let none = AliasTable::level();
    assert_eq!(none.len(), 1);
    for _ in 0..20 {
        assert_eq!(none.sample(&mut s), 0);
    }
}

#[test]
fn tail_samples_avoid_taken_ids() {
    let one = 1.0f64.to_bits();
    let t = AliasTable::from_parts(&vec![one; 3], &vec![0, 1, 2]).unwrap();
    let ids = vec![20, 21, 22];
    let mut taken = FxHashSet::default();
    taken.insert(20);
    taken.insert(22);
    let mut s = Stream::new(8);
    for _ in 0..20 {
        assert_eq!(alias::sample_untaken(&t, &ids, &taken, &mut s), Some(1));
    }
    taken.insert(21);
    let mut s = Stream::new(8);
    assert_eq!(alias::sample_untaken(&t, &ids, &taken, &mut s), None);
    assert!(s.pos > 0);
}

#[test]
fn more_kinds_of_continuation_back_off_more() {
    assert_eq!(NaiveBackoff.weight(10, 1), (10, 11));
    assert_eq!(NaiveBackoff.weight(10, 3), (10, 13));
    assert_eq!(NaiveBackoff.weight(0, 0), (0, 1));
    assert_eq!(NaiveBackoff.name(), "naive");
    assert_eq!(KneserNey { discount: 0.75f64.to_bits() }.name(), "kn");
    assert_eq!(smoothing::kind_name(SmoothingKind::Kn), "kn");
    assert_eq!(smoothing::support(&vec![(1, 10), (2, 1)], &vec![1, 2, 3]), vec![1, 2, 3]);
    assert_eq!([0, 1, 2, 3, 9].map(smoothing::discount_class), [0, 1, 2, 3, 3]);
    assert_eq!(smoothing::count_classes(&vec![(5, 1), (6, 2), (7, 1), (8, 4)]), (2, 1, 1));
}

fn lookup(back: &[(TokenId, f64)], id: TokenId) -> f64 {
    back.iter().find(|(t, _)| *t == id).map_or(0.0, |(_, p)| *p)
}

fn support(local: &Vec<(TokenId, u32)>, back: &[(TokenId, f64)]) -> Vec<TokenId> {
    smoothing::support(local, &back.iter().map(|(id, _)| *id).collect())
}

fn count_in(local: &[(TokenId, u32)], id: TokenId) -> f64 {
    local.iter().find(|(t, _)| *t == id).map_or(0.0, |(_, c)| *c as f64)
}

fn naive(local: &Vec<(TokenId, u32)>, total: u32, kinds: u32, back: &[(TokenId, f64)]) -> Vec<(TokenId, f64)> {
    let (num, den) = NaiveBackoff.weight(total, kinds);
    let lambda = num as f64 / den as f64;
    support(local, back)
        .into_iter()
        .map(|id| {
            let ml = if total == 0 { 0.0 } else { count_in(local, id) / total as f64 };
            (id, lambda * ml + (1.0 - lambda) * lookup(back, id))
        })
        .collect()
}

#[test]
fn naive_falls_back_when_empty() {
    let back = vec![(3, 1.0)];
    assert_eq!(naive(&vec![], 0, 0, &back), back);
}

#[test]
fn kn_discounts_and_renormalises() {
    let local = vec![(1, 10), (2, 1)];
    let back = vec![(1, 0.5), (2, 0.3), (3, 0.2)];
    let d = f64::from_bits(KneserNey { discount: 0.75f64.to_bits() }.discount);
    let lambda = d * local.len() as f64 / 11.0;
    let mut out: Vec<(TokenId, f64)> = support(&local, &back)
        .into_iter()
        .map(|id| (id, (count_in(&local, id) - d).max(0.0) / 11.0 + lambda * lookup(&back, id)))
        .collect();
    let z: f64 = out.iter().map(|(_, p)| *p).sum();
    for (_, p) in out.iter_mut() {
        *p /= z;
    }
    let z: f64 = out.iter().map(|(_, p)| *p).sum();
    assert!((z - 1.0).abs() < 1e-9);
    assert!(out.iter().any(|(id, _)| *id == 3));
}

#[test]
fn witten_bell_backs_off_more_when_types_grow() {
    let back = vec![(1, 0.5), (4, 0.5)];
    let few = naive(&vec![(1, 10)], 10, 1, &back);
    let many = naive(&vec![(1, 6), (2, 2), (3, 2)], 10, 3, &back);
    assert!(
        lookup(&many, 4) > lookup(&few, 4),
        "T=3 should put more mass on unseen-in-context token than T=1; few={} many={}",
        lookup(&few, 4),
        lookup(&many, 4)
    );
}

#[test]
fn evidence_reports_the_longest_frequent_context() {
    let mut s = Store::new(1024);
    for _ in 0..5 {
        s.push_utterance(&[20, 21, 22]);
    }
    s.push_utterance(&[30, 21, 23]);
    let p = Params::default();
    let ev = generate::evidence(&s, &p, &vec![20, 21]);
    assert_eq!((ev.used, ev.freq), (2, 5));
    assert_eq!(ev.orders.len(), 2);
    assert_eq!(ev.orders[0].counts, vec![(22, 5), (23, 1)]);
    assert_eq!(ev.orders[0].total, 6);
    assert!(!ev.exclude && ev.skip.is_none() && ev.recent.is_none());
    let rare = generate::evidence(&s, &p, &vec![20, 30, 21]);
    assert_eq!((rare.used, rare.freq), (1, 6));
    assert!(rare.recent.is_some());
    assert_eq!(rare.skip.map(|o| (o.counts, o.total)), Some((vec![(22, 5)], 5)));
    let b = generate::backoff_context(&s, &vec![30, 21], 3);
    assert_eq!((b.used, b.total), (1, 6));
    let f = generate::backoff_context(&s, &vec![30, 21], 1);
    assert_eq!((f.used, f.counts), (2, vec![(23, 1)]));
}

fn step(id: TokenId) -> Option<GenStep> {
    Some(GenStep {
        ctx_len_requested: 1,
        ctx_len_used: 1,
        freq: 1,
        sampled: id,
        temperature: 0,
        p: 0,
        logp: 0,
    })
}

#[test]
fn replies_stop_at_the_end_mark_and_the_cap() {
    let mut g = Generated::begin(false, 0, 3);
    for id in [20, 21] {
        assert!(g.wants());
        g.take(step(id));
    }
    assert_eq!(g.context(&vec![17, 18], 3), vec![18, 20, 21]);
    g.take(step(ids::EOS));
    assert!(!g.wants());
    assert_eq!(g.finish(&vec![], 0).0, vec![20, 21]);
    let mut g = Generated::begin(false, 0, 1);
    g.take(step(20));
    assert!(!g.wants());
    let mut g = Generated::begin(true, 2, 24);
    assert_eq!(g.cap, 2);
    g.take(None);
    let (tokens, steps) = g.finish(&vec![33, 34], 7);
    assert_eq!(tokens, vec![33]);
    assert_eq!((steps[0].sampled, steps[0].temperature), (33, 7));
}

#[test]
fn anchored_replies_keep_the_cap() {
    assert_eq!(generate::forward_budget(3), 2);
    assert_eq!(generate::forward_budget(0), 0);
    assert_eq!(generate::backward_budget(5, 2), 2);
    assert_eq!(generate::backward_budget(3, 2), 0);
    assert_eq!(generate::backward_context(9, &vec![10, 11]), vec![11, 10, 9]);
    assert_eq!(generate::assemble(9, &vec![10, 11], &vec![8, 7]), vec![7, 8, 9, 10, 11]);
    assert_eq!(generate::parrot_unigram(&vec![5, 6, 5]), vec![(5, 2), (6, 1)]);
    let mut v = Interner::new();
    let comma = v.intern("、");
    let cat = v.intern("猫");
    assert_eq!(generate::trim_leading_punct(&v, &vec![ids::SEP, comma, cat, comma]), vec![cat, comma]);
}

#[test]
fn ranking_is_stable_and_slips_below_the_top() {
    let s = |x: f32| x.to_bits();
    assert_eq!(select::rank(&vec![s(0.1), s(0.5), s(-1.0), s(0.5)]), vec![1, 3, 0, 2]);
    assert!(select::in_band(s(0.25), s(0.25), s(0.85)));
    assert!(!select::in_band(s(0.9), s(0.25), s(0.85)));
    let texts: Vec<String> = vec!["a".into(), "b".into()];
    let input = select::RankInput {
        texts: &texts,
        tokens: &vec![vec![], vec![]],
        sources: &vec![PathKind::Markov, PathKind::Echo],
        surprises: &vec![None, None],
        topic_scores: &vec![s(0.2), s(0.1)],
        scores: &vec![s(0.2), s(0.1)],
    };
    let r = select::rank_and_pick(&input, 1.0f64.to_bits(), &AliasTable::level(), &mut Stream::new(1));
    assert!(r.slipped);
    assert_eq!(r.index, 1);
    assert!(!r.traces[0].chosen && r.traces[1].chosen);
    assert_eq!(select::self_overlap("散歩しよう", &vec!["散歩".into(), "x".into()]), (2, 2));
    assert_eq!(select::self_overlap("散歩", &vec![]), (0, 1));
}

#[test]
fn rounds_stop_at_the_asked_number() {
    let mut r = Round { cands: vec![4, 7, 9], picked: vec![false; 3], n_picked: 0 };
    let s: Vec<u32> = [0.1f32, 0.9, 0.9].iter().map(|x| x.to_bits()).collect();
    assert_eq!(r.next_pick(&s, 2), Some(1));
    assert_eq!(r.next_pick(&s, 2), Some(2));
    assert_eq!(r.next_pick(&s, 2), None);
    let mut r = Round { cands: vec![4], picked: vec![false], n_picked: 0 };
    assert_eq!(r.next_pick(&vec![f32::NEG_INFINITY.to_bits()], 5), None);
    assert_eq!(sort::sort_indices(&vec![3, 1, 2, 1]), vec![1, 3, 2, 0]);
}

#[test]
fn triggers_match_the_most_similar_pattern() {
    let d = munou::trigger::TriggerDict {
        entries: vec![
            munou::trigger::TriggerEntry { pattern: "a".into(), responses: vec!["x".into()] },
            munou::trigger::TriggerEntry { pattern: "b".into(), responses: vec!["y".into(), "z".into()] },
            munou::trigger::TriggerEntry { pattern: "c".into(), responses: vec![] },
        ],
    };
    let s = |xs: [f32; 3]| xs.iter().map(|x| x.to_bits()).collect::<Vec<u32>>();
    let theta = 0.42f32.to_bits();
    let (tr, responses) = d.match_one(&s([0.5, 0.6, 0.1]), theta).unwrap();
    assert_eq!((tr.pattern.as_str(), tr.similarity), ("b", 0.6f32.to_bits()));
    assert_eq!(responses, vec!["y", "z"]);
    assert!(d.match_one(&s([0.1, 0.2, 0.3]), theta).is_none(), "below the threshold");
    assert!(d.match_one(&s([0.5, 0.6, 0.9]), theta).is_none(), "no response");
    assert_eq!(d.match_one(&s([0.6, 0.6, 0.1]), theta).unwrap().0.pattern, "a");
}

#[test]
fn repeats_of_the_newest_three_are_dropped() {
    let mut p = Pool::new();
    p.push(PathKind::Markov, "一".into(), vec![20]);
    p.push(PathKind::Markov, "四".into(), vec![21]);
    p.push(PathKind::Trigger, "三".into(), vec![22]);
    let recent: Vec<String> = ["四", "一", "二", "三"].iter().map(|s| s.to_string()).collect();
    let left = propose::drop_repeats(&Params::default(), &recent, p);
    assert_eq!(left.texts(), vec!["四", "三"]);
    let v = Interner::new();
    let mut empty = Pool::new();
    propose::last_resort(&v, &Params::default(), &mut empty, &String::new(), &vec![], &mut Stream::new(1));
    assert_eq!(empty.texts(), vec!["…"]);
    assert_eq!(empty.items[0].source, PathKind::Echo);
}

#[test]
fn a_parrot_swaps_two_neighbours() {
    let words: Vec<String> = vec!["今日".into(), "は".into()];
    let mut s = Stream::new(3);
    assert_eq!(propose::parrot_variant(&words, &mut s), "は今日");
    assert_eq!(propose::parrot_variant(&vec![], &mut s), "…");
    assert_eq!(propose::parrot_variant(&vec!["猫".into()], &mut s), "猫");
}

#[test]
fn corpus_runs_skip_specials() {
    let mut st = Store::new(1024);
    st.push_utterance(&[20, 21, 22]);
    assert_eq!(turn::longest_corpus_run(&st, &vec![21, 22, ids::SEP, 20]), 2);
    assert_eq!(turn::longest_corpus_run(&st, &vec![22, 21]), 1);
    assert_eq!(turn::longest_corpus_run(&st, &vec![]), 0);
}

#[test]
fn records_keep_the_stream_position() {
    let mut r = Record::bot("x".into(), true, 0.5f32.to_bits(), false, PathKind::Markov, 1, 2, 9);
    assert_eq!(r.saved_rng_word_pos(), None);
    r.set_rng_word_pos((7u128 << 64) | 5);
    assert_eq!(r.saved_rng_word_pos(), Some((7u128 << 64) | 5));
    let plain = Record::bot("y".into(), true, 0, false, PathKind::Markov, 1, 2, 9);
    assert_eq!(log::saved_position(&vec![r.clone()]), Some((7u128 << 64) | 5));
    assert_eq!(log::saved_position(&vec![r, plain]), None);
    assert!(log::default_learned());
    assert!(log::is_torn(Some(b'}')));
    assert!(!log::is_torn(Some(b'\n')));
    assert!(!log::is_torn(None));
}

#[test]
fn an_injected_clock_wins() {
    let mut c = Clock { injected_ms: 0 };
    assert_eq!(log::now_ms(&c, 77), 77);
    log::set_now_ms(&mut c, 5);
    assert_eq!(log::now_ms(&c, 77), 5);
}

#[test]
fn preferences_follow_the_last_bot_line() {
    let mut bot = rec(Role::Bot, 1, true);
    bot.path = Some(PathKind::Adapt);
    let mut good = rec(Role::Meta, 2, false);
    good.text = "good".into();
    let mut bad = rec(Role::Meta, 3, false);
    bad.text = "bad".into();
    bad.path = Some(PathKind::Echo);
    let (events, last) = engine::pref_events(&vec![good.clone(), bot, good, bad]);
    assert_eq!(events, vec![(PathKind::Adapt, true), (PathKind::Echo, false)]);
    assert_eq!(last, Some(PathKind::Adapt));
}

#[test]
fn replayed_evaluation_reads_scored_bot_lines() {
    let mut a = Record::bot("x".into(), true, 0.5f32.to_bits(), true, PathKind::Markov, 2, 4, 9);
    let (acc, sims) = eval::replay(&vec![a.clone()], &Params::default());
    assert_eq!((acc.n, acc.band_hits, acc.slip_n), (1, 1, 1));
    assert_eq!((acc.lcs_sum, acc.lcs_len_sum), (2, 4));
    assert_eq!(sims, vec![0.5f32.to_bits()]);
    a.score = None;
    let (acc, sims) = eval::replay(&vec![a, rec(Role::User, 1, true)], &Params::default());
    assert_eq!(acc.n, 0);
    assert!(sims.is_empty());
}

#[test]
fn training_counts_only_absorbed_lines() {
    let mut skipped = rec(Role::User, 1, false);
    skipped.text = "zzzz".into();
    let mut taken = rec(Role::Bot, 2, true);
    taken.text = "abab".into();
    let tk = memory::train(&Params::default(), &vec![skipped, taken.clone(), taken]);
    assert_eq!(tk.model.total_chars, 8);
    assert!(tk.model.nexts_of(&vec!['z' as u32]).is_empty());
    assert_eq!(tk.model.nexts_of(&vec!['a' as u32]), vec![('b' as u32, 4)]);
}

#[test]
fn feedback_needs_a_turn() {
    assert!(report::feedback_record(None, None, true, 5).is_none());
    let r = report::feedback_record(None, Some(PathKind::Echo), false, 5).unwrap();
    assert_eq!((r.text.as_str(), r.role, r.path), ("bad", Role::Meta, Some(PathKind::Echo)));
    assert_eq!(report::feedback_text(None, true, ""), "no turn yet");
    assert_eq!(
        report::feedback_text(Some(PathKind::Echo), false, "-0.08"),
        "pref bad Echo  prior=-0.08"
    );
    assert_eq!(report::why_text(None, None), "(no trace yet)\n");
}

#[test]
fn top_words_rank_by_score_then_surface() {
    let mut v = Interner::new();
    let ids: Vec<TokenId> = ["い", "あ", "、", "う", "え", "お", "か"].iter().map(|w| v.intern(w)).collect();
    let scores: Vec<u32> =
        [0.5f32, 0.5, 0.9, 0.1, 0.7, 0.2, 0.3].iter().map(|x| x.to_bits()).collect();
    assert_eq!(report::top_words(&v, &ids, &scores), vec![4, 1, 0, 6, 5]);
}

#[test]
fn cargo_lock_has_no_network_or_llm_crates() {
    let lock: Vec<String> = [
        "version = 4",
        "",
        "[[package]]",
        "name = \"anyhow\"",
        "version = \"1\"",
        "[[package]]",
        "name = \"clap\"",
        "[[package]]",
        "name = \"rand_chacha\"",
        "[[package]]",
        "name = \"rand_core\"",
        "[[package]]",
        "name = \"rustc-hash\"",
        "[[package]]",
        "name = \"serde\"",
        "[[package]]",
        "name = \"serde_json\"",
    ]
    .iter()
    .map(|s| s.to_string())
    .collect();
    assert!(cli::lockfile_banned(&lock).is_empty(), "closed-world lockfile");
    let banned = [
        "async-openai",
        "burn",
        "candle-core",
        "hf-hub",
        "hyper",
        "llama-cpp-2",
        "llm",
        "reqwest",
        "tch",
        "tokenizers",
        "tokio",
        "tract-core",
        "ureq",
    ];
    for name in banned {
        let with = vec!["  name = \"serde\"".to_string(), format!(" name = \"{name}\" ")];
        assert_eq!(cli::lockfile_banned(&with), vec![name.to_string()]);
        assert!(cli::lockfile_banned(&vec![format!("source = \"{name}\"")]).is_empty());
    }
}

fn overrides() -> Overrides {
    Overrides {
        n_cand: None,
        p_slip: None,
        p_learn: None,
        tau: None,
        tau_slip: None,
        band_penalty: None,
        self_penalty: None,
        no_bidir: false,
        n_adapt: None,
        surprise_weight: None,
        smoothing: None,
        lambda_skip: None,
        lambda_cache: None,
        ppm: false,
        mix: None,
        mmr: None,
        p_nucleus: None,
        k_top: None,
        retrieve_scan: None,
        no_weather: false,
        interject_rate: None,
        interest_weight: None,
    }
}

#[test]
fn overrides_are_held_to_their_ranges() {
    let p = cli::params_from(&Overrides {
        n_cand: Some(0),
        p_slip: Some(2.0f64.to_bits()),
        p_learn: Some((-1.0f64).to_bits()),
        tau: Some(0.0f64.to_bits()),
        band_penalty: Some((-3.0f32).to_bits()),
        mmr: Some(4.0f32.to_bits()),
        smoothing: Some("Kneser-Ney".into()),
        mix: Some("XOR".into()),
        no_bidir: true,
        no_weather: true,
        ppm: true,
        ..overrides()
    });
    assert_eq!(p.n_cand, 1);
    assert_eq!(f64::from_bits(p.p_slip), 1.0);
    assert_eq!(f64::from_bits(p.p_learn), 0.0);
    assert_eq!(f64::from_bits(p.tau_gen), 1e-3);
    assert_eq!(f32::from_bits(p.band_penalty), 0.0);
    assert_eq!(f32::from_bits(p.mmr_lambda), 1.0);
    assert_eq!(p.smoothing, SmoothingKind::Kn);
    assert_eq!(p.mix, MixMode::Exclusive);
    assert!(!p.bidir && !p.weather && p.ppm_exclude);
    let d = cli::params_from(&overrides());
    assert_eq!(format!("{d:?}"), format!("{:?}", Params::default()));
}

#[test]
fn chat_lines_are_commands_or_speech() {
    assert_eq!(cli::chat_command("  /quit \n").0, ChatCommand::Quit);
    assert_eq!(cli::chat_command("/exit").0, ChatCommand::Quit);
    assert_eq!(cli::chat_command(" \n").0, ChatCommand::Nothing);
    assert_eq!(cli::chat_command("/why").0, ChatCommand::Why);
    assert_eq!(cli::chat_command("/retok").0, ChatCommand::Retok);
    let (c, line) = cli::chat_command(" /quits ");
    assert_eq!((c, line.as_str()), (ChatCommand::Say, "/quits"));
}

#[test]
fn tables_are_cut_and_timed() {
    assert_eq!(cli::trunc("散歩しない？", 16), "散歩しない？");
    assert_eq!(cli::trunc("散歩しない？", 4), "散歩し…");
    assert_eq!(cli::trunc("ab", 0), "…");
    assert_eq!(cli::percentile_us(&vec![]), 0);
    assert_eq!(cli::percentile_us(&vec![5, 1, 3]), 5);
    let many: Vec<u64> = (0..200).rev().collect();
    assert_eq!(cli::percentile_us(&many), 197);
    assert_eq!(cli::run_timings(&vec![30, 10, 20]), (20, 30, 30));
    let t = cli::synthetic_tokens(3);
    let mut x = 0xC0FF_EE00u64;
    for got in t {
        x = x.wrapping_mul(6364136223846793005).wrapping_add(1);
        assert_eq!(got, ((x >> 33) as u32) % 1024 + 16);
    }
}

fn row(prompt: &str, path: PathKind, text: &str) -> Row {
    Row {
        prompt: prompt.into(),
        path,
        band_hit: true,
        slipped: false,
        ctx_used: 1,
        text: text.into(),
        n_sources: 2,
    }
}

#[test]
fn probe_runs_are_compared_and_judged() {
    let empty = vec![row("a", PathKind::Echo, "x"), row("b", PathKind::Echo, "y")];
    let seeded = vec![row("a", PathKind::Trigger, "x"), row("b", PathKind::Markov, "z")];
    let t = cli::compare_runs(&empty, &seeded);
    assert_eq!((t.diverge, t.trig_empty, t.trig_seed, t.band, t.slip), (1, 0, 1, 2, 0));
    assert!(cli::runs_agree(&seeded, &seeded));
    assert!(!cli::runs_agree(&seeded, &empty));
    assert_eq!(cli::distinct_sources(&vec![PathKind::Echo, PathKind::Echo, PathKind::Adapt]), 2);
    assert_eq!(cli::path_tag(PathKind::Adapt), "Adpt");
    let v = cli::judge_probe(
        &cli::Corpus { utterances: 0, tokens: 0, vocab: 0 },
        &cli::Corpus { utterances: 50, tokens: 40, vocab: 15 },
        &t,
        PathKind::Trigger,
        PathKind::Markov,
        2,
    );
    assert!(v.grow_tokens && !v.grow_vocab && v.grow_utterances && !v.diverge);
    assert!(v.trigger_ohayo && v.ood_closed && v.hybrid_pool && v.zero_slip);
}

#[test]
fn checks_are_scored() {
    let mut s = Score { failed: 0, skipped: 0 };
    assert_eq!(s.count(cli::status(true)), "PASS");
    assert_eq!(s.count(Status::Fail), "FAIL");
    assert_eq!(s.count(Status::Skip), "SKIP");
    assert_eq!((s.failed, s.skipped), (1, 1));
    assert_eq!(cli::index_status(10_000_000, 10_000_000, 2_000_000_001), Status::Fail);
    assert_eq!(cli::index_status(9, 9, u64::MAX), Status::Pass);
    assert_eq!(cli::resident_status(9, u64::MAX), Status::Skip);
    assert_eq!(cli::resident_status(10_000_000, 262_144), Status::Pass);
    assert!(cli::context_holds_input(PathKind::Echo, &vec![], 9));
    assert_eq!(cli::first_ctx_used(&vec![]), 0);
    assert_eq!(ids::special_name(ids::BOS), Some("<bos>"));
    assert_eq!(ids::special_name(99), None);
}

#[test]
fn dots_between_katakana_are_no_interjection() {
    let mut b = InterjectBank::new();
    for t in ["・・・", "゠", " ・゠・ ", "。・！"] {
        b.learn(t);
    }
    assert_eq!(b.distinct(), 0);
    b.learn("ア・ア");
    b.learn("ー");
    assert_eq!(b.distinct(), 2);
}

#[test]
fn flags_that_are_no_numbers() {
    let p = cli::params_from(&Overrides {
        p_slip: Some(f64::NAN.to_bits()),
        interject_rate: Some((-f64::NAN).to_bits()),
        tau: Some(f64::NAN.to_bits()),
        tau_slip: Some((-f64::NAN).to_bits()),
        band_penalty: Some(f32::NAN.to_bits()),
        interest_weight: Some((-f32::NAN).to_bits()),
        mmr: Some(f32::NAN.to_bits()),
        ..overrides()
    });
    assert!(f64::from_bits(p.p_slip).is_nan());
    assert!(f64::from_bits(p.interject_rate).is_nan());
    assert!(f32::from_bits(p.mmr_lambda).is_nan());
    assert_eq!(f64::from_bits(p.tau_gen), f64::NAN.max(1e-3));
    assert_eq!(f64::from_bits(p.tau_slip), 1e-3);
    assert_eq!(f32::from_bits(p.band_penalty), f32::NAN.max(0.0));
    assert_eq!(f32::from_bits(p.interest_weight), 0.0);
}

#[test]
fn nothing_is_below_or_above_no_number() {
    let nan = f64::NAN.to_bits();
    assert!(!bits::roll_is_below(0, bits::clamp_unit(nan)));
    assert!(!bits::is_positive64(nan) && !bits::is_positive64((-f64::NAN).to_bits()));
    assert!(bits::is_positive64(f64::INFINITY.to_bits()));
    assert!(!bits::is_nan64(f64::NEG_INFINITY.to_bits()));
    let (one, none) = (1.0f32.to_bits(), f32::NAN.to_bits());
    assert!(!bits::is_less32(one, none) && !bits::is_less32(none, one));
    assert!(!bits::is_at_most32(none, none) && bits::is_at_most32(one, one));
    let mut r = Round { cands: vec![4, 7], picked: vec![false; 2], n_picked: 0 };
    assert_eq!(r.next_pick(&vec![none, none], 2), None);
    assert_eq!(r.next_pick(&vec![none, one], 2), Some(1));
}

#[test]
fn a_table_without_weights_slips_to_the_second_rank() {
    let s = |x: f32| x.to_bits();
    let texts: Vec<String> = vec!["a".into(), "b".into(), "c".into()];
    let input = select::RankInput {
        texts: &texts,
        tokens: &vec![vec![], vec![], vec![]],
        sources: &vec![PathKind::Markov, PathKind::Echo, PathKind::Echo],
        surprises: &vec![None, None, None],
        topic_scores: &vec![s(0.1), s(0.3), s(0.2)],
        scores: &vec![s(0.1), s(0.3), s(0.2)],
    };
    for seed in 0..10 {
        let r = select::rank_and_pick(
            &input,
            1.0f64.to_bits(),
            &AliasTable::level(),
            &mut Stream::new(seed),
        );
        assert!(r.slipped);
        assert_eq!(r.index, 2);
    }
}

#[test]
fn far_days_have_dates() {
    let last = i64::MAX as u64 - 719_468;
    let (y, m, d) = weather::civil_from_day(last - 1);
    let (z, n, e) = weather::civil_from_day(last);
    assert!((z, n, e) == (y, m, d + 1) || (z, n, e) == (y, m + 1, 1) || (z, n, e) == (y + 1, 1, 1));
    assert!(y > 25_000_000_000_000_000);
}
