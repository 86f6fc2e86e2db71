//! Incremental digest of the log: counts, paths and days, updated per record.
use crate::explain::PathKind;
use crate::log::Record;
use crate::log::Role;
use crate::milestone::ALOOF_GAP_DAYS;
use crate::milestone::ALOOF_SPEECH;
use crate::route;
use crate::weather;
use vstd::prelude::*;

verus! {

#[derive(Debug)]
pub struct LogDigest {
    /// Dialogue records.
    pub speech: usize,
    /// Preference records.
    pub meta: usize,
    /// Absorbed records.
    pub learned: usize,
    pub first_speech_t: Option<u64>,
    pub last_speech_t: Option<u64>,
    /// Dialogue records until the distance after an absence has worn off.
    pub aloof_left: u32,
    /// Days between the last two dialogue records.
    pub last_gap_days: u64,
    pub first_learned_user: Option<String>,
    /// Bot records per source.
    pub paths: [usize; 5],
    /// Bot records with a known source.
    pub path_known: usize,
}

/// What a digest holds.
#[verifier::ext_equal]
pub struct Digest {
    pub speech: int,
    pub meta: int,
    pub learned: int,
    pub first_speech_t: Option<u64>,
    pub last_speech_t: Option<u64>,
    pub aloof_left: u32,
    pub last_gap_days: u64,
    pub first_learned_user: Option<Seq<char>>,
    pub paths: Seq<int>,
    pub path_known: int,
}

impl View for LogDigest {
    type V = Digest;

    open spec fn view(&self) -> Digest {
        Digest {
            speech: self.speech as int,
            meta: self.meta as int,
            learned: self.learned as int,
            first_speech_t: self.first_speech_t,
            last_speech_t: self.last_speech_t,
            aloof_left: self.aloof_left,
            last_gap_days: self.last_gap_days,
            first_learned_user: match self.first_learned_user {
                Some(s) => Some(s@),
                None => None,
            },
            paths: self.paths@.map_values(|n: usize| n as int),
            path_known: self.path_known as int,
        }
    }
}

/// The digest of no record.
pub open spec fn blank() -> Digest {
    Digest {
        speech: 0,
        meta: 0,
        learned: 0,
        first_speech_t: None,
        last_speech_t: None,
        aloof_left: 0,
        last_gap_days: 0,
        first_learned_user: None,
        paths: seq![0, 0, 0, 0, 0],
        path_known: 0,
    }
}

/// Whole UTC days from one time to a later one.
pub open spec fn days_between(from: u64, to: u64) -> u64 {
    if to / 86_400_000 < from / 86_400_000 {
        0
    } else {
        (to / 86_400_000 - from / 86_400_000) as u64
    }
}

/// The digest with one more record.
///
/// A dialogue record that comes a week or more after the one before it makes the next twenty
/// distant; every other one wears the distance off by one.
pub open spec fn ingested(d: Digest, r: Record) -> Digest {
    if r.role == Role::Meta {
        Digest { meta: d.meta + 1, ..d }
    } else {
        let gap = match d.last_speech_t {
            Some(t) => days_between(t, r.t),
            None => 0,
        };
        Digest {
            speech: d.speech + 1,
            meta: d.meta,
            learned: if r.learned {
                d.learned + 1
            } else {
                d.learned
            },
            first_speech_t: match d.first_speech_t {
                Some(t) => Some(t),
                None => Some(r.t),
            },
            last_speech_t: Some(r.t),
            aloof_left: if gap >= ALOOF_GAP_DAYS {
                ALOOF_SPEECH
            } else if d.aloof_left > 0 {
                (d.aloof_left - 1) as u32
            } else {
                0
            },
            last_gap_days: gap,
            first_learned_user: match d.first_learned_user {
                Some(s) => Some(s),
                None => if r.role == Role::User && r.learned {
                    Some(r.text@)
                } else {
                    None
                },
            },
            paths: match r.path {
                Some(p) if r.role == Role::Bot => d.paths.update(
                    route::index_of(p),
                    d.paths[route::index_of(p)] + 1,
                ),
                _ => d.paths,
            },
            path_known: if r.role == Role::Bot && r.path is Some {
                d.path_known + 1
            } else {
                d.path_known
            },
        }
    }
}

/// The digest of the first `k` records.
pub open spec fn digest_of(recs: Seq<Record>, k: int) -> Digest
    decreases k,
{
    if k <= 0 {
        blank()
    } else {
        ingested(digest_of(recs, k - 1), recs[k - 1])
    }
}

impl LogDigest {
    /// No count exceeds the number of records.
    pub open spec fn counts_up_to(&self, n: int) -> bool {
        &&& self.speech <= n
        &&& self.meta <= n
        &&& self.learned <= n
        &&& self.path_known <= n
        &&& forall|i: int| 0 <= i < 5 ==> #[trigger] self.paths[i] <= n
    }

    /// The digest of an empty log.
    pub fn new() -> (r: Self)
        ensures
            r@ == blank(),
            r.counts_up_to(0),
    {
        let r = LogDigest {
            speech: 0,
            meta: 0,
            learned: 0,
            first_speech_t: None,
            last_speech_t: None,
            aloof_left: 0,
            last_gap_days: 0,
            first_learned_user: None,
            paths: [0usize, 0, 0, 0, 0],
            path_known: 0,
        };
        proof {
            assert(r@.paths =~= seq![0int, 0, 0, 0, 0]);
        }
        r
    }

    /// Takes in one more record.
    pub fn ingest(&mut self, rec: &Record)
        requires
            old(self).counts_up_to(usize::MAX - 1),
        ensures
            final(self)@ == ingested(old(self)@, *rec),
            forall|n: int| #[trigger]
                old(self).counts_up_to(n) ==> final(self).counts_up_to(n + 1),
    {
        if rec.role == Role::Meta {
            self.meta = self.meta + 1;
            proof {
                assert(self@ =~= ingested(old(self)@, *rec));
            }
            return ;
        }
        self.speech = self.speech + 1;
        if rec.learned {
            self.learned = self.learned + 1;
        }
        let gap: u64 = match self.last_speech_t {
            Some(t) => {
                let from: u64 = weather::day_of_ms(t);
                let to: u64 = weather::day_of_ms(rec.t);
                if to < from {
                    0
                } else {
                    to - from
                }
            },
            None => 0,
        };
        if self.first_speech_t.is_none() {
            self.first_speech_t = Some(rec.t);
        }
        self.last_speech_t = Some(rec.t);
        if gap >= ALOOF_GAP_DAYS {
            self.aloof_left = ALOOF_SPEECH;
        } else if self.aloof_left > 0 {
            self.aloof_left = self.aloof_left - 1;
        }
        self.last_gap_days = gap;
        if self.first_learned_user.is_none() && rec.role == Role::User && rec.learned {
            self.first_learned_user = Some(rec.text.clone());
        }
        if rec.role == Role::Bot {
            match rec.path {
                Some(p) => {
                    let i: usize = route::prior_index(p);
                    let c: usize = self.paths[i];
                    self.paths[i] = c + 1;
                    self.path_known = self.path_known + 1;
                },
                None => {},
            }
        }
        proof {
            assert(self@.paths =~= ingested(old(self)@, *rec).paths);
            assert(self@ =~= ingested(old(self)@, *rec));
        }
    }

    /// The digest of a whole log.
    pub fn scan(recs: &Vec<Record>) -> (r: Self)
        requires
            recs.len() < usize::MAX,
        ensures
            r@ == digest_of(recs@, recs.len() as int),
            r.counts_up_to(recs.len() as int),
    {
        let mut d = LogDigest::new();
        let mut i: usize = 0;
        while i < recs.len()
            invariant
                i <= recs.len() < usize::MAX,
                d@ == digest_of(recs@, i as int),
                d.counts_up_to(i as int),
            decreases recs.len() - i,
        {
            assert(d.counts_up_to(usize::MAX - 1));
            d.ingest(&recs[i]);
            i += 1;
        }
        d
    }
}

proof fn lemma_digest_prefix(a: Seq<Record>, b: Seq<Record>, k: int)
    requires
        0 <= k <= a.len(),
        k <= b.len(),
        forall|i: int| 0 <= i < k ==> a[i] == b[i],
    ensures
        digest_of(a, k) == digest_of(b, k),
    decreases k,
{
    if k > 0 {
        lemma_digest_prefix(a, b, k - 1);
    }
}

/// The digest of a reopened log is the digest that was kept record by record.
pub proof fn law_digest_incremental(recs: Seq<Record>, r: Record)
    ensures
        digest_of(recs.push(r), recs.len() as int + 1) == ingested(
            digest_of(recs, recs.len() as int),
            r,
        ),
{
    lemma_digest_prefix(recs, recs.push(r), recs.len() as int);
}

/// Days between a record and the one before it, or the digest's last.
pub open spec fn gap_before(d: Digest, recs: Seq<Record>, i: int) -> u64 {
    days_between(
        (if i == 0 {
            d.last_speech_t->0
        } else {
            recs[i - 1].t
        }),
        recs[i].t,
    )
}

/// The distance after an absence wears off within twenty dialogue records that follow each
/// other within a week.
pub proof fn law_distance_wears_off(d: Digest, recs: Seq<Record>, k: int)
    requires
        0 <= k <= recs.len(),
        d.aloof_left <= ALOOF_SPEECH,
        d.last_speech_t is Some,
        forall|i: int| 0 <= i < recs.len() ==> (#[trigger] recs[i]).role != Role::Meta,
        forall|i: int|
            0 <= i < recs.len() ==> #[trigger] gap_before(d, recs, i) < ALOOF_GAP_DAYS,
    ensures
        ingested_all(d, recs, k).aloof_left == (if d.aloof_left > k {
            d.aloof_left - k
        } else {
            0
        }),
        ingested_all(d, recs, k).last_speech_t == Some(
            if k == 0 {
                d.last_speech_t->0
            } else {
                recs[k - 1].t
            },
        ),
    decreases k,
{
    if k > 0 {
        law_distance_wears_off(d, recs, k - 1);
        assert(recs[k - 1].role != Role::Meta);
        assert(gap_before(d, recs, k - 1) < ALOOF_GAP_DAYS);
    }
}

/// The digest with the first `k` of more records.
pub open spec fn ingested_all(d: Digest, recs: Seq<Record>, k: int) -> Digest
    decreases k,
{
    if k <= 0 {
        d
    } else {
        ingested(ingested_all(d, recs, k - 1), recs[k - 1])
    }
}

/// A line that someone said and the bot took in.
pub open spec fn absorbed_from(r: Record, role: Role) -> bool {
    r.role == role && r.learned
}

/// The first word is the earliest user line that was absorbed: without such a line there is
/// none, and with one it is the text of the one that no other comes before.
pub proof fn law_first_word_is_the_earliest(recs: Seq<Record>, k: int) -> (i: int)
    requires
        0 <= k <= recs.len(),
    ensures
        match digest_of(recs, k).first_learned_user {
            Some(s) => {
                &&& 0 <= i < k
                &&& absorbed_from(recs[i], Role::User)
                &&& recs[i].text@ == s
                &&& forall|j: int| 0 <= j < i ==> !absorbed_from(#[trigger] recs[j], Role::User)
            },
            None => forall|j: int|
                0 <= j < k ==> !absorbed_from(#[trigger] recs[j], Role::User),
        },
    decreases k,
{
    if k <= 0 {
        0
    } else {
        let i = law_first_word_is_the_earliest(recs, k - 1);
        match digest_of(recs, k - 1).first_learned_user {
            Some(_) => i,
            None => k - 1,
        }
    }
}

/// Once there is a first word, no record changes it.
pub proof fn law_first_word_stays(d: Digest, recs: Seq<Record>, k: int)
    requires
        d.first_learned_user is Some,
        0 <= k <= recs.len(),
    ensures
        ingested_all(d, recs, k).first_learned_user == d.first_learned_user,
    decreases k,
{
    if k > 0 {
        law_first_word_stays(d, recs, k - 1);
    }
}

/// The counts are what a look at the whole log counts: dialogue records, preferences, and
/// absorbed dialogue records.
pub proof fn law_counts_are_those_of_the_log(recs: Seq<Record>, k: int)
    requires
        0 <= k <= recs.len(),
    ensures
        ({
            let d = digest_of(recs, k);
            let lines = recs.take(k);
            &&& d.speech == lines.filter(|r: Record| r.role != Role::Meta).len()
            &&& d.meta == lines.filter(|r: Record| r.role == Role::Meta).len()
            &&& d.learned == lines.filter(|r: Record| r.role != Role::Meta && r.learned).len()
            &&& d.path_known == lines.filter(
                |r: Record| r.role == Role::Bot && r.path is Some,
            ).len()
        }),
    decreases k,
{
    reveal(Seq::filter);
    if k > 0 {
        law_counts_are_those_of_the_log(recs, k - 1);
        assert(recs.take(k).drop_last() =~= recs.take(k - 1));
    }
}

/// The count of a source is the number of bot lines that came from it.
pub proof fn law_source_counts_are_those_of_the_log(recs: Seq<Record>, k: int, p: PathKind)
    requires
        0 <= k <= recs.len(),
    ensures
        digest_of(recs, k).paths.len() == 5,
        digest_of(recs, k).paths[route::index_of(p)] == recs.take(k).filter(
            |r: Record| r.role == Role::Bot && r.path == Some(p),
        ).len(),
    decreases k,
{
    reveal(Seq::filter);
    if k > 0 {
        law_source_counts_are_those_of_the_log(recs, k - 1, p);
        assert(recs.take(k).drop_last() =~= recs.take(k - 1));
        match recs[k - 1].path {
            Some(q) => {
                route::law_sources_have_places_of_their_own(p, q);
            },
            None => {},
        }
    }
}

/// The days run from the first to the last dialogue record.
pub proof fn law_days_run_from_first_to_last(recs: Seq<Record>, k: int, i: int, j: int)
    requires
        0 <= i <= j < k <= recs.len(),
        recs[i].role != Role::Meta,
        recs[j].role != Role::Meta,
        forall|n: int| 0 <= n < i ==> (#[trigger] recs[n]).role == Role::Meta,
        forall|n: int| j < n < k ==> (#[trigger] recs[n]).role == Role::Meta,
    ensures
        digest_of(recs, k).first_speech_t == Some(recs[i].t),
        digest_of(recs, k).last_speech_t == Some(recs[j].t),
    decreases k,
{
    lemma_silent_start(recs, i);
    lemma_first_stays(recs, i + 1, k);
    lemma_last_stays(recs, j + 1, k);
}

proof fn lemma_silent_start(recs: Seq<Record>, k: int)
    requires
        0 <= k <= recs.len(),
        forall|n: int| 0 <= n < k ==> (#[trigger] recs[n]).role == Role::Meta,
    ensures
        digest_of(recs, k).first_speech_t is None,
        digest_of(recs, k).last_speech_t is None,
    decreases k,
{
    if k > 0 {
        lemma_silent_start(recs, k - 1);
    }
}

proof fn lemma_first_stays(recs: Seq<Record>, k: int, n: int)
    requires
        0 <= k <= n <= recs.len(),
        digest_of(recs, k).first_speech_t is Some,
    ensures
        digest_of(recs, n).first_speech_t == digest_of(recs, k).first_speech_t,
    decreases n,
{
    if k < n {
        lemma_first_stays(recs, k, n - 1);
    }
}

proof fn lemma_last_stays(recs: Seq<Record>, k: int, n: int)
    requires
        0 <= k <= n <= recs.len(),
        forall|i: int| k <= i < n ==> (#[trigger] recs[i]).role == Role::Meta,
    ensures
        digest_of(recs, n).last_speech_t == digest_of(recs, k).last_speech_t,
    decreases n,
{
    if k < n {
        lemma_last_stays(recs, k, n - 1);
    }
}

/// An absence of a week or more, and nothing else, makes the bot distant anew, for twenty
/// records; a preference changes nothing about it.
pub proof fn law_absence_makes_distant(d: Digest, r: Record)
    requires
        d.last_speech_t is Some,
        d.aloof_left <= 20,
    ensures
        ({
            let e = ingested(d, r);
            let away = (r.t / 86_400_000) - (d.last_speech_t->0 / 86_400_000);
            &&& r.role == Role::Meta ==> e.aloof_left == d.aloof_left && e.last_gap_days
                == d.last_gap_days && e.last_speech_t == d.last_speech_t
            &&& r.role != Role::Meta && away >= 7 ==> e.aloof_left == 20 && e.last_gap_days == away
            &&& r.role != Role::Meta && away < 7 ==> e.aloof_left <= d.aloof_left
                && e.last_gap_days < 7
            &&& r.role != Role::Meta && 0 <= away < 7 ==> e.last_gap_days == away
            &&& r.role != Role::Meta && away < 0 ==> e.last_gap_days == 0
            &&& r.role != Role::Meta && away < 7 && d.aloof_left > 0 ==> e.aloof_left
                == d.aloof_left - 1
            &&& r.role != Role::Meta && away < 7 && d.aloof_left == 0 ==> e.aloof_left == 0
        }),
{
}

/// The first dialogue record has no absence before it, and sets the first and the last time.
pub proof fn law_the_first_record_comes_after_nothing(d: Digest, r: Record)
    requires
        d.first_speech_t is None,
        d.last_speech_t is None,
        d.aloof_left == 0,
        r.role != Role::Meta,
    ensures
        ({
            let e = ingested(d, r);
            &&& e.last_gap_days == 0
            &&& e.aloof_left == 0
            &&& e.first_speech_t == Some(r.t)
            &&& e.last_speech_t == Some(r.t)
        }),
{
}

} // verus!
