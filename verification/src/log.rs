//! Records of the append-only conversation log.
use crate::explain::PathKind;
use vstd::prelude::*;

verus! {

#[derive(Debug, Clone, Copy, PartialEq, Eq, Structural)]
pub enum Role {
    User,
    Bot,
    /// Preference / control line. Not dialogue, not corpus.
    Meta,
}

#[derive(Debug, Clone)]
pub struct Record {
    pub v: u8,
    pub t: u64,
    pub role: Role,
    pub text: String,
    pub slipped: Option<bool>,
    /// Bit pattern of the topic similarity.
    pub score: Option<u32>,
    /// Whether this utterance was absorbed into the generative corpus.
    pub learned: bool,
    /// Winning source. Written on bot turns so the path mix survives reopen.
    pub path: Option<PathKind>,
    /// Longest run shared with the absorbed corpus (bot turns).
    pub novelty_lcs: Option<usize>,
    /// Chosen candidate length in tokens.
    pub n_tok: Option<usize>,
    /// Stream position after this reply, split into low/high words so the
    /// full 68-bit offset round-trips through ordinary JSON numbers.
    pub rng_word_pos: Option<[u64; 2]>,
}

/// A missing `learned` field (old seed logs) means learned: the file is a corpus.
pub fn default_learned() -> (r: bool)
    ensures
        r,
{
    true
}

impl Record {
    pub fn user(text: String, learned: bool, t: u64) -> (r: Self)
        ensures
            r == (Record {
                v: 1,
                t,
                role: Role::User,
                text,
                slipped: None,
                score: None,
                learned,
                path: None,
                novelty_lcs: None,
                n_tok: None,
                rng_word_pos: None,
            }),
    {
        Record {
            v: 1,
            t,
            role: Role::User,
            text,
            slipped: None,
            score: None,
            learned,
            path: None,
            novelty_lcs: None,
            n_tok: None,
            rng_word_pos: None,
        }
    }

    pub fn bot(
        text: String,
        learned: bool,
        score: u32,
        slipped: bool,
        path: PathKind,
        novelty_lcs: usize,
        n_tok: usize,
        t: u64,
    ) -> (r: Self)
        ensures
            r == (Record {
                v: 1,
                t,
                role: Role::Bot,
                text,
                slipped: Some(slipped),
                score: Some(score),
                learned,
                path: Some(path),
                novelty_lcs: Some(novelty_lcs),
                n_tok: Some(n_tok),
                rng_word_pos: None,
            }),
    {
        Record {
            v: 1,
            t,
            role: Role::Bot,
            text,
            slipped: Some(slipped),
            score: Some(score),
            learned,
            path: Some(path),
            novelty_lcs: Some(novelty_lcs),
            n_tok: Some(n_tok),
            rng_word_pos: None,
        }
    }

    /// Preference line (`good` / `bad`). Never enters the corpus.
    pub fn meta(text: String, path: Option<PathKind>, t: u64) -> (r: Self)
        ensures
            r == (Record {
                v: 1,
                t,
                role: Role::Meta,
                text,
                slipped: None,
                score: None,
                learned: false,
                path,
                novelty_lcs: None,
                n_tok: None,
                rng_word_pos: None,
            }),
    {
        Record {
            v: 1,
            t,
            role: Role::Meta,
            text,
            slipped: None,
            score: None,
            learned: false,
            path,
            novelty_lcs: None,
            n_tok: None,
            rng_word_pos: None,
        }
    }

    /// Saves a stream position in the record.
    pub fn set_rng_word_pos(&mut self, pos: u128)
        ensures
            final(self).rng_word_pos == Some(split_pos(pos)),
            *final(self) == (Record { rng_word_pos: final(self).rng_word_pos, ..*old(self) }),
    {
        let lo: u64 = (pos % 0x1_0000_0000_0000_0000) as u64;
        let hi: u64 = (pos / 0x1_0000_0000_0000_0000) as u64;
        self.rng_word_pos = Some([lo, hi]);
        proof {
            assert([lo, hi]@ =~= split_pos(pos)@);
        }
    }

    /// The stream position saved in the record.
    pub fn saved_rng_word_pos(&self) -> (r: Option<u128>)
        ensures
            r == (match self.rng_word_pos {
                Some(w) => Some(joined_pos(w)),
                None => None,
            }),
    {
        match &self.rng_word_pos {
            Some(w) => {
                let lo: u64 = w[0];
                let hi: u64 = w[1];
                Some(lo as u128 + hi as u128 * 0x1_0000_0000_0000_0000)
            },
            None => None,
        }
    }
}

/// Low and high word of a position.
pub open spec fn split_pos(pos: u128) -> [u64; 2] {
    [(pos as int % 0x1_0000_0000_0000_0000) as u64, (pos as int / 0x1_0000_0000_0000_0000) as u64]
}

/// The position that two words stand for.
pub open spec fn joined_pos(w: [u64; 2]) -> u128 {
    (w[0] + w[1] * 0x1_0000_0000_0000_0000) as u128
}

/// A saved stream position reads back as it was.
pub proof fn law_position_round_trip(pos: u128)
    ensures
        joined_pos(split_pos(pos)) == pos,
{
    let w = split_pos(pos);
    assert(w@[0] == (pos as int % 0x1_0000_0000_0000_0000) as u64);
    assert(w@[1] == (pos as int / 0x1_0000_0000_0000_0000) as u64);
}

/// Host-injected clock, milliseconds. 0 = unset (use the clock of the system).
pub struct Clock {
    pub injected_ms: u64,
}

pub fn set_now_ms(clock: &mut Clock, ms: u64)
    ensures
        final(clock).injected_ms == ms,
{
    clock.injected_ms = ms;
}

/// The injected time, or the system's where none is injected.
pub fn now_ms(clock: &Clock, system_ms: u64) -> (r: u64)
    ensures
        r == (if clock.injected_ms != 0 {
            clock.injected_ms
        } else {
            system_ms
        }),
{
    if clock.injected_ms != 0 {
        clock.injected_ms
    } else {
        system_ms
    }
}

/// Whether a log that ends in this byte has a torn final line, which must be terminated
/// before the next record is appended.
pub fn is_torn(last: Option<u8>) -> (r: bool)
    ensures
        r == (last matches Some(b) && b != 10),
{
    match last {
        Some(b) => b != 10,
        None => false,
    }
}

/// The position to resume at: that of the newest bot record, and the start of the stream
/// where it saved none.
pub open spec fn resume_pos(recs: Seq<Record>, k: int) -> Option<u128>
    decreases k,
{
    if k <= 0 {
        None
    } else if recs[k - 1].role == Role::Bot {
        match recs[k - 1].rng_word_pos {
            Some(w) => Some(joined_pos(w)),
            None => None,
        }
    } else {
        resume_pos(recs, k - 1)
    }
}

/// The stream position saved by the newest bot record, if it saved one.
pub fn saved_position(recs: &Vec<Record>) -> (r: Option<u128>)
    ensures
        r == resume_pos(recs@, recs.len() as int),
{
    let mut i: usize = recs.len();
    while i > 0
        invariant
            i <= recs.len(),
            resume_pos(recs@, recs.len() as int) == resume_pos(recs@, i as int),
        decreases i,
    {
        if recs[i - 1].role == Role::Bot {
            return recs[i - 1].saved_rng_word_pos();
        }
        i -= 1;
    }
    None
}

/// The two words of a position are its low and its high half.
pub proof fn law_position_is_in_two_words(pos: u128)
    ensures
        split_pos(pos)@.len() == 2,
        split_pos(pos)@[0] as int + split_pos(pos)@[1] as int * 0x1_0000_0000_0000_0000 == pos,
{
    let w = split_pos(pos);
    assert(w@[0] == (pos as int % 0x1_0000_0000_0000_0000) as u64);
    assert(w@[1] == (pos as int / 0x1_0000_0000_0000_0000) as u64);
}

/// The newest line of the bot decides where the stream goes on, whatever follows it: at the
/// position it saved, or at none where it saved none.
pub proof fn law_the_newest_reply_saves_the_position(recs: Seq<Record>, k: int, j: int)
    requires
        0 <= j < k <= recs.len(),
        recs[j].role == Role::Bot,
        forall|i: int| j < i < k ==> (#[trigger] recs[i]).role != Role::Bot,
    ensures
        recs[j].rng_word_pos is None ==> resume_pos(recs, k) is None,
        recs[j].rng_word_pos matches Some(w) ==> resume_pos(recs, k) == Some(
            (w@[0] as int + w@[1] as int * 0x1_0000_0000_0000_0000) as u128,
        ),
    decreases k,
{
    if j < k - 1 {
        law_the_newest_reply_saves_the_position(recs, k - 1, j);
        assert(recs[k - 1].role != Role::Bot);
    }
}

/// A log without a line of the bot has saved no position.
pub proof fn law_no_reply_no_position(recs: Seq<Record>, k: int)
    requires
        0 <= k <= recs.len(),
        forall|i: int| 0 <= i < k ==> (#[trigger] recs[i]).role != Role::Bot,
    ensures
        resume_pos(recs, k) is None,
    decreases k,
{
    if k > 0 {
        law_no_reply_no_position(recs, k - 1);
        assert(recs[k - 1].role != Role::Bot);
    }
}

} // verus!
