//! Closed analog of routing between experts.
//!
//! Experts are the candidate sources. They open by store occupancy and
//! the largest retrieve cosine — no neural router, no API.
use crate::explain::PathKind;
use crate::params::MixMode;
use crate::params::Params;
use crate::text;
use vstd::prelude::*;

verus! {

/// Which sources run, and how many candidates each may bring.
#[derive(Debug, Clone, Copy)]
pub struct RoutePlan {
    pub n_retrieve: usize,
    pub n_cand: usize,
    pub run_retrieve: bool,
    pub run_markov: bool,
    pub run_echo: bool,
}

/// The plan for sizes that the gates came to: none where a source has nothing to draw on or
/// is switched off, at least one where it has, and no more retrieved than asked for.
pub open spec fn planned(
    params: Params,
    store_tokens: int,
    n_bots: int,
    retrieve_size: int,
    cand_size: int,
) -> RoutePlan {
    let n_retrieve = if n_bots == 0 || params.n_retrieve == 0 {
        0
    } else if retrieve_size < 1 {
        1
    } else if retrieve_size > params.n_retrieve {
        params.n_retrieve as int
    } else {
        retrieve_size
    };
    let n_cand = if store_tokens == 0 || params.n_cand == 0 {
        0
    } else if cand_size < 1 {
        1
    } else {
        cand_size
    };
    RoutePlan {
        n_retrieve: n_retrieve as usize,
        n_cand: n_cand as usize,
        run_retrieve: n_retrieve > 0 && params.mix == MixMode::Pool,
        run_markov: n_cand > 0 || params.mix == MixMode::Exclusive,
        run_echo: params.mix == MixMode::Pool || store_tokens == 0,
    }
}

/// Decides which sources run. `retrieve_size` and `cand_size` are the asked-for numbers,
/// scaled by the host's gates and rounded.
pub fn plan(
    params: &Params,
    store_tokens: usize,
    n_bots: usize,
    retrieve_size: usize,
    cand_size: usize,
) -> (r: RoutePlan)
    ensures
        r == planned(
            *params,
            store_tokens as int,
            n_bots as int,
            retrieve_size as int,
            cand_size as int,
        ),
{
    let n_retrieve: usize = if n_bots == 0 || params.n_retrieve == 0 {
        0
    } else if retrieve_size < 1 {
        1
    } else if retrieve_size > params.n_retrieve {
        params.n_retrieve
    } else {
        retrieve_size
    };
    let n_cand: usize = if store_tokens == 0 || params.n_cand == 0 {
        0
    } else if cand_size < 1 {
        1
    } else {
        cand_size
    };
    RoutePlan {
        n_retrieve,
        n_cand,
        run_retrieve: n_retrieve > 0 && params.mix == MixMode::Pool,
        run_markov: n_cand > 0 || params.mix == MixMode::Exclusive,
        run_echo: params.mix == MixMode::Pool || store_tokens == 0,
    }
}

/// How the gates are written.
pub struct GateNumbers {
    pub trig: String,
    pub retr: String,
    pub mark: String,
    pub echo: String,
}

impl RoutePlan {
    /// The route's line in `/why`.
    pub fn explain_line(self, g: &GateNumbers) -> (r: String)
        ensures
            r@ == "route g[trig="@ + g.trig@ + " retr="@ + g.retr@ + " mark="@ + g.mark@ + " echo="@
                + g.echo@ + "]  n_retr="@ + text::digits(self.n_retrieve as nat) + " n_cand="@
                + text::digits(self.n_cand as nat),
    {
        let mut out = text::chars_of("route g[trig=");
        text::put_str(&mut out, g.trig.as_str());
        text::put_str(&mut out, " retr=");
        text::put_str(&mut out, g.retr.as_str());
        text::put_str(&mut out, " mark=");
        text::put_str(&mut out, g.mark.as_str());
        text::put_str(&mut out, " echo=");
        text::put_str(&mut out, g.echo.as_str());
        text::put_str(&mut out, "]  n_retr=");
        text::put(&mut out, &text::decimal(self.n_retrieve as u64));
        text::put_str(&mut out, " n_cand=");
        text::put(&mut out, &text::decimal(self.n_cand as u64));
        text::string_of(&out)
    }
}

/// Where a source's prior stands.
pub open spec fn index_of(p: PathKind) -> int {
    match p {
        PathKind::Trigger => 0,
        PathKind::Markov => 1,
        PathKind::Retrieve => 2,
        PathKind::Echo => 3,
        PathKind::Adapt => 4,
    }
}

pub fn prior_index(p: PathKind) -> (r: usize)
    ensures
        r == index_of(p),
        r < 5,
{
    match p {
        PathKind::Trigger => 0,
        PathKind::Markov => 1,
        PathKind::Retrieve => 2,
        PathKind::Echo => 3,
        PathKind::Adapt => 4,
    }
}

/// Past replies are offered whenever there are any: in pool mode, with a past reply and a place
/// asked for, the source runs with at least one place and no more than were asked for. In
/// exclusive mode, without past replies, or with no place asked for it stays silent.
pub proof fn law_past_replies_are_offered(
    params: Params,
    store_tokens: int,
    n_bots: int,
    retrieve_size: int,
    cand_size: int,
)
    requires
        0 <= store_tokens,
        0 <= n_bots,
        0 <= retrieve_size <= usize::MAX,
        0 <= cand_size <= usize::MAX,
    ensures
        ({
            let r = planned(params, store_tokens, n_bots, retrieve_size, cand_size);
            &&& r.run_retrieve <==> params.mix is Pool && n_bots > 0 && params.n_retrieve > 0
            &&& r.run_retrieve ==> 1 <= r.n_retrieve <= params.n_retrieve
            &&& r.run_retrieve && 1 <= retrieve_size <= params.n_retrieve ==> r.n_retrieve
                == retrieve_size
            &&& r.run_retrieve && retrieve_size == 0 ==> r.n_retrieve == 1
            &&& r.run_retrieve && retrieve_size > params.n_retrieve ==> r.n_retrieve
                == params.n_retrieve
            &&& n_bots == 0 || params.n_retrieve == 0 ==> r.n_retrieve == 0
        }),
{
}

/// Markov candidates need a corpus: without one there are none, and with one there is at least
/// one unless none is asked for. In exclusive mode the source runs in any case.
pub proof fn law_generation_needs_a_corpus(
    params: Params,
    store_tokens: int,
    n_bots: int,
    retrieve_size: int,
    cand_size: int,
)
    requires
        0 <= store_tokens,
        0 <= n_bots,
        0 <= retrieve_size <= usize::MAX,
        0 <= cand_size <= usize::MAX,
    ensures
        ({
            let r = planned(params, store_tokens, n_bots, retrieve_size, cand_size);
            &&& r.n_cand > 0 <==> store_tokens > 0 && params.n_cand > 0
            &&& r.n_cand > 0 && cand_size > 0 ==> r.n_cand == cand_size
            &&& r.n_cand > 0 && cand_size == 0 ==> r.n_cand == 1
            &&& params.mix is Exclusive ==> r.run_markov
            &&& params.mix is Pool ==> (r.run_markov <==> store_tokens > 0 && params.n_cand > 0)
        }),
{
}

/// The echo is open in pool mode, and where there is no corpus to speak from.
pub proof fn law_echo_is_the_way_out(
    params: Params,
    store_tokens: int,
    n_bots: int,
    retrieve_size: int,
    cand_size: int,
)
    ensures
        ({
            let r = planned(params, store_tokens, n_bots, retrieve_size, cand_size);
            &&& params.mix is Pool ==> r.run_echo
            &&& store_tokens == 0 ==> r.run_echo
            &&& params.mix is Exclusive && store_tokens != 0 ==> !r.run_echo
        }),
{
}

/// Sources have places of their own, in the order in which their counts are shown.
pub proof fn law_sources_have_places_of_their_own(p: PathKind, q: PathKind)
    ensures
        0 <= index_of(p) < 5,
        index_of(p) == index_of(q) <==> p == q,
        index_of(PathKind::Trigger) < index_of(PathKind::Markov),
        index_of(PathKind::Markov) < index_of(PathKind::Retrieve),
        index_of(PathKind::Retrieve) < index_of(PathKind::Echo),
        index_of(PathKind::Echo) < index_of(PathKind::Adapt),
{
}

} // verus!
