//! Extraction: from episodes to candidate facts.

use vstd::prelude::*;
use vstd::string::StringExecFns;
use crate::ast::opt_text;
use crate::name_map::NameMap;
use crate::protocol::{cands_view, copy_cands, parse_protocol, protocol_facts, CandV, CandidateFact};

verus! {

/// A conversational episode: the unit of ingestion and provenance.
#[derive(Debug)]
pub struct Episode {
    pub id: String,
    pub text: String,
    pub ts: i64,
    /// The speaker, where the application knows it.
    pub speaker: Option<String>,
}

/// The value of an [`Episode`].
#[verifier::ext_equal]
pub struct EpisodeV {
    pub id: Seq<char>,
    pub text: Seq<char>,
    pub ts: i64,
    pub speaker: Option<Seq<char>>,
}

impl View for Episode {
    type V = EpisodeV;

    open spec fn view(&self) -> EpisodeV {
        EpisodeV { id: self.id@, text: self.text@, ts: self.ts, speaker: opt_text(self.speaker) }
    }
}

pub open spec fn episodes_view(s: Seq<Episode>) -> Seq<EpisodeV> {
    s.map_values(|e: Episode| e@)
}

/// The extraction boundary: a deployment calls a model here.
pub trait Extractor: Sized {
    /// Extraction may give these facts for the episode and leave the
    /// extractor in this state. By default nothing is known of it.
    open spec fn outcome(before: Self, episode: EpisodeV, facts: Seq<CandV>, after: Self) -> bool {
        true
    }

    fn extract(&mut self, episode: &Episode) -> (r: Vec<CandidateFact>)
        ensures
            Self::outcome(*old(self), episode@, cands_view(r@), *final(self)),
    ;

    /// Model calls and failures so far; none by default.
    fn stats(&self) -> (r: (usize, usize))
        default_ensures
            r == (0usize, 0usize),
    {
        (0, 0)
    }
}

/// The facts extracted so far, by episode.
pub open spec fn seen_view(m: Map<Seq<char>, Vec<CandidateFact>>) -> Map<Seq<char>, Seq<CandV>> {
    m.map_values(|v: Vec<CandidateFact>| cands_view(v@))
}

/// A deterministic extractor that reads the line protocol.
#[derive(Debug)]
pub struct MockExtractor {
    /// The confidence of a fact that states none, a binary64 pattern.
    pub confidence: u64,
    pub seen: NameMap<Vec<CandidateFact>>,
}

/// What extraction gives: the facts seen for the episode's id, or those that
/// its text states.
pub open spec fn mock_facts(seen: Map<Seq<char>, Seq<CandV>>, confidence: u64, ep: EpisodeV) -> Seq<CandV> {
    if seen.contains_key(ep.id) {
        seen[ep.id]
    } else {
        protocol_facts(ep.text, confidence)
    }
}

impl MockExtractor {
    /// An extractor that gives its facts the same confidence.
    pub fn new(confidence: u64) -> (r: MockExtractor)
        ensures
            r.confidence == confidence,
            seen_view(r.seen@) == Map::<Seq<char>, Seq<CandV>>::empty(),
    {
        let r = MockExtractor { confidence, seen: NameMap::new() };
        assert(seen_view(r.seen@) =~= Map::empty());
        r
    }
}

impl Extractor for MockExtractor {
    open spec fn outcome(before: Self, ep: EpisodeV, facts: Seq<CandV>, after: Self) -> bool {
        &&& facts == mock_facts(seen_view(before.seen@), before.confidence, ep)
        &&& after.confidence == before.confidence
        &&& seen_view(after.seen@) == seen_view(before.seen@).insert(ep.id, facts)
    }

    /// An episode is never extracted twice.
    fn extract(&mut self, episode: &Episode) -> (r: Vec<CandidateFact>) {
        let ghost m0 = self.seen@;
        if let Some(cached) = self.seen.get(episode.id.as_str()) {
            let r = copy_cands(cached);
            proof {
                assert(seen_view(m0).contains_key(episode@.id));
                assert(seen_view(m0).insert(episode@.id, cands_view(r@)) =~= seen_view(m0));
            }
            return r;
        }
        let out = parse_protocol(episode.text.as_str(), self.confidence);
        self.seen.put(episode.id.as_str(), copy_cands(&out));
        assert(seen_view(self.seen@) =~= seen_view(m0).insert(episode@.id, cands_view(out@)));
        out
    }
}

/// The prompt for a model that extracts facts.
pub const EXTRACTION_PROMPT: &'static str = "\
Extract the factual triples from the episode below. Answer with one triple \
per line in exactly this format, nothing else:\n\
SUBJECT --RELATION[CONFIDENCE]--> OBJECT\n\
CONFIDENCE is a number in [0,1] (omit [CONFIDENCE] for 0.9). RELATION must \
be one of: works_at, manager, likes, job_title, member_of, located_in, \
links. Employment (works at, joined, was hired by, left) is ALWAYS \
works_at - for a job change emit only the NEW employer as a works_at \
triple. Reporting lines (reports to, manager is) are ALWAYS manager, with \
the person as the subject. Use the closest match for anything else; skip \
facts that fit none. SUBJECT and OBJECT must be real entity names exactly \
as written in the episode: NEVER a pronoun or a role word (speaker, user, \
the manager) - always the full name. Output ONLY the triple lines: no \
reasoning, no explanations, no bullets, no questions. Skip opinions and \
small talk.\n\
Episode:\n";

/// The bit pattern of 0.9.
pub const NINE_TENTHS: u64 = 0x3FEC_CCCC_CCCC_CCCD;

/// Extraction through a model that the caller runs: the prompt, the reading
/// of the reply, and the memory of episodes already extracted. An episode is
/// never extracted twice; a failed call gives no facts.
#[derive(Debug)]
pub struct LlmExtractor {
    pub default_confidence: u64,
    pub seen: NameMap<Vec<CandidateFact>>,
    /// How many replies were asked for.
    pub calls: usize,
    /// How many calls failed.
    pub failures: usize,
}

/// What extraction of an episode needs.
#[derive(Debug)]
pub enum Request {
    /// Nothing: the facts are known.
    Known(Vec<CandidateFact>),
    /// The model's reply to this prompt.
    Prompt(String),
}

/// The facts that a reply states, none where the call failed.
pub open spec fn reply_facts(reply: Option<Seq<char>>, confidence: u64) -> Seq<CandV> {
    match reply {
        Some(text) => protocol_facts(text, confidence),
        None => Seq::empty(),
    }
}

impl LlmExtractor {
    /// An extractor that has asked for nothing yet.
    pub fn new() -> (r: LlmExtractor)
        ensures
            r.default_confidence == NINE_TENTHS,
            seen_view(r.seen@) == Map::<Seq<char>, Seq<CandV>>::empty(),
            r.calls == 0,
            r.failures == 0,
    {
        let r = LlmExtractor { default_confidence: NINE_TENTHS, seen: NameMap::new(), calls: 0, failures: 0 };
        assert(seen_view(r.seen@) =~= Map::empty());
        r
    }

    /// Begins the extraction of an episode: gives its facts where they are
    /// known, else counts a call and gives the prompt for it.
    pub fn request(&mut self, episode: &Episode) -> (r: Request)
        ensures
            match r {
                Request::Known(facts) => seen_view(old(self).seen@).contains_key(episode@.id) && cands_view(facts@) == seen_view(
                    old(self).seen@,
                )[episode@.id] && final(self).calls == old(self).calls,
                Request::Prompt(p) => !seen_view(old(self).seen@).contains_key(episode@.id) && p@ == EXTRACTION_PROMPT@
                    + episode@.text && final(self).calls == old(self).calls.wrapping_add(1),
            },
            seen_view(final(self).seen@) == seen_view(old(self).seen@),
            final(self).failures == old(self).failures,
            final(self).default_confidence == old(self).default_confidence,
    {
        if let Some(cached) = self.seen.get(episode.id.as_str()) {
            return Request::Known(copy_cands(cached));
        }
        self.calls = self.calls.wrapping_add(1);
        let mut prompt = EXTRACTION_PROMPT.to_owned();
        prompt.append(episode.text.as_str());
        Request::Prompt(prompt)
    }

    /// Ends the extraction of an episode with the model's reply, `None` where
    /// the call failed.
    pub fn accept(&mut self, episode: &Episode, reply: Option<String>) -> (r: Vec<CandidateFact>)
        ensures
            cands_view(r@) == reply_facts(opt_text(reply), old(self).default_confidence),
            seen_view(final(self).seen@) == seen_view(old(self).seen@).insert(episode@.id, cands_view(r@)),
            final(self).calls == old(self).calls,
            final(self).failures == (if reply is None {
                old(self).failures.wrapping_add(1)
            } else {
                old(self).failures
            }),
            final(self).default_confidence == old(self).default_confidence,
    {
        let ghost m0 = self.seen@;
        let out = match &reply {
            Some(text) => parse_protocol(text.as_str(), self.default_confidence),
            None => {
                self.failures = self.failures.wrapping_add(1);
                Vec::new()
            },
        };
        proof {
            if reply is None {
                assert(cands_view(out@) =~= Seq::empty());
            }
        }
        self.seen.put(episode.id.as_str(), copy_cands(&out));
        assert(seen_view(self.seen@) =~= seen_view(m0).insert(episode@.id, cands_view(out@)));
        out
    }

    /// Model calls and failures so far.
    pub fn stats(&self) -> (r: (usize, usize))
        ensures
            r == (self.calls, self.failures),
    {
        (self.calls, self.failures)
    }
}

/// Law: an episode is extracted once. Whatever comes between, a second
/// extraction under the same id gives the facts of the first and leaves what
/// is remembered as it was.
pub proof fn extracted_once(
    a: MockExtractor,
    b: MockExtractor,
    c: MockExtractor,
    first: EpisodeV,
    again: EpisodeV,
    facts: Seq<CandV>,
    more: Seq<CandV>,
)
    requires
        MockExtractor::outcome(a, first, facts, b),
        first.id == again.id,
        MockExtractor::outcome(b, again, more, c),
    ensures
        more == facts,
        seen_view(c.seen@) == seen_view(b.seen@),
{
    assert(seen_view(b.seen@).insert(again.id, facts) =~= seen_view(b.seen@));
}

} // verus!
