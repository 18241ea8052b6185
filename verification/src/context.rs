//! Context windows: distilled facts first, their source episodes last.

use vstd::prelude::*;
use vstd::string::StringExecFns;
use crate::confidence::conf_above;
use crate::decimal::{lower, lower_ascii};
use crate::engine::{engine_wf, Engine, EngineV};
use crate::extract::{episodes_view, Episode, EpisodeV};
use crate::intern::{shown, symbol_of};
use crate::notation::{fixed_text, fixed_to_text};
use crate::policy::lemma_hit_len;
use crate::query::{hits_view, query_of, Hit};
use crate::relation::AnnV;
use crate::scan::{byte_length, count_bytes, find_chars, find_from};
use crate::sorted_set::{enumerate, models, SortedSet};
use crate::text::{end_lines, ended_lines, join, joined, texts, to_chars};
use crate::value::{copy_key, Value};

verus! {

/// A tuple and its annotation.
pub type HitV = (Seq<Value>, AnnV);

/// The current facts of an entity. A name without a symbol has none.
pub open spec fn facts_about(e: EngineV, name: Seq<char>) -> Seq<HitV> {
    match symbol_of(e.st.names, name) {
        Some(x) => query_of(e.st, "current"@, seq![Some(Value::Sym(x)), None, None]),
        None => Seq::empty(),
    }
}

/// The current facts of the first `n` entities.
pub open spec fn relevant(e: EngineV, entities: Seq<Seq<char>>, n: int) -> Seq<HitV>
    decreases n,
{
    if n <= 0 {
        Seq::empty()
    } else {
        relevant(e, entities, n - 1) + facts_about(e, entities[n - 1])
    }
}

/// Placing a fact behind those that it is not above.
pub open spec fn placed(s: Seq<HitV>, x: HitV) -> Seq<HitV>
    decreases s.len(),
{
    if s.len() == 0 || !conf_above(x.1.conf, s.last().1.conf) {
        s.push(x)
    } else {
        placed(s.drop_last(), x).push(s.last())
    }
}

/// Highest confidence first; facts of equal confidence keep their order.
pub open spec fn highest_first(s: Seq<HitV>) -> Seq<HitV>
    decreases s.len(),
{
    if s.len() == 0 {
        s
    } else {
        placed(highest_first(s.drop_last()), s.last())
    }
}

/// No fact is above an earlier one.
pub open spec fn descending(s: Seq<HitV>) -> bool {
    forall|i: int, j: int| 0 <= i < j < s.len() ==> !conf_above((#[trigger] s[j]).1.conf, (#[trigger] s[i]).1.conf)
}

proof fn lemma_placed(s: Seq<HitV>, x: HitV)
    requires
        descending(s),
    ensures
        descending(placed(s, x)),
        placed(s, x).len() == s.len() + 1,
        placed(s, x).to_multiset() =~= s.push(x).to_multiset(),
        forall|i: int|
            0 <= i < placed(s, x).len() ==> (#[trigger] placed(s, x)[i]) == x || exists|j: int|
                0 <= j < s.len() && #[trigger] s[j] == placed(s, x)[i],
    decreases s.len(),
{
    broadcast use vstd::seq_lib::group_to_multiset_ensures;

    if s.len() == 0 || !conf_above(x.1.conf, s.last().1.conf) {
        let p = s.push(x);
        assert forall|i: int, j: int| 0 <= i < j < p.len() implies !conf_above(
            (#[trigger] p[j]).1.conf,
            (#[trigger] p[i]).1.conf,
        ) by {
            if j == s.len() {
                assert(p[i] == s[i]);
                assert(i == s.len() - 1 || !conf_above(s.last().1.conf, s[i].1.conf));
            } else {
                assert(p[i] == s[i] && p[j] == s[j]);
            }
        }
        assert forall|i: int| 0 <= i < p.len() implies (#[trigger] p[i]) == x || exists|j: int|
            0 <= j < s.len() && #[trigger] s[j] == p[i] by {
            if i < s.len() {
                assert(s[i] == p[i]);
            }
        }
    } else {
        let d = s.drop_last();
        let y = s.last();
        assert forall|i: int, j: int| 0 <= i < j < d.len() implies !conf_above(
            (#[trigger] d[j]).1.conf,
            (#[trigger] d[i]).1.conf,
        ) by {
            assert(d[i] == s[i] && d[j] == s[j]);
        }
        lemma_placed(d, x);
        let q = placed(d, x);
        let p = q.push(y);
        assert(y == s[s.len() - 1]);
        assert forall|i: int, j: int| 0 <= i < j < p.len() implies !conf_above(
            (#[trigger] p[j]).1.conf,
            (#[trigger] p[i]).1.conf,
        ) by {
            assert(p[i] == q[i]);
            if j == q.len() {
                if q[i] != x {
                    let k = choose|k: int| 0 <= k < d.len() && #[trigger] d[k] == q[i];
                    assert(s[k] == q[i]);
                }
            } else {
                assert(p[j] == q[j]);
            }
        }
        assert forall|i: int| 0 <= i < p.len() implies (#[trigger] p[i]) == x || exists|j: int|
            0 <= j < s.len() && #[trigger] s[j] == p[i] by {
            if i < q.len() {
                assert(p[i] == q[i]);
                if q[i] != x {
                    let k = choose|k: int| 0 <= k < d.len() && #[trigger] d[k] == q[i];
                    assert(s[k] == p[i]);
                }
            } else {
                assert(s[s.len() - 1] == p[i]);
            }
        }
        assert(s =~= d.push(y));
    }
}

/// Law: the facts are only reordered, and none is above an earlier one.
pub proof fn highest_first_sorts(s: Seq<HitV>)
    ensures
        descending(highest_first(s)),
        highest_first(s).to_multiset() =~= s.to_multiset(),
    decreases s.len(),
{
    broadcast use vstd::seq_lib::group_to_multiset_ensures;

    if s.len() > 0 {
        let d = s.drop_last();
        highest_first_sorts(d);
        lemma_placed(highest_first(d), s.last());
        assert(s =~= d.push(s.last()));
    }
}

/// The line for a fact.
pub open spec fn hit_line(names: Seq<Seq<char>>, h: HitV) -> Seq<char> {
    shown(names, h.0[0]) + " --"@ + shown(names, h.0[1]) + "--> "@ + shown(names, h.0[2]) + "   [conf "@ + fixed_text(
        h.1.conf,
        2,
    ) + ", prov "@ + joined(enumerate::<String>(h.1.prov), ","@) + "]\n"@
}

/// The lines and the sources of the facts from position `i` on, up to the
/// first that would exceed the budget in bytes.
pub open spec fn distilled(
    names: Seq<Seq<char>>,
    hits: Seq<HitV>,
    budget: nat,
    i: int,
    out: Seq<char>,
    used: Set<Seq<char>>,
) -> (Seq<char>, Set<Seq<char>>)
    decreases hits.len() - i,
{
    if i < 0 || i >= hits.len() {
        (out, used)
    } else {
        let line = hit_line(names, hits[i]);
        if byte_length(out) + byte_length(line) > budget {
            (out, used)
        } else {
            distilled(names, hits, budget, i + 1, out + line, used.union(hits[i].1.prov))
        }
    }
}

/// An episode, verbatim.
pub open spec fn episode_block(ep: EpisodeV) -> Seq<char> {
    "["@ + ep.id + "] "@ + ep.text + "\n"@
}

/// The used episodes from position `i` on, up to the first that would exceed
/// the budget in bytes.
pub open spec fn verbatim(eps: Seq<EpisodeV>, used: Set<Seq<char>>, budget: nat, i: int, out: Seq<char>) -> Seq<char>
    decreases eps.len() - i,
{
    if i < 0 || i >= eps.len() {
        out
    } else if !used.contains(eps[i].id) {
        verbatim(eps, used, budget, i + 1, out)
    } else if byte_length(out) + byte_length(episode_block(eps[i])) > budget {
        out
    } else {
        verbatim(eps, used, budget, i + 1, out + episode_block(eps[i]))
    }
}

pub open spec fn news_section(news: Seq<Seq<char>>) -> Seq<char> {
    if news.len() == 0 {
        Seq::empty()
    } else {
        "== new in memory since last turn ==\n"@ + ended_lines(news, news.len() as int) + "\n"@
    }
}

/// The context window: the news, the distilled facts of the entities in six
/// tenths of the budget, and their source episodes in four tenths. A token is
/// four bytes.
pub open spec fn context_text(
    e: EngineV,
    eps: Seq<EpisodeV>,
    entities: Seq<Seq<char>>,
    budget_tokens: nat,
    news: Seq<Seq<char>>,
) -> Seq<char> {
    citing_text(e, eps, entities, budget_tokens, news, Set::empty())
}

/// The context window with some episodes counted as sources from the start.
pub open spec fn citing_text(
    e: EngineV,
    eps: Seq<EpisodeV>,
    entities: Seq<Seq<char>>,
    budget_tokens: nat,
    news: Seq<Seq<char>>,
    cited: Set<Seq<char>>,
) -> Seq<char> {
    let hits = highest_first(relevant(e, entities, entities.len() as int));
    let d = distilled(e.st.names, hits, budget_tokens * 4 * 6 / 10, 0, Seq::empty(), cited);
    let s = verbatim(eps, d.1, budget_tokens * 4 * 4 / 10, 0, Seq::empty());
    news_section(news) + "== memory (distilled, highest confidence first) ==\n"@ + d.0
        + "\n== source episodes (verbatim, from provenance) ==\n"@ + s
}

fn push_sorted(sorted: &mut Vec<Hit>, x: Hit)
    ensures
        hits_view(final(sorted)@) == placed(hits_view(old(sorted)@), (x.0@, x.1@)),
        final(sorted)@.len() == old(sorted)@.len() + 1,
{
    let ghost s = hits_view(sorted@);
    let ghost xv = (x.0@, x.1@);
    let n: usize = sorted.len();
    let mut p: usize = n;
    assert(s.take(n as int) =~= s);
    assert(placed(s, xv) + s.skip(n as int) =~= placed(s, xv));
    while p > 0 && x.1.conf.is_above(&sorted[p - 1].1.conf)
        invariant
            p <= n,
            n == sorted@.len(),
            s == hits_view(sorted@),
            xv == (x.0@, x.1@),
            placed(s, xv) == placed(s.take(p as int), xv) + s.skip(p as int),
        decreases p,
    {
        proof {
            let t = s.take(p as int);
            assert(t.last() == s[p - 1]);
            assert(s[p - 1].1 == sorted@[p - 1].1@);
            assert(t.drop_last() =~= s.take(p - 1));
            assert(placed(s.take(p - 1), xv).push(s[p - 1]) + s.skip(p as int) =~= placed(s.take(p - 1), xv) + s.skip(p - 1));
        }
        p -= 1;
    }
    proof {
        if p > 0 {
            assert(s.take(p as int).last() == s[p - 1]);
            assert(s[p - 1].1 == sorted@[p - 1].1@);
        }
    }
    sorted.insert(p, x);
    assert(hits_view(sorted@) =~= s.take(p as int).push(xv) + s.skip(p as int));
}

fn write_hit(engine: &Engine, h: &Hit) -> (r: String)
    requires
        h.0@.len() == 3,
    ensures
        r@ == hit_line(engine@.st.names, (h.0@, h.1@)),
{
    let names = &engine.store.interner;
    let mut s = names.display(&h.0[0]);
    s.append(" --");
    let p = names.display(&h.0[1]);
    s.append(p.as_str());
    s.append("--> ");
    let o = names.display(&h.0[2]);
    s.append(o.as_str());
    s.append("   [conf ");
    let c = fixed_to_text(&h.1.conf, 2);
    s.append(c.as_str());
    s.append(", prov ");
    let items = h.1.prov.items();
    let sources = join(items, ",");
    assert(texts(items@) =~= models(items@));
    s.append(sources.as_str());
    s.append("]\n");
    s
}

fn hits_about(engine: &Engine, name: &str) -> (r: Vec<Hit>)
    requires
        engine_wf(engine@),
    ensures
        hits_view(r@) == facts_about(engine@, name@),
        forall|i: int| 0 <= i < r@.len() ==> (#[trigger] r@[i]).0@.len() == 3,
{
    match engine.store.interner.lookup(name) {
        Some(x) => {
            let mut pattern: Vec<Option<Value>> = Vec::new();
            pattern.push(Some(Value::Sym(x)));
            pattern.push(None);
            pattern.push(None);
            let hits = engine.query("current", &pattern);
            proof {
                assert(pattern@ =~= seq![Some(Value::Sym(x)), None, None]);
                assert(hits_view(hits@).len() == hits@.len());
                assert forall|i: int| 0 <= i < hits@.len() implies (#[trigger] hits@[i]).0@.len() == 3 by {
                    lemma_hit_len(engine@.st, "current"@, pattern@, i);
                    assert(hits_view(hits@)[i].0 == hits@[i].0@);
                }
            }
            hits
        },
        None => {
            let none: Vec<Hit> = Vec::new();
            assert(hits_view(none@) =~= Seq::empty());
            none
        },
    }
}

fn gather(engine: &Engine, entities: &Vec<String>) -> (r: Vec<Hit>)
    requires
        engine_wf(engine@),
    ensures
        hits_view(r@) == highest_first(relevant(engine@, texts(entities@), entities@.len() as int)),
        forall|i: int| 0 <= i < r@.len() ==> (#[trigger] r@[i]).0@.len() == 3,
{
    let ghost names = texts(entities@);
    let mut all: Vec<Hit> = Vec::new();
    let mut i: usize = 0;
    assert(hits_view(all@) =~= Seq::empty());
    while i < entities.len()
        invariant
            i <= entities@.len(),
            names == texts(entities@),
            engine_wf(engine@),
            hits_view(all@) == relevant(engine@, names, i as int),
            forall|k: int| 0 <= k < all@.len() ==> (#[trigger] all@[k]).0@.len() == 3,
        decreases entities@.len() - i,
    {
        assert(names[i as int] == entities@[i as int]@);
        let hits = hits_about(engine, entities[i].as_str());
        let ghost before = hits_view(all@);
        let ghost q = facts_about(engine@, names[i as int]);
        assert(hits_view(hits@).len() == hits@.len());
        let mut j: usize = 0;
        assert(before + q.take(0) =~= before);
        while j < hits.len()
            invariant
                j <= hits@.len(),
                q == hits_view(hits@),
                q.len() == hits@.len(),
                hits_view(all@) == before + q.take(j as int),
                forall|k: int| 0 <= k < hits@.len() ==> (#[trigger] hits@[k]).0@.len() == 3,
                forall|k: int| 0 <= k < all@.len() ==> (#[trigger] all@[k]).0@.len() == 3,
            decreases hits@.len() - j,
        {
            let ghost have = hits_view(all@);
            proof {
                assert(q[j as int] == (hits@[j as int].0@, hits@[j as int].1@));
                assert(before + q.take(j + 1) =~= (before + q.take(j as int)).push(q[j as int]));
            }
            all.push((copy_key(&hits[j].0), hits[j].1.duplicate()));
            assert(hits_view(all@) =~= have.push(q[j as int]));
            j += 1;
        }
        assert(q.take(q.len() as int) =~= q);
        i += 1;
    }
    let ghost av = hits_view(all@);
    let mut sorted: Vec<Hit> = Vec::new();
    let mut k: usize = 0;
    assert(av.take(0) =~= Seq::empty());
    assert(hits_view(sorted@) =~= Seq::empty());
    while k < all.len()
        invariant
            k <= all@.len(),
            av == hits_view(all@),
            hits_view(sorted@) == highest_first(av.take(k as int)),
            forall|x: int| 0 <= x < all@.len() ==> (#[trigger] all@[x]).0@.len() == 3,
            forall|x: int| 0 <= x < hits_view(sorted@).len() ==> (#[trigger] hits_view(sorted@)[x]).0.len() == 3,
        decreases all@.len() - k,
    {
        let ghost have = hits_view(sorted@);
        let x = (copy_key(&all[k].0), all[k].1.duplicate());
        let ghost xv = (x.0@, x.1@);
        proof {
            assert(av[k as int] == xv);
            assert(av.take(k + 1).drop_last() =~= av.take(k as int));
            assert(av.take(k + 1).last() == xv);
            lemma_placed_len(have, xv);
        }
        push_sorted(&mut sorted, x);
        k += 1;
    }
    proof {
        assert(av.take(av.len() as int) =~= av);
        assert forall|x: int| 0 <= x < sorted@.len() implies (#[trigger] sorted@[x]).0@.len() == 3 by {
            assert(hits_view(sorted@)[x].0 == sorted@[x].0@);
        }
    }
    sorted
}

proof fn lemma_placed_len(s: Seq<HitV>, x: HitV)
    requires
        x.0.len() == 3,
        forall|i: int| 0 <= i < s.len() ==> (#[trigger] s[i]).0.len() == 3,
    ensures
        forall|i: int| 0 <= i < placed(s, x).len() ==> (#[trigger] placed(s, x)[i]).0.len() == 3,
    decreases s.len(),
{
    if s.len() == 0 || !conf_above(x.1.conf, s.last().1.conf) {
        assert(placed(s, x) == s.push(x));
    } else {
        let d = s.drop_last();
        assert forall|i: int| 0 <= i < d.len() implies (#[trigger] d[i]).0.len() == 3 by {
            assert(d[i] == s[i]);
        }
        lemma_placed_len(d, x);
        assert(s.last() == s[s.len() - 1]);
        assert(placed(s, x) == placed(d, x).push(s.last()));
        assert forall|i: int| 0 <= i < placed(s, x).len() implies (#[trigger] placed(s, x)[i]).0.len() == 3 by {
            if i < placed(d, x).len() {
                assert(placed(s, x)[i] == placed(d, x)[i]);
            }
        }
    }
}

/// Assembles the context window.
pub fn assemble_context(
    engine: &Engine,
    episodes: &Vec<Episode>,
    entities: &Vec<String>,
    budget_tokens: usize,
    news: &Vec<String>,
) -> (r: String)
    requires
        engine_wf(engine@),
    ensures
        r@ == context_text(engine@, episodes_view(episodes@), texts(entities@), budget_tokens as nat, texts(news@)),
{
    assemble_citing(engine, episodes, entities, budget_tokens, news, SortedSet::new())
}

/// Assembles the context window, with some episodes counted as sources from
/// the start.
pub fn assemble_citing(
    engine: &Engine,
    episodes: &Vec<Episode>,
    entities: &Vec<String>,
    budget_tokens: usize,
    news: &Vec<String>,
    cited: SortedSet<String>,
) -> (r: String)
    requires
        engine_wf(engine@),
    ensures
        r@ == citing_text(engine@, episodes_view(episodes@), texts(entities@), budget_tokens as nat, texts(news@), cited@),
{
    let hits = gather(engine, entities);
    let ghost hv = hits_view(hits@);
    let ghost names = engine@.st.names;
    let distilled_budget: u128 = budget_tokens as u128 * 4 * 6 / 10;
    let mut text = String::new();
    let mut used: SortedSet<String> = cited;
    let ghost want = distilled(names, hv, distilled_budget as nat, 0, Seq::empty(), used@);
    let mut i: usize = 0;
    let mut full = false;
    while i < hits.len() && !full
        invariant
            i <= hits@.len(),
            hv == hits_view(hits@),
            names == engine@.st.names,
            forall|x: int| 0 <= x < hits@.len() ==> (#[trigger] hits@[x]).0@.len() == 3,
            full ==> want == (text@, used@),
            !full ==> want == distilled(names, hv, distilled_budget as nat, i as int, text@, used@),
        decreases hits@.len() - i + (if full { 0int } else { 1int }),
    {
        assert(hv[i as int] == (hits@[i as int].0@, hits@[i as int].1@));
        let line = write_hit(engine, &hits[i]);
        if count_bytes(text.as_str()) + count_bytes(line.as_str()) > distilled_budget {
            full = true;
        } else {
            text.append(line.as_str());
            used.union_with(&hits[i].1.prov);
            i += 1;
        }
    }
    assert(want == (text@, used@));
    let ghost ev = episodes_view(episodes@);
    let source_budget: u128 = budget_tokens as u128 * 4 * 4 / 10;
    let ghost want2 = verbatim(ev, used@, source_budget as nat, 0, Seq::empty());
    let mut sources = String::new();
    let mut j: usize = 0;
    let mut full = false;
    while j < episodes.len() && !full
        invariant
            j <= episodes@.len(),
            ev == episodes_view(episodes@),
            full ==> want2 == sources@,
            !full ==> want2 == verbatim(ev, used@, source_budget as nat, j as int, sources@),
        decreases episodes@.len() - j + (if full { 0int } else { 1int }),
    {
        assert(ev[j as int] == episodes@[j as int]@);
        if used.contains(&episodes[j].id) {
            let mut block = "[".to_owned();
            block.append(episodes[j].id.as_str());
            block.append("] ");
            block.append(episodes[j].text.as_str());
            block.append("\n");
            if count_bytes(sources.as_str()) + count_bytes(block.as_str()) > source_budget {
                full = true;
            } else {
                sources.append(block.as_str());
                j += 1;
            }
        } else {
            j += 1;
        }
    }
    let mut out = String::new();
    let ghost nv = texts(news@);
    if news.len() > 0 {
        out.append("== new in memory since last turn ==\n");
        let lines = end_lines(news);
        out.append(lines.as_str());
        out.append("\n");
    }
    proof {
        assert(out@ =~= news_section(nv));
    }
    out.append("== memory (distilled, highest confidence first) ==\n");
    out.append(text.as_str());
    out.append("\n== source episodes (verbatim, from provenance) ==\n");
    out.append(sources.as_str());
    out
}

// --------------------------------------------------------- plain questions

/// A text with the letters from `A` to `Z` in their small form.
pub open spec fn small(s: Seq<char>) -> Seq<char> {
    s.map_values(|c: char| lower_ascii(c))
}

/// The name stands in the text, in capital or small letters.
pub open spec fn mentions(text: Seq<char>, name: Seq<char>) -> bool {
    name.len() > 0 && find_from(small(text), small(name), 0) is Some
}

/// An episode with the id speaks of one of the names.
pub open spec fn speaks_of(eps: Seq<EpisodeV>, named: Seq<Seq<char>>, id: Seq<char>) -> bool {
    exists|i: int, j: int|
        0 <= i < eps.len() && 0 <= j < named.len() && eps[i].id == id && mentions(#[trigger] eps[i].text, #[trigger] named[j])
}

/// The episodes that speak of the entities that a query names.
pub open spec fn cited_in(e: EngineV, eps: Seq<EpisodeV>, query: Seq<char>) -> Set<Seq<char>> {
    let named = mentioned(e.st.names, query, e.st.names.len() as int);
    Set::new(|id: Seq<char>| speaks_of(eps, named, id))
}

/// The context window for a query in plain words: the facts of the entities
/// that it names and of their neighbours, the episodes that those come from,
/// and the episodes that speak of the entities. Within the budget facts are
/// in order of their confidence and episodes in order of time.
pub open spec fn query_text(e: EngineV, eps: Seq<EpisodeV>, query: Seq<char>, budget_tokens: nat) -> Seq<char> {
    citing_text(e, eps, named_entities(e, query), budget_tokens, Seq::empty(), cited_in(e, eps, query))
}

/// The names among the first `n` that stand in the text.
pub open spec fn mentioned(names: Seq<Seq<char>>, query: Seq<char>, n: int) -> Seq<Seq<char>>
    decreases n,
{
    if n <= 0 {
        Seq::empty()
    } else if mentions(query, names[n - 1]) {
        mentioned(names, query, n - 1).push(names[n - 1])
    } else {
        mentioned(names, query, n - 1)
    }
}

/// A sequence with an element that it may have already.
pub open spec fn with_new(s: Seq<Seq<char>>, x: Seq<char>) -> Seq<Seq<char>> {
    if s.contains(x) {
        s
    } else {
        s.push(x)
    }
}

/// The objects of facts, from position `i` on, added to a sequence.
pub open spec fn with_objects(names: Seq<Seq<char>>, hits: Seq<HitV>, i: int, acc: Seq<Seq<char>>) -> Seq<Seq<char>>
    decreases hits.len() - i,
{
    if i < 0 || i >= hits.len() {
        acc
    } else if hits[i].0[2] is Sym {
        with_objects(names, hits, i + 1, with_new(acc, shown(names, hits[i].0[2])))
    } else {
        with_objects(names, hits, i + 1, acc)
    }
}

/// The neighbours of the entities from position `i` on, added to a sequence.
pub open spec fn with_neighbours(e: EngineV, named: Seq<Seq<char>>, i: int, acc: Seq<Seq<char>>) -> Seq<Seq<char>>
    decreases named.len() - i,
{
    if i < 0 || i >= named.len() {
        acc
    } else {
        with_neighbours(
            e,
            named,
            i + 1,
            with_objects(e.st.names, facts_about(e, named[i]), 0, acc),
        )
    }
}

/// The entities of a query: those that it names, and what their current facts
/// lead to.
pub open spec fn named_entities(e: EngineV, query: Seq<char>) -> Seq<Seq<char>> {
    let named = mentioned(e.st.names, query, e.st.names.len() as int);
    with_neighbours(e, named, 0, named)
}

/// Adds an element that may be there already.
pub fn push_new(v: &mut Vec<String>, x: String)
    ensures
        texts(final(v)@) == with_new(texts(old(v)@), x@),
{
    let ghost s = texts(v@);
    let n: usize = v.len();
    let mut i: usize = 0;
    while i < n
        invariant
            i <= n,
            n == v@.len(),
            v == old(v),
            s == texts(v@),
            forall|j: int| 0 <= j < i ==> #[trigger] s[j] != x@,
        decreases n - i,
    {
        assert(s[i as int] == v@[i as int]@);
        if v[i] == x {
            return;
        }
        i += 1;
    }
    let ghost xv = x@;
    v.push(x);
    assert(texts(v@) =~= s.push(xv));
}

fn small_chars(s: &str) -> (r: Vec<char>)
    ensures
        r@ == small(s@),
{
    let cs = to_chars(s);
    let mut r: Vec<char> = Vec::new();
    let mut i: usize = 0;
    while i < cs.len()
        invariant
            i <= cs@.len(),
            cs@ == s@,
            r@.len() == i,
            forall|j: int| 0 <= j < i ==> #[trigger] r@[j] == lower_ascii(s@[j]),
        decreases cs@.len() - i,
    {
        r.push(lower(cs[i]));
        i += 1;
    }
    assert(r@ =~= small(s@));
    r
}

/// Whether a text, in small letters, mentions a name.
fn is_mentioned(text: &Vec<char>, name: &str) -> (r: bool)
    ensures
        forall|t: Seq<char>| #[trigger] small(t) == text@ ==> r == mentions(t, name@),
{
    let p = small_chars(name);
    if p.len() == 0 {
        return false;
    }
    find_chars(text, &p).is_some()
}

/// The names among the symbols that stand in a query.
pub fn names_in_query(engine: &Engine, query: &str) -> (r: Vec<String>)
    ensures
        texts(r@) == mentioned(engine@.st.names, query@, engine@.st.names.len() as int),
{
    let ghost names = engine@.st.names;
    let q = small_chars(query);
    let mut named: Vec<String> = Vec::new();
    let n: usize = engine.store.interner.len();
    let mut i: usize = 0;
    assert(texts(named@) =~= Seq::empty());
    while i < n
        invariant
            i <= n,
            n == names.len(),
            names == engine@.st.names,
            q@ == small(query@),
            texts(named@) == mentioned(names, query@, i as int),
        decreases n - i,
    {
        let ghost before = texts(named@);
        let name = engine.store.interner.resolve(crate::value::Sym(i));
        if is_mentioned(&q, name) {
            named.push(name.to_owned());
            assert(texts(named@) =~= before.push(name@));
        }
        i += 1;
    }
    named
}

/// The episodes that speak of the entities that a query names.
pub fn episodes_on_query(engine: &Engine, episodes: &Vec<Episode>, query: &str) -> (r: SortedSet<String>)
    ensures
        r@ == cited_in(engine@, episodes_view(episodes@), query@),
{
    let ghost ev = episodes_view(episodes@);
    let named = names_in_query(engine, query);
    let ghost nv = texts(named@);
    let mut r: SortedSet<String> = SortedSet::new();
    let mut i: usize = 0;
    while i < episodes.len()
        invariant
            i <= episodes@.len(),
            ev == episodes_view(episodes@),
            nv == texts(named@),
            forall|id: Seq<char>| #[trigger] r@.contains(id) <==> speaks_of(ev.take(i as int), nv, id),
        decreases episodes@.len() - i,
    {
        let ghost done = r@;
        assert(ev[i as int] == episodes@[i as int]@);
        let text = small_chars(episodes[i].text.as_str());
        let mut hit = false;
        let mut j: usize = 0;
        while j < named.len() && !hit
            invariant
                i < episodes@.len(),
                ev == episodes_view(episodes@),
                ev[i as int] == episodes@[i as int]@,
                text@ == small(ev[i as int].text),
                j <= named@.len(),
                nv == texts(named@),
                hit ==> exists|x: int| 0 <= x < nv.len() && mentions(ev[i as int].text, #[trigger] nv[x]),
                !hit ==> forall|x: int| 0 <= x < j ==> !mentions(ev[i as int].text, #[trigger] nv[x]),
            decreases named@.len() - j + (if hit { 0int } else { 1int }),
        {
            assert(nv[j as int] == named@[j as int]@);
            if is_mentioned(&text, named[j].as_str()) {
                hit = true;
            } else {
                j += 1;
            }
        }
        if hit {
            r.insert(episodes[i].id.clone());
        }
        proof {
            let before = ev.take(i as int);
            let after = ev.take(i + 1);
            assert forall|id: Seq<char>| #[trigger] r@.contains(id) <==> speaks_of(after, nv, id) by {
                if speaks_of(before, nv, id) {
                    let (x, y) = choose|x: int, y: int|
                        0 <= x < before.len() && 0 <= y < nv.len() && before[x].id == id && mentions(
                            #[trigger] before[x].text,
                            #[trigger] nv[y],
                        );
                    assert(after[x] == before[x]);
                    assert(mentions(after[x].text, nv[y]));
                }
                if hit && id == ev[i as int].id {
                    let y = choose|y: int| 0 <= y < nv.len() && mentions(ev[i as int].text, #[trigger] nv[y]);
                    assert(after[i as int] == ev[i as int]);
                    assert(mentions(after[i as int].text, nv[y]));
                }
                if speaks_of(after, nv, id) {
                    let (x, y) = choose|x: int, y: int|
                        0 <= x < after.len() && 0 <= y < nv.len() && after[x].id == id && mentions(
                            #[trigger] after[x].text,
                            #[trigger] nv[y],
                        );
                    if x < i {
                        assert(before[x] == after[x]);
                        assert(mentions(before[x].text, nv[y]));
                        assert(speaks_of(before, nv, id));
                    } else {
                        assert(hit);
                    }
                }
            }
        }
        i += 1;
    }
    assert(ev.take(ev.len() as int) =~= ev);
    assert(r@ =~= cited_in(engine@, ev, query@));
    r
}

/// The entities of a query.
pub fn entities_in_query(engine: &Engine, query: &str) -> (r: Vec<String>)
    requires
        engine_wf(engine@),
    ensures
        texts(r@) == named_entities(engine@, query@),
{
    let ghost e = engine@;
    let ghost names = e.st.names;
    let named = names_in_query(engine, query);
    let mut acc = names_in_query(engine, query);
    let ghost nv = texts(named@);
    let mut k: usize = 0;
    while k < named.len()
        invariant
            k <= named@.len(),
            nv == texts(named@),
            e == engine@,
            names == e.st.names,
            engine_wf(e),
            with_neighbours(e, nv, 0, nv) == with_neighbours(e, nv, k as int, texts(acc@)),
        decreases named@.len() - k,
    {
        assert(nv[k as int] == named@[k as int]@);
        let hits = hits_about(engine, named[k].as_str());
        let ghost hv = facts_about(e, nv[k as int]);
        assert(hits_view(hits@).len() == hits@.len());
        let ghost want = with_objects(names, hv, 0, texts(acc@));
        let mut j: usize = 0;
        while j < hits.len()
            invariant
                j <= hits@.len(),
                e == engine@,
                names == e.st.names,
                hv == hits_view(hits@),
                hv.len() == hits@.len(),
                forall|x: int| 0 <= x < hits@.len() ==> (#[trigger] hits@[x]).0@.len() == 3,
                want == with_objects(names, hv, j as int, texts(acc@)),
            decreases hits@.len() - j,
        {
            proof {
                assert(hv[j as int].0 == hits@[j as int].0@);
            }
            if let Value::Sym(_) = hits[j].0[2] {
                let o = engine.store.interner.display(&hits[j].0[2]);
                push_new(&mut acc, o);
            }
            j += 1;
        }
        k += 1;
    }
    acc
}

/// Bytes add up.
proof fn lemma_bytes_add(a: Seq<char>, b: Seq<char>)
    ensures
        byte_length(a + b) == byte_length(a) + byte_length(b),
    decreases b.len(),
{
    if b.len() == 0 {
        assert(a + b =~= a);
    } else {
        assert((a + b).drop_last() =~= a + b.drop_last());
        lemma_bytes_add(a, b.drop_last());
    }
}

proof fn lemma_distilled_fits(
    names: Seq<Seq<char>>,
    hits: Seq<HitV>,
    budget: nat,
    i: int,
    out: Seq<char>,
    used: Set<Seq<char>>,
)
    requires
        byte_length(out) <= budget,
    ensures
        byte_length(distilled(names, hits, budget, i, out, used).0) <= budget,
    decreases hits.len() - i,
{
    if 0 <= i < hits.len() {
        let line = hit_line(names, hits[i]);
        if byte_length(out) + byte_length(line) <= budget {
            lemma_bytes_add(out, line);
            lemma_distilled_fits(names, hits, budget, i + 1, out + line, used.union(hits[i].1.prov));
        }
    }
}

proof fn lemma_verbatim_fits(eps: Seq<EpisodeV>, used: Set<Seq<char>>, budget: nat, i: int, out: Seq<char>)
    requires
        byte_length(out) <= budget,
    ensures
        byte_length(verbatim(eps, used, budget, i, out)) <= budget,
    decreases eps.len() - i,
{
    if 0 <= i < eps.len() {
        if !used.contains(eps[i].id) {
            lemma_verbatim_fits(eps, used, budget, i + 1, out);
        } else if byte_length(out) + byte_length(episode_block(eps[i])) <= budget {
            lemma_bytes_add(out, episode_block(eps[i]));
            lemma_verbatim_fits(eps, used, budget, i + 1, out + episode_block(eps[i]));
        }
    }
}

/// Law: the context keeps to its budget. Of four bytes to a token the facts
/// take at most six tenths and the episodes at most four.
pub proof fn context_fits(e: EngineV, eps: Seq<EpisodeV>, entities: Seq<Seq<char>>, budget_tokens: nat, cited: Set<Seq<char>>)
    ensures
        ({
            let hits = highest_first(relevant(e, entities, entities.len() as int));
            let d = distilled(e.st.names, hits, budget_tokens * 4 * 6 / 10, 0, Seq::empty(), cited);
            let s = verbatim(eps, d.1, budget_tokens * 4 * 4 / 10, 0, Seq::empty());
            &&& byte_length(d.0) <= budget_tokens * 4 * 6 / 10
            &&& byte_length(s) <= budget_tokens * 4 * 4 / 10
            &&& byte_length(d.0 + s) <= budget_tokens * 4
        }),
{
    let hits = highest_first(relevant(e, entities, entities.len() as int));
    let d = distilled(e.st.names, hits, budget_tokens * 4 * 6 / 10, 0, Seq::empty(), cited);
    lemma_distilled_fits(e.st.names, hits, budget_tokens * 4 * 6 / 10, 0, Seq::empty(), cited);
    lemma_verbatim_fits(eps, d.1, budget_tokens * 4 * 4 / 10, 0, Seq::empty());
    let s = verbatim(eps, d.1, budget_tokens * 4 * 4 / 10, 0, Seq::empty());
    lemma_bytes_add(d.0, s);
}

/// Law: the facts are listed in order, as many as fit: all of them, or those
/// before one that would exceed the budget. Every source of a fact that is
/// listed counts as used, and nothing else does.
pub proof fn sources_are_used(
    names: Seq<Seq<char>>,
    hits: Seq<HitV>,
    budget: nat,
    i: int,
    out: Seq<char>,
    used: Set<Seq<char>>,
) -> (n: int)
    requires
        0 <= i <= hits.len(),
    ensures
        i <= n <= hits.len(),
        distilled(names, hits, budget, i, out, used).0 == out + hit_lines(names, hits, i, n),
        n < hits.len() ==> byte_length(out + hit_lines(names, hits, i, n)) + byte_length(hit_line(names, hits[n])) > budget,
        forall|p: Seq<char>| #[trigger]
            distilled(names, hits, budget, i, out, used).1.contains(p) <==> used.contains(p) || is_source(hits, i, n, p),
    decreases hits.len() - i,
{
    if i < hits.len() {
        let line = hit_line(names, hits[i]);
        if byte_length(out) + byte_length(line) > budget {
            assert(out + hit_lines(names, hits, i, i) =~= out);
            i
        } else {
            let n = sources_are_used(names, hits, budget, i + 1, out + line, used.union(hits[i].1.prov));
            assert((out + line) + hit_lines(names, hits, i + 1, n) =~= out + (line + hit_lines(names, hits, i + 1, n)));
            assert forall|p: Seq<char>| is_source(hits, i, n, p) <==> hits[i].1.prov.contains(p) || is_source(hits, i + 1, n, p) by {
                if is_source(hits, i, n, p) {
                    let j = choose|j: int| i <= j < n && (#[trigger] hits[j]).1.prov.contains(p);
                    if j > i {
                        assert(is_source(hits, i + 1, n, p));
                    }
                }
                if is_source(hits, i + 1, n, p) {
                    let j = choose|j: int| i + 1 <= j < n && (#[trigger] hits[j]).1.prov.contains(p);
                    assert(hits[j].1.prov.contains(p));
                }
            }
            n
        }
    } else {
        assert(out + hit_lines(names, hits, i, i) =~= out);
        i
    }
}

/// The lines of facts in a range.
pub open spec fn hit_lines(names: Seq<Seq<char>>, hits: Seq<HitV>, i: int, n: int) -> Seq<char>
    decreases n - i,
{
    if i >= n {
        Seq::empty()
    } else {
        hit_line(names, hits[i]) + hit_lines(names, hits, i + 1, n)
    }
}

/// An episode is a source of a fact in a range.
pub open spec fn is_source(hits: Seq<HitV>, i: int, n: int, p: Seq<char>) -> bool {
    exists|j: int| i <= j < n && (#[trigger] hits[j]).1.prov.contains(p)
}

} // verus!
