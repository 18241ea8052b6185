//! Context windows: a query brings in the entities that it names and what is
//! next to them, and a window lists their facts and sources as far as its
//! budget goes.

use vstd::prelude::*;
use crate::context::{
    cited_in, citing_text, distilled, episode_block, facts_about, highest_first, highest_first_sorts, hit_line, hit_lines, is_source,
    mentioned, mentions, named_entities, news_section, relevant, small, sources_are_used, verbatim, with_neighbours, with_new,
    with_objects, HitV,
};
use crate::decimal::lower_ascii;
use crate::engine::EngineV;
use crate::extract::EpisodeV;
use crate::intern::{shown, symbol_of};
use crate::notes::note;
use crate::query::rows_for;
use crate::relation::{fits_fully, has_key, lemma_lookup, row_of};
use crate::scan::{byte_length, find_from, stands_at};
use crate::store::{holds, rels_wf, StoreV};
use crate::text::joined;
use crate::value::{Sym, Value};

verus! {

// ------------------------------------------------------------------- mentions

/// Two characters are the same letter, in capital or small form.
pub open spec fn same_letter(a: char, b: char) -> bool {
    ||| a == b
    ||| 'A' <= a && a <= 'Z' && a as u32 + 32 == b as u32
    ||| 'A' <= b && b <= 'Z' && b as u32 + 32 == a as u32
}

/// A name stands somewhere in a text, in capital or small letters.
pub open spec fn is_named(text: Seq<char>, name: Seq<char>) -> bool {
    name.len() > 0 && exists|p: int| #[trigger] named_at(text, name, p)
}

/// A name stands at a position of a text, in capital or small letters.
pub open spec fn named_at(text: Seq<char>, name: Seq<char>, p: int) -> bool {
    0 <= p && p + name.len() <= text.len() && forall|j: int| 0 <= j < name.len() ==> same_letter(#[trigger] text[p + j], name[j])
}

proof fn lemma_same_letter(a: char, b: char)
    ensures
        same_letter(a, b) <==> lower_ascii(a) == lower_ascii(b),
{
    let x = a as u32;
    let y = b as u32;
    if 'A' <= a && a <= 'Z' {
        assert(((x + 32) as char) as u32 == x + 32);
    }
    if 'A' <= b && b <= 'Z' {
        assert(((y + 32) as char) as u32 == y + 32);
    }
}

proof fn lemma_find(s: Seq<char>, p: Seq<char>, i: int)
    requires
        0 <= i,
    ensures
        find_from(s, p, i) is Some <==> exists|j: int| i <= j <= s.len() && #[trigger] stands_at(s, p, j),
    decreases s.len() + 1 - i,
{
    if i <= s.len() && !stands_at(s, p, i) {
        lemma_find(s, p, i + 1);
        if exists|j: int| i <= j <= s.len() && #[trigger] stands_at(s, p, j) {
            let j = choose|j: int| i <= j <= s.len() && #[trigger] stands_at(s, p, j);
            assert(i + 1 <= j && stands_at(s, p, j));
        }
    }
}

proof fn lemma_mentions(text: Seq<char>, name: Seq<char>)
    ensures
        mentions(text, name) <==> is_named(text, name),
{
    lemma_find(small(text), small(name), 0);
    assert forall|p: int| 0 <= p implies (#[trigger] stands_at(small(text), small(name), p) <==> named_at(text, name, p)) by {
        if p + name.len() <= text.len() {
            let part = small(text).subrange(p, p + name.len());
            if stands_at(small(text), small(name), p) {
                assert forall|j: int| 0 <= j < name.len() implies same_letter(#[trigger] text[p + j], name[j]) by {
                    assert(part[j] == lower_ascii(text[p + j]));
                    assert(small(name)[j] == lower_ascii(name[j]));
                    lemma_same_letter(text[p + j], name[j]);
                }
            }
            if named_at(text, name, p) {
                assert forall|j: int| 0 <= j < name.len() implies part[j] == small(name)[j] by {
                    lemma_same_letter(text[p + j], name[j]);
                }
                assert(part =~= small(name));
            }
        }
    }
    if mentions(text, name) {
        let j = choose|j: int| 0 <= j <= small(text).len() && #[trigger] stands_at(small(text), small(name), j);
        assert(named_at(text, name, j));
    }
    if is_named(text, name) {
        let p = choose|p: int| #[trigger] named_at(text, name, p);
        assert(stands_at(small(text), small(name), p));
    }
}

proof fn lemma_mentioned(names: Seq<Seq<char>>, query: Seq<char>, n: int, x: Seq<char>)
    requires
        0 <= n <= names.len(),
    ensures
        mentioned(names, query, n).contains(x) <==> exists|i: int| 0 <= i < n && #[trigger] names[i] == x && is_named(query, x),
    decreases n,
{
    if n > 0 {
        let before = mentioned(names, query, n - 1);
        let now = mentioned(names, query, n);
        lemma_mentioned(names, query, n - 1, x);
        lemma_mentions(query, names[n - 1]);
        if now.contains(x) {
            let j = choose|j: int| 0 <= j < now.len() && now[j] == x;
            if j < before.len() {
                assert(before[j] == x);
            } else {
                assert(names[n - 1] == x);
            }
        }
        if exists|i: int| 0 <= i < n && #[trigger] names[i] == x && is_named(query, x) {
            let i = choose|i: int| 0 <= i < n && #[trigger] names[i] == x && is_named(query, x);
            if i < n - 1 {
                assert(before.contains(x));
                let j = choose|j: int| 0 <= j < before.len() && before[j] == x;
                assert(now[j] == x);
            } else {
                assert(now[before.len() as int] == x);
            }
        }
    } else {
        assert(mentioned(names, query, n).len() == 0);
    }
}

// ----------------------------------------------------------------- neighbours

/// A stored fact of what is true now, about the entity with a name.
pub open spec fn current_of(st: StoreV, name: Seq<char>, k: Seq<Value>) -> bool {
    &&& holds(st.rels, ("current"@, k))
    &&& k.len() == 3
    &&& exists|i: int| 0 <= i < st.names.len() && #[trigger] st.names[i] == name && k[0] == Value::Sym(Sym(i as usize))
}

/// What is true now is stated of a subject, a relation and an object.
pub open spec fn currents_formed(st: StoreV) -> bool {
    forall|k: Seq<Value>| #[trigger] holds(st.rels, ("current"@, k)) ==> k.len() == 3
}

/// The store can be read: names are distinct and their symbols are numbers.
pub open spec fn is_readable(st: StoreV) -> bool {
    rels_wf(st.rels) && st.names.no_duplicates() && st.names.len() <= usize::MAX && currents_formed(st)
}

/// The current facts of an entity are found, each with its note.
proof fn lemma_about(e: EngineV, name: Seq<char>, h: HitV)
    requires
        is_readable(e.st),
    ensures
        facts_about(e, name).contains(h) <==> current_of(e.st, name, h.0) && h.1 == note(e.st.rels, ("current"@, h.0)),
{
    let st = e.st;
    let q = facts_about(e, name);
    match symbol_of(st.names, name) {
        Some(x) => {
            let at = st.names.index_of(name);
            assert(st.names[at] == name);
            let pat = seq![Some(Value::Sym(x)), None, None];
            assert(pat[0] is Some);
            if st.rels.contains_key("current"@) {
                let r = st.rels["current"@];
                let ids = rows_for(r, pat);
                lemma_lookup(r, pat);
                assert forall|j: int| 0 <= j < ids.len() implies 0 <= #[trigger] ids[j] < r.rows.len() && r.rows[ids[j]].key.len() == 3
                    && r.rows[ids[j]].key[0] == Value::Sym(x) by {
                    assert(ids.contains(ids[j]));
                    assert(has_key(r, r.rows[ids[j]].key));
                    assert(holds(st.rels, ("current"@, r.rows[ids[j]].key)));
                    assert(pat[0] == Some(r.rows[ids[j]].key[0]));
                }
                if q.contains(h) {
                    let j = choose|j: int| 0 <= j < q.len() && q[j] == h;
                    assert(h.0 == r.rows[ids[j]].key && h.1 == r.rows[ids[j]].fact.ann);
                    assert(has_key(r, h.0));
                    let y = row_of(r, h.0);
                    assert(r.rows[y].key == h.0);
                    assert(y == ids[j]);
                }
                if current_of(st, name, h.0) && h.1 == note(st.rels, ("current"@, h.0)) {
                    let i = choose|i: int| 0 <= i < st.names.len() && #[trigger] st.names[i] == name && h.0[0] == Value::Sym(Sym(i as usize));
                    assert(i == at);
                    assert(has_key(r, h.0));
                    let y = row_of(r, h.0);
                    assert(r.rows[y].key == h.0);
                    assert(fits_fully(pat, r.rows[y].key)) by {
                        assert forall|z: int| 0 <= z < pat.len() && (#[trigger] pat[z]) is Some implies z < h.0.len() && pat[z] == Some(h.0[z]) by {}
                    }
                    assert(ids.contains(y));
                    let j = choose|j: int| 0 <= j < ids.len() && ids[j] == y;
                    assert(q[j] == h);
                }
            } else {
                assert(q.len() == 0);
            }
        },
        None => {
            assert(q.len() == 0);
            if current_of(st, name, h.0) {
                let i = choose|i: int| 0 <= i < st.names.len() && #[trigger] st.names[i] == name && h.0[0] == Value::Sym(Sym(i as usize));
                assert(st.names.contains(name));
            }
        },
    }
}

proof fn lemma_with_new(s: Seq<Seq<char>>, x: Seq<char>, y: Seq<char>)
    ensures
        with_new(s, x).contains(y) <==> s.contains(y) || x == y,
{
    if s.contains(y) {
        let j = choose|j: int| 0 <= j < s.len() && s[j] == y;
        assert(with_new(s, x)[j] == y);
    }
    if !s.contains(x) {
        assert(s.push(x)[s.len() as int] == x);
        if s.push(x).contains(y) {
            let j = choose|j: int| 0 <= j < s.push(x).len() && s.push(x)[j] == y;
            if j < s.len() {
                assert(s[j] == y);
            }
        }
    }
}

/// The object of a fact is a symbol with a name.
spec fn leads_to(names: Seq<Seq<char>>, h: HitV, y: Seq<char>) -> bool {
    h.0[2] is Sym && shown(names, h.0[2]) == y
}

proof fn lemma_with_objects(names: Seq<Seq<char>>, hits: Seq<HitV>, i: int, acc: Seq<Seq<char>>, y: Seq<char>)
    requires
        0 <= i <= hits.len(),
    ensures
        with_objects(names, hits, i, acc).contains(y) <==> acc.contains(y) || exists|j: int|
            i <= j < hits.len() && leads_to(names, #[trigger] hits[j], y),
    decreases hits.len() - i,
{
    if i < hits.len() {
        let next = if hits[i].0[2] is Sym {
            with_new(acc, shown(names, hits[i].0[2]))
        } else {
            acc
        };
        if hits[i].0[2] is Sym {
            lemma_with_new(acc, shown(names, hits[i].0[2]), y);
        }
        lemma_with_objects(names, hits, i + 1, next, y);
        if exists|j: int| i <= j < hits.len() && leads_to(names, #[trigger] hits[j], y) {
            let j = choose|j: int| i <= j < hits.len() && leads_to(names, #[trigger] hits[j], y);
            if j > i {
                assert(i + 1 <= j && leads_to(names, hits[j], y));
            }
        }
    }
}

proof fn lemma_with_neighbours(e: EngineV, named: Seq<Seq<char>>, i: int, acc: Seq<Seq<char>>, y: Seq<char>)
    requires
        0 <= i <= named.len(),
        is_readable(e.st),
    ensures
        with_neighbours(e, named, i, acc).contains(y) <==> acc.contains(y) || exists|j: int, k: Seq<Value>|
            i <= j < named.len() && #[trigger] current_of(e.st, named[j], k) && k[2] is Sym && shown(e.st.names, k[2]) == y,
    decreases named.len() - i,
{
    if i < named.len() {
        let hits = facts_about(e, named[i]);
        let next = with_objects(e.st.names, hits, 0, acc);
        lemma_with_objects(e.st.names, hits, 0, acc, y);
        lemma_with_neighbours(e, named, i + 1, next, y);
        if exists|x: int| 0 <= x < hits.len() && leads_to(e.st.names, #[trigger] hits[x], y) {
            let x = choose|x: int| 0 <= x < hits.len() && leads_to(e.st.names, #[trigger] hits[x], y);
            lemma_about(e, named[i], hits[x]);
            assert(hits.contains(hits[x]));
            assert(current_of(e.st, named[i], hits[x].0));
        }
        if exists|j: int, k: Seq<Value>|
            i <= j < named.len() && #[trigger] current_of(e.st, named[j], k) && k[2] is Sym && shown(e.st.names, k[2]) == y {
            let (j, k) = choose|j: int, k: Seq<Value>|
                i <= j < named.len() && #[trigger] current_of(e.st, named[j], k) && k[2] is Sym && shown(e.st.names, k[2]) == y;
            if j == i {
                let h: HitV = (k, note(e.st.rels, ("current"@, k)));
                lemma_about(e, named[i], h);
                let x = choose|x: int| 0 <= x < hits.len() && hits[x] == h;
                assert(leads_to(e.st.names, hits[x], y));
            } else {
                assert(i + 1 <= j && current_of(e.st, named[j], k));
            }
        }
    }
}

/// Law: the entities of a query are all known names that stand in it, in
/// capital or small letters, and all names that a current fact of one of them
/// leads to; no others.
pub proof fn query_entities(e: EngineV, query: Seq<char>, y: Seq<char>)
    requires
        is_readable(e.st),
    ensures
        named_entities(e, query).contains(y) <==> {
            ||| e.st.names.contains(y) && is_named(query, y)
            ||| exists|x: Seq<char>, k: Seq<Value>|
                e.st.names.contains(x) && is_named(query, x) && #[trigger] current_of(e.st, x, k) && k[2] is Sym && shown(
                    e.st.names,
                    k[2],
                ) == y
        },
{
    let names = e.st.names;
    let named = mentioned(names, query, names.len() as int);
    lemma_with_neighbours(e, named, 0, named, y);
    assert forall|x: Seq<char>| #[trigger] named.contains(x) <==> names.contains(x) && is_named(query, x) by {
        lemma_mentioned(names, query, names.len() as int, x);
        if names.contains(x) && is_named(query, x) {
            let i = choose|i: int| 0 <= i < names.len() && names[i] == x;
            assert(names[i] == x);
        }
    }
    if exists|j: int, k: Seq<Value>|
        0 <= j < named.len() && #[trigger] current_of(e.st, named[j], k) && k[2] is Sym && shown(names, k[2]) == y {
        let (j, k) = choose|j: int, k: Seq<Value>|
            0 <= j < named.len() && #[trigger] current_of(e.st, named[j], k) && k[2] is Sym && shown(names, k[2]) == y;
        assert(named.contains(named[j]));
        assert(current_of(e.st, named[j], k));
    }
    if exists|x: Seq<char>, k: Seq<Value>|
        names.contains(x) && is_named(query, x) && #[trigger] current_of(e.st, x, k) && k[2] is Sym && shown(names, k[2]) == y {
        let (x, k) = choose|x: Seq<char>, k: Seq<Value>|
            names.contains(x) && is_named(query, x) && #[trigger] current_of(e.st, x, k) && k[2] is Sym && shown(names, k[2]) == y;
        assert(named.contains(x));
        let j = choose|j: int| 0 <= j < named.len() && named[j] == x;
        assert(current_of(e.st, named[j], k));
    }
}

/// Law: the episodes that a query brings in by itself are those that speak of
/// a known name that stands in the query.
pub proof fn query_episodes(e: EngineV, eps: Seq<EpisodeV>, query: Seq<char>, id: Seq<char>)
    ensures
        cited_in(e, eps, query).contains(id) <==> exists|i: int, x: Seq<char>|
            0 <= i < eps.len() && eps[i].id == id && e.st.names.contains(x) && is_named(query, x) && #[trigger] is_named(eps[i].text, x),
{
    let names = e.st.names;
    let named = mentioned(names, query, names.len() as int);
    assert forall|x: Seq<char>| #[trigger] named.contains(x) <==> names.contains(x) && is_named(query, x) by {
        lemma_mentioned(names, query, names.len() as int, x);
        if names.contains(x) && is_named(query, x) {
            let i = choose|i: int| 0 <= i < names.len() && names[i] == x;
            assert(names[i] == x);
        }
    }
    assert forall|t: Seq<char>, x: Seq<char>| #[trigger] mentions(t, x) <==> is_named(t, x) by {
        lemma_mentions(t, x);
    }
    if cited_in(e, eps, query).contains(id) {
        let (i, j) = choose|i: int, j: int|
            0 <= i < eps.len() && 0 <= j < named.len() && eps[i].id == id && mentions(#[trigger] eps[i].text, #[trigger] named[j]);
        assert(named.contains(named[j]));
        assert(is_named(eps[i].text, named[j]));
    }
    if exists|i: int, x: Seq<char>|
        0 <= i < eps.len() && eps[i].id == id && names.contains(x) && is_named(query, x) && #[trigger] is_named(eps[i].text, x) {
        let (i, x) = choose|i: int, x: Seq<char>|
            0 <= i < eps.len() && eps[i].id == id && names.contains(x) && is_named(query, x) && #[trigger] is_named(eps[i].text, x);
        assert(named.contains(x));
        let j = choose|j: int| 0 <= j < named.len() && named[j] == x;
        assert(mentions(eps[i].text, named[j]));
    }
}

// --------------------------------------------------------------------- windows

/// A text holds another.
pub open spec fn has_text(s: Seq<char>, t: Seq<char>) -> bool {
    exists|p: int| 0 <= p && p + t.len() <= s.len() && #[trigger] s.subrange(p, p + t.len()) == t
}

pub proof fn lemma_has_text_add(a: Seq<char>, b: Seq<char>, t: Seq<char>)
    ensures
        has_text(a, t) ==> has_text(a + b, t),
        has_text(b, t) ==> has_text(a + b, t),
{
    if has_text(a, t) {
        let p = choose|p: int| 0 <= p && p + t.len() <= a.len() && #[trigger] a.subrange(p, p + t.len()) == t;
        assert((a + b).subrange(p, p + t.len()) =~= t);
    }
    if has_text(b, t) {
        let p = choose|p: int| 0 <= p && p + t.len() <= b.len() && #[trigger] b.subrange(p, p + t.len()) == t;
        assert((a + b).subrange(a.len() + p, a.len() + p + t.len()) =~= t);
    }
}

pub proof fn lemma_has_itself(t: Seq<char>)
    ensures
        has_text(t, t),
{
    assert(t.subrange(0, 0int + t.len()) =~= t);
}

/// A joined text holds each of its parts.
pub proof fn lemma_joined_has(parts: Seq<Seq<char>>, sep: Seq<char>, i: int)
    requires
        0 <= i < parts.len(),
    ensures
        has_text(joined(parts, sep), parts[i]),
    decreases parts.len(),
{
    let d = parts.drop_last();
    let l = parts.last();
    lemma_has_itself(parts[i]);
    if parts.len() > 1 {
        assert(joined(parts, sep) =~= (joined(d, sep) + sep) + l);
        if i < d.len() {
            assert(d[i] == parts[i]);
            lemma_joined_has(d, sep, i);
        }
        lemma_has_text_add(joined(d, sep), sep, parts[i]);
        lemma_has_text_add(joined(d, sep) + sep, l, parts[i]);
    } else {
        assert(joined(parts, sep) =~= parts[i]);
    }
}

proof fn lemma_relevant(e: EngineV, entities: Seq<Seq<char>>, n: int, h: HitV)
    requires
        0 <= n <= entities.len(),
        is_readable(e.st),
    ensures
        relevant(e, entities, n).contains(h) <==> h.1 == note(e.st.rels, ("current"@, h.0)) && exists|j: int|
            0 <= j < n && #[trigger] current_of(e.st, entities[j], h.0),
    decreases n,
{
    let all = relevant(e, entities, n);
    if n > 0 {
        let a = relevant(e, entities, n - 1);
        let b = facts_about(e, entities[n - 1]);
        lemma_relevant(e, entities, n - 1, h);
        lemma_about(e, entities[n - 1], h);
        if all.contains(h) {
            let j = choose|j: int| 0 <= j < all.len() && all[j] == h;
            if j < a.len() {
                assert(a[j] == h);
            } else {
                assert(b[j - a.len()] == h);
            }
        }
        if a.contains(h) {
            let j = choose|j: int| 0 <= j < a.len() && a[j] == h;
            assert(all[j] == h);
        }
        if b.contains(h) {
            let j = choose|j: int| 0 <= j < b.len() && b[j] == h;
            assert(all[a.len() + j] == h);
        }
        if exists|j: int| 0 <= j < n && #[trigger] current_of(e.st, entities[j], h.0) {
            let j = choose|j: int| 0 <= j < n && #[trigger] current_of(e.st, entities[j], h.0);
            if j < n - 1 {
                assert(current_of(e.st, entities[j], h.0));
            }
        }
    } else {
        assert(all.len() == 0);
    }
}

proof fn lemma_line_among(names: Seq<Seq<char>>, hits: Seq<HitV>, i: int, n: int, j: int, t: Seq<char>)
    requires
        i <= j < n,
        has_text(hit_line(names, hits[j]), t),
    ensures
        has_text(hit_lines(names, hits, i, n), t),
    decreases n - i,
{
    let rest = hit_lines(names, hits, i + 1, n);
    lemma_has_text_add(hit_line(names, hits[i]), rest, t);
    if j > i {
        lemma_line_among(names, hits, i + 1, n, j, t);
    }
}

/// The blocks of episodes, one after the other.
pub open spec fn blocks(eps: Seq<EpisodeV>) -> Seq<char>
    decreases eps.len(),
{
    if eps.len() == 0 {
        Seq::empty()
    } else {
        blocks(eps.drop_last()) + "["@ + eps.last().id + "] "@ + eps.last().text + "\n"@
    }
}

/// The episodes with one of the ids, in order.
pub open spec fn with_ids(eps: Seq<EpisodeV>, used: Set<Seq<char>>) -> Seq<EpisodeV> {
    eps.filter(|ep: EpisodeV| used.contains(ep.id))
}

/// Law: the used episodes are shown verbatim and in order, as many as fit: all
/// of them, or those before one that would exceed the budget.
pub proof fn episodes_shown(eps: Seq<EpisodeV>, used: Set<Seq<char>>, budget: nat) -> (n: int)
    ensures
        0 <= n <= with_ids(eps, used).len(),
        verbatim(eps, used, budget, 0, Seq::empty()) == blocks(with_ids(eps, used).take(n)),
        n < with_ids(eps, used).len() ==> byte_length(blocks(with_ids(eps, used).take(n + 1))) > budget,
{
    assert(eps.take(0) =~= Seq::empty());
    lemma_with_ids(eps, used, 0);
    assert(with_ids(eps, used).take(0) =~= Seq::empty());
    lemma_episodes_shown(eps, used, budget, 0, Seq::empty())
}

proof fn lemma_with_ids(eps: Seq<EpisodeV>, used: Set<Seq<char>>, i: int)
    requires
        0 <= i <= eps.len(),
    ensures
        with_ids(eps.take(i), used).len() <= with_ids(eps, used).len(),
        with_ids(eps, used).take(with_ids(eps.take(i), used).len() as int) == with_ids(eps.take(i), used),
        i == 0 ==> with_ids(eps.take(i), used).len() == 0,
{
    let f = |ep: EpisodeV| used.contains(ep.id);
    let a = eps.take(i);
    let b = eps.skip(i);
    assert(a + b =~= eps);
    Seq::filter_distributes_over_add(a, b, f);
    assert((a.filter(f) + b.filter(f)).take(a.filter(f).len() as int) =~= a.filter(f));
    if i == 0 {
        reveal(Seq::filter);
    }
}

proof fn lemma_episodes_shown(eps: Seq<EpisodeV>, used: Set<Seq<char>>, budget: nat, i: int, out: Seq<char>) -> (n: int)
    requires
        0 <= i <= eps.len(),
        out == blocks(with_ids(eps.take(i), used)),
    ensures
        0 <= n <= with_ids(eps, used).len(),
        verbatim(eps, used, budget, i, out) == blocks(with_ids(eps, used).take(n)),
        n < with_ids(eps, used).len() ==> byte_length(blocks(with_ids(eps, used).take(n + 1))) > budget,
    decreases eps.len() - i,
{
    let all = with_ids(eps, used);
    let now = with_ids(eps.take(i), used);
    lemma_with_ids(eps, used, i);
    if i < eps.len() {
        let next = with_ids(eps.take(i + 1), used);
        let f = |ep: EpisodeV| used.contains(ep.id);
        assert(eps.take(i + 1) =~= eps.take(i).push(eps[i]));
        assert(next == if used.contains(eps[i].id) { now.push(eps[i]) } else { now }) by {
            reveal(Seq::filter);
            assert(eps.take(i + 1).drop_last() =~= eps.take(i));
        }
        if used.contains(eps[i].id) {
            let block = episode_block(eps[i]);
            assert(next.drop_last() =~= now);
            assert(blocks(next) =~= out + block);
            lemma_bytes(out, block);
            if byte_length(out) + byte_length(block) > budget {
                lemma_with_ids(eps, used, i + 1);
                now.len() as int
            } else {
                lemma_episodes_shown(eps, used, budget, i + 1, out + block)
            }
        } else {
            lemma_episodes_shown(eps, used, budget, i + 1, out)
        }
    } else {
        assert(eps.take(i) =~= eps);
        all.len() as int
    }
}

proof fn lemma_bytes(a: Seq<char>, b: Seq<char>)
    ensures
        byte_length(a + b) == byte_length(a) + byte_length(b),
    decreases b.len(),
{
    if b.len() == 0 {
        assert(a + b =~= a);
    } else {
        assert((a + b).drop_last() =~= a + b.drop_last());
        lemma_bytes(a, b.drop_last());
    }
}

proof fn lemma_block_among(eps: Seq<EpisodeV>, i: int)
    requires
        0 <= i < eps.len(),
    ensures
        has_text(blocks(eps), "["@ + eps[i].id + "] "@ + eps[i].text + "\n"@),
    decreases eps.len(),
{
    let d = eps.drop_last();
    let l = eps.last();
    let last = "["@ + l.id + "] "@ + l.text + "\n"@;
    let t = "["@ + eps[i].id + "] "@ + eps[i].text + "\n"@;
    assert(blocks(eps) =~= blocks(d) + last);
    if i < d.len() {
        assert(d[i] == eps[i]);
        lemma_block_among(d, i);
    } else {
        assert(last.subrange(0, 0int + t.len()) =~= t);
        assert(has_text(last, t));
    }
    lemma_has_text_add(blocks(d), last, t);
}

/// Law: a window lists the facts of its entities, and shows what they come
/// from. Where the lines of all facts of the entities fit in six tenths of the
/// budget, each current fact of each entity has its line; where the episodes
/// fit in four tenths, each source of such a fact is shown verbatim.
pub proof fn window_complete(
    e: EngineV,
    eps: Seq<EpisodeV>,
    entities: Seq<Seq<char>>,
    budget_tokens: nat,
    news: Seq<Seq<char>>,
    cited: Set<Seq<char>>,
    name: Seq<char>,
    k: Seq<Value>,
)
    requires
        is_readable(e.st),
        entities.contains(name),
        current_of(e.st, name, k),
        ({
            let hits = highest_first(relevant(e, entities, entities.len() as int));
            byte_length(hit_lines(e.st.names, hits, 0, hits.len() as int)) <= budget_tokens * 4 * 6 / 10
        }),
    ensures
        ({
            let names = e.st.names;
            let text = citing_text(e, eps, entities, budget_tokens, news, cited);
            &&& has_text(text, shown(names, k[0]) + " --"@ + shown(names, k[1]) + "--> "@ + shown(names, k[2]))
            &&& byte_length(blocks(eps)) <= budget_tokens * 4 * 4 / 10 ==> forall|i: int|
                0 <= i < eps.len() && (cited.contains(eps[i].id) || note(e.st.rels, ("current"@, k)).prov.contains(
                    (#[trigger] eps[i]).id,
                )) ==> has_text(text, "["@ + eps[i].id + "] "@ + eps[i].text + "\n"@)
        }),
{
    let names = e.st.names;
    let all = relevant(e, entities, entities.len() as int);
    let hits = highest_first(all);
    let h: HitV = (k, note(e.st.rels, ("current"@, k)));
    let fb = budget_tokens * 4 * 6 / 10;
    let sb = budget_tokens * 4 * 4 / 10;
    let d = distilled(names, hits, fb, 0, Seq::empty(), cited);
    let s = verbatim(eps, d.1, sb, 0, Seq::empty());
    let text = citing_text(e, eps, entities, budget_tokens, news, cited);
    let fact = shown(names, k[0]) + " --"@ + shown(names, k[1]) + "--> "@ + shown(names, k[2]);
    let j = choose|j: int| 0 <= j < entities.len() && entities[j] == name;
    assert(current_of(e.st, entities[j], h.0));
    lemma_relevant(e, entities, entities.len() as int, h);
    highest_first_sorts(all);
    lemma_same_members(all, hits, h);
    let x = choose|x: int| 0 <= x < hits.len() && hits[x] == h;
    let n = sources_are_used(names, hits, fb, 0, Seq::empty(), cited);
    if n < hits.len() {
        lemma_lines_split(names, hits, 0, n, hits.len() as int);
        lemma_lines_split(names, hits, n, n + 1, hits.len() as int);
        assert(hit_lines(names, hits, n, n + 1) =~= hit_line(names, hits[n])) by {
            assert(hit_lines(names, hits, n + 1, n + 1) =~= Seq::<char>::empty());
        }
        lemma_bytes(hit_lines(names, hits, 0, n), hit_lines(names, hits, n, hits.len() as int));
        lemma_bytes(hit_line(names, hits[n]), hit_lines(names, hits, n + 1, hits.len() as int));
        assert(Seq::<char>::empty() + hit_lines(names, hits, 0, n) =~= hit_lines(names, hits, 0, n));
    }
    assert(n == hits.len());
    let line = hit_line(names, h);
    assert(line.subrange(0, 0int + fact.len()) =~= fact);
    assert(has_text(line, fact));
    lemma_line_among(names, hits, 0, n, x, fact);
    assert(d.0 =~= hit_lines(names, hits, 0, n));
    let head = news_section(news) + "== memory (distilled, highest confidence first) ==\n"@;
    let middle = "\n== source episodes (verbatim, from provenance) ==\n"@;
    assert(text =~= ((head + d.0) + middle) + s);
    lemma_has_text_add(head, d.0, fact);
    lemma_has_text_add(head + d.0, middle, fact);
    lemma_has_text_add((head + d.0) + middle, s, fact);
    if byte_length(blocks(eps)) <= sb {
        let used = with_ids(eps, d.1);
        let c = episodes_shown(eps, d.1, sb);
        lemma_filtered_bytes(eps, d.1);
        if c < used.len() {
            lemma_blocks_take(used, c + 1);
        }
        assert(used.take(c) =~= used);
        assert forall|i: int|
            0 <= i < eps.len() && (cited.contains(eps[i].id) || note(e.st.rels, ("current"@, k)).prov.contains(
                (#[trigger] eps[i]).id,
            )) implies has_text(text, "["@ + eps[i].id + "] "@ + eps[i].text + "\n"@) by {
            let t = "["@ + eps[i].id + "] "@ + eps[i].text + "\n"@;
            if h.1.prov.contains(eps[i].id) {
                assert(hits[x].1.prov.contains(eps[i].id));
                assert(is_source(hits, 0, n, eps[i].id));
            }
            assert(d.1.contains(eps[i].id));
            let f = |ep: EpisodeV| d.1.contains(ep.id);
            eps.lemma_filter_contains(f, i);
            let y = choose|y: int| 0 <= y < used.len() && used[y] == eps[i];
            lemma_block_among(used, y);
            lemma_has_text_add((head + d.0) + middle, s, t);
        }
    }
}

proof fn lemma_same_members(a: Seq<HitV>, b: Seq<HitV>, h: HitV)
    requires
        a.to_multiset() =~= b.to_multiset(),
        a.contains(h),
    ensures
        b.contains(h),
{
    broadcast use vstd::seq_lib::group_to_multiset_ensures;

    assert(a.to_multiset().count(h) > 0);
    assert(b.to_multiset().count(h) > 0);
}

proof fn lemma_lines_split(names: Seq<Seq<char>>, hits: Seq<HitV>, i: int, m: int, n: int)
    requires
        i <= m <= n,
    ensures
        hit_lines(names, hits, i, n) == hit_lines(names, hits, i, m) + hit_lines(names, hits, m, n),
    decreases m - i,
{
    if i < m {
        lemma_lines_split(names, hits, i + 1, m, n);
        assert(hit_lines(names, hits, i, n) =~= hit_lines(names, hits, i, m) + hit_lines(names, hits, m, n));
    } else {
        assert(hit_lines(names, hits, i, m) =~= Seq::<char>::empty());
        assert(hit_lines(names, hits, i, n) =~= hit_lines(names, hits, i, m) + hit_lines(names, hits, m, n));
    }
}

proof fn lemma_blocks_take(eps: Seq<EpisodeV>, n: int)
    requires
        0 <= n <= eps.len(),
    ensures
        byte_length(blocks(eps.take(n))) <= byte_length(blocks(eps)),
    decreases eps.len(),
{
    if n < eps.len() {
        let d = eps.drop_last();
        let l = eps.last();
        let last = "["@ + l.id + "] "@ + l.text + "\n"@;
        lemma_blocks_take(d, n);
        assert(d.take(n) =~= eps.take(n));
        assert(blocks(eps) =~= blocks(d) + last);
        lemma_bytes(blocks(d), last);
    } else {
        assert(eps.take(n) =~= eps);
    }
}

proof fn lemma_filtered_bytes(eps: Seq<EpisodeV>, used: Set<Seq<char>>)
    ensures
        byte_length(blocks(with_ids(eps, used))) <= byte_length(blocks(eps)),
    decreases eps.len(),
{
    reveal(Seq::filter);
    if eps.len() > 0 {
        let d = eps.drop_last();
        let l = eps.last();
        let last = "["@ + l.id + "] "@ + l.text + "\n"@;
        lemma_filtered_bytes(d, used);
        assert(blocks(eps) =~= blocks(d) + last);
        lemma_bytes(blocks(d), last);
        if used.contains(l.id) {
            let a = with_ids(d, used);
            assert(with_ids(eps, used) =~= a.push(l));
            assert(a.push(l).drop_last() =~= a);
            assert(blocks(a.push(l)) =~= blocks(a) + last);
            lemma_bytes(blocks(a), last);
        } else {
            assert(with_ids(eps, used) =~= with_ids(d, used));
        }
    }
}

} // verus!
