//! Proof trees: why a fact holds.

use vstd::prelude::*;
use vstd::string::StringExecFns;
use crate::engine::Engine;
use crate::notation::{fixed_text, fixed_to_text};
use crate::query::{fact_text, fact_to_text};
use crate::relation::{keys_view, row_of, supports_view, FactV, Key, KeyV, Support, SupportV};
use crate::sorted_set::{enumerate, models, SortedSet};
use crate::store::{holds, rels_wf, RelsV, Store, StoreV};
use crate::text::{debug_form, debug_text, join, joined, texts};
use crate::value::{copy_key, Value};

verus! {

/// The text so far and the facts shown in it.
#[verifier::ext_equal]
pub struct WhyV {
    pub out: Seq<char>,
    pub seen: Set<KeyV>,
}

/// A list of texts in brackets.
pub open spec fn listed(parts: Seq<Seq<char>>) -> Seq<char> {
    "["@ + joined(parts, ", "@) + "]"@
}

/// Sources as text.
pub open spec fn sources_text(prov: Set<Seq<char>>) -> Seq<char> {
    listed(enumerate::<String>(prov).map_values(|s: Seq<char>| debug_form(s)))
}

/// The first line for a stored fact.
pub open spec fn fact_line(pad: Seq<char>, text: Seq<char>, f: FactV) -> Seq<char> {
    pad + text + "  (conf "@ + fixed_text(f.ann.conf, 3) + ", prov "@ + sources_text(f.ann.prov) + ")\n"@
}

/// The proof tree of a fact, at most `depth` levels deep: one derivation for
/// each rule that supports it, and below it the facts that it rests on. A
/// fact that was shown before is not shown again.
pub open spec fn why_fact(st: StoreV, k: KeyV, pad: Seq<char>, w: WhyV, depth: nat) -> WhyV
    decreases depth, 2int, 0int,
{
    let text = fact_text(st.names, k.0, k.1);
    if !holds(st.rels, k) {
        WhyV { out: w.out + pad + text + "  [unknown fact]\n"@, ..w }
    } else if w.seen.contains(k) {
        WhyV { out: w.out + pad + text + "  [cycle: shown above]\n"@, ..w }
    } else {
        let f = st.rels[k.0].rows[row_of(st.rels[k.0], k.1)].fact;
        let w1 = WhyV { out: w.out + fact_line(pad, text, f), seen: w.seen.insert(k) };
        let r = why_supports(st, f.supports, 0, pad, Set::empty(), false, w1, depth);
        if !r.1 && f.supports.len() > 0 {
            WhyV { out: r.0.out + pad + "  \u{21b3} (witnesses already shown above)\n"@, ..r.0 }
        } else {
            r.0
        }
    }
}

/// The supports of a fact from position `i` on, one for each rule, and
/// whether any was shown.
pub open spec fn why_supports(
    st: StoreV,
    ss: Seq<SupportV>,
    i: int,
    pad: Seq<char>,
    shown: Set<Seq<char>>,
    any: bool,
    w: WhyV,
    depth: nat,
) -> (WhyV, bool)
    decreases depth, 1int, ss.len() - i,
{
    if i < 0 || i >= ss.len() {
        (w, any)
    } else {
        match ss[i] {
            SupportV::Base => if shown.contains("\u{ab}base\u{bb}"@) {
                why_supports(st, ss, i + 1, pad, shown, any, w, depth)
            } else {
                why_supports(
                    st,
                    ss,
                    i + 1,
                    pad,
                    shown.insert("\u{ab}base\u{bb}"@),
                    true,
                    WhyV { out: w.out + pad + "  \u{21b3} asserted (base fact)\n"@, ..w },
                    depth,
                )
            },
            SupportV::Rule { rule, body } => if shown.contains(rule) {
                why_supports(st, ss, i + 1, pad, shown, any, w, depth)
            } else {
                let w1 = WhyV { out: w.out + pad + "  \u{21b3} via "@ + rule + "\n"@, ..w };
                why_supports(
                    st,
                    ss,
                    i + 1,
                    pad,
                    shown.insert(rule),
                    true,
                    why_body(st, body, 0, pad + "    "@, w1, depth),
                    depth,
                )
            },
        }
    }
}

/// The proof trees of the facts that a derivation rests on.
pub open spec fn why_body(st: StoreV, body: Seq<KeyV>, j: int, pad: Seq<char>, w: WhyV, depth: nat) -> WhyV
    decreases depth, 0int, body.len() - j,
{
    if j < 0 || j >= body.len() || depth == 0 {
        w
    } else {
        why_body(st, body, j + 1, pad, why_fact(st, body[j], pad, w, (depth - 1) as nat), depth)
    }
}

/// The stored facts.
pub open spec fn stored(m: RelsV) -> Set<KeyV> {
    Set::new(|k: KeyV| holds(m, k))
}

/// The proof tree of a fact. No branch is deeper than there are facts.
pub open spec fn why_text(st: StoreV, k: KeyV) -> Seq<char> {
    why_fact(st, k, Seq::empty(), WhyV { out: Seq::empty(), seen: Set::empty() }, stored(st.rels).len() + 1).out
}

proof fn lemma_stored_finite(m: RelsV)
    requires
        m.dom().finite(),
    ensures
        stored(m).finite(),
    decreases m.dom().len(),
{
    if m.dom() =~= Set::empty() {
        assert(stored(m) =~= Set::empty());
    } else {
        let p = m.dom().choose();
        let rest = m.remove(p);
        assert(rest.dom() =~= m.dom().remove(p));
        lemma_stored_finite(rest);
        let ks = m[p].rows.map_values(|x: crate::relation::RowV| (p, x.key));
        vstd::seq_lib::seq_to_set_is_finite(ks);
        assert forall|k: KeyV| stored(m).contains(k) implies stored(rest).union(ks.to_set()).contains(k) by {
            if k.0 == p {
                let i = choose|i: int| 0 <= i < m[p].rows.len() && (#[trigger] m[p].rows[i]).key == k.1;
                assert(ks[i] == k);
            } else {
                assert(rest.contains_key(k.0) && rest[k.0] == m[k.0]);
            }
        }
        assert(stored(m).subset_of(stored(rest).union(ks.to_set())));
        vstd::set_lib::lemma_len_subset(stored(m), stored(rest).union(ks.to_set()));
    }
}

/// Sources as text.
pub fn sources_to_text(prov: &SortedSet<String>) -> (r: String)
    ensures
        r@ == sources_text(prov@),
{
    let ps = prov.items();
    let ghost pv = models(ps@);
    let mut parts: Vec<String> = Vec::new();
    let mut i: usize = 0;
    while i < ps.len()
        invariant
            i <= ps@.len(),
            pv == models(ps@),
            parts@.len() == i,
            forall|j: int| 0 <= j < i ==> (#[trigger] parts@[j])@ == debug_form(pv[j]),
        decreases ps@.len() - i,
    {
        assert(pv[i as int] == ps@[i as int]@);
        parts.push(debug_text(ps[i].as_str()));
        i += 1;
    }
    assert(texts(parts@) =~= pv.map_values(|s: Seq<char>| debug_form(s)));
    list_texts(&parts)
}

/// A list of texts in brackets.
pub fn list_texts(parts: &Vec<String>) -> (r: String)
    ensures
        r@ == listed(texts(parts@)),
{
    let mut out = "[".to_owned();
    let inner = join(parts, ", ");
    out.append(inner.as_str());
    out.append("]");
    out
}

/// Writes the proof tree of a fact.
fn write_fact(
    store: &Store,
    pred: &str,
    args: &Vec<Value>,
    pad: &str,
    out: &mut String,
    seen: &mut SortedSet<Key>,
    Ghost(depth): Ghost<nat>,
)
    requires
        rels_wf(store@.rels),
        stored(store@.rels).finite(),
        stored(store@.rels).difference(old(seen)@).len() < depth,
    ensures
        (WhyV { out: final(out)@, seen: final(seen)@ }) == why_fact(
            store@,
            (pred@, args@),
            pad@,
            WhyV { out: old(out)@, seen: old(seen)@ },
            depth,
        ),
        old(seen)@.subset_of(final(seen)@),
    decreases depth, 2int, 0int,
{
    let ghost k = (pred@, args@);
    let ghost s0 = seen@;
    let ghost o0 = out@;
    let text = fact_to_text(&store.interner, pred, args);
    let found = match store.relations.get(pred) {
        Some(rel) => rel.get(args),
        None => None,
    };
    let f = match found {
        Some(f) => f,
        None => {
            out.append(pad);
            out.append(text.as_str());
            out.append("  [unknown fact]\n");
            return;
        },
    };
    assert(holds(store@.rels, k));
    let key: Key = (pred.to_owned(), copy_key(args));
    if !seen.insert(key) {
        assert(seen@ =~= s0);
        out.append(pad);
        out.append(text.as_str());
        out.append("  [cycle: shown above]\n");
        return;
    }
    proof {
        let a = stored(store@.rels);
        assert(a.difference(seen@) =~= a.difference(s0).remove(k));
        assert(a.difference(s0).contains(k));
        vstd::set_lib::lemma_len_subset(a.difference(s0), a);
    }
    let conf = fixed_to_text(&f.ann.conf, 3);
    let prov = sources_to_text(&f.ann.prov);
    let mut line = pad.to_owned();
    line.append(text.as_str());
    line.append("  (conf ");
    line.append(conf.as_str());
    line.append(", prov ");
    line.append(prov.as_str());
    line.append(")\n");
    out.append(line.as_str());
    assert(out@ == o0 + fact_line(pad@, text@, f@));
    let any = write_supports(store, &f.supports, pad, out, seen, Ghost(depth));
    assert(supports_view(f.supports@).len() == f.supports@.len());
    if !any && f.supports.len() > 0 {
        out.append(pad);
        out.append("  \u{21b3} (witnesses already shown above)\n");
    }
}

fn write_supports(
    store: &Store,
    supports: &Vec<Support>,
    pad: &str,
    out: &mut String,
    seen: &mut SortedSet<Key>,
    Ghost(depth): Ghost<nat>,
) -> (r: bool)
    requires
        rels_wf(store@.rels),
        stored(store@.rels).finite(),
        stored(store@.rels).difference(old(seen)@).len() + 1 < depth,
    ensures
        (WhyV { out: final(out)@, seen: final(seen)@ }, r) == why_supports(
            store@,
            supports_view(supports@),
            0,
            pad@,
            Set::empty(),
            false,
            WhyV { out: old(out)@, seen: old(seen)@ },
            depth,
        ),
        old(seen)@.subset_of(final(seen)@),
    decreases depth, 1int, 0int,
{
    let ghost ss = supports_view(supports@);
    let ghost want = why_supports(
        store@,
        ss,
        0,
        pad@,
        Set::empty(),
        false,
        WhyV { out: out@, seen: seen@ },
        depth,
    );
    let ghost s0 = seen@;
    let mut shown: SortedSet<String> = SortedSet::new();
    let mut any = false;
    let mut i: usize = 0;
    while i < supports.len()
        invariant
            i <= supports@.len(),
            ss == supports_view(supports@),
            rels_wf(store@.rels),
            stored(store@.rels).finite(),
            stored(store@.rels).difference(seen@).len() + 1 < depth,
            s0.subset_of(seen@),
            want == why_supports(
                store@,
                ss,
                i as int,
                pad@,
                shown@,
                any,
                WhyV { out: out@, seen: seen@ },
                depth,
            ),
        decreases supports@.len() - i,
    {
        assert(ss[i as int] == supports@[i as int]@);
        match &supports[i] {
            Support::Base => {
                let ghost sh = shown@;
                if shown.insert("\u{ab}base\u{bb}".to_owned()) {
                    out.append(pad);
                    out.append("  \u{21b3} asserted (base fact)\n");
                    any = true;
                } else {
                    assert(shown@ =~= sh);
                }
            },
            Support::Rule { rule, body } => {
                let ghost sh = shown@;
                if shown.insert(rule.clone()) {
                    out.append(pad);
                    out.append("  \u{21b3} via ");
                    out.append(rule.as_str());
                    out.append("\n");
                    let mut deeper = pad.to_owned();
                    deeper.append("    ");
                    write_body(store, body, deeper.as_str(), out, seen, Ghost(depth));
                    any = true;
                } else {
                    assert(shown@ =~= sh);
                }
            },
        }
        i += 1;
    }
    any
}

fn write_body(
    store: &Store,
    body: &Vec<Key>,
    pad: &str,
    out: &mut String,
    seen: &mut SortedSet<Key>,
    Ghost(depth): Ghost<nat>,
)
    requires
        rels_wf(store@.rels),
        stored(store@.rels).finite(),
        stored(store@.rels).difference(old(seen)@).len() + 1 < depth,
    ensures
        (WhyV { out: final(out)@, seen: final(seen)@ }) == why_body(
            store@,
            keys_view(body@),
            0,
            pad@,
            WhyV { out: old(out)@, seen: old(seen)@ },
            depth,
        ),
        old(seen)@.subset_of(final(seen)@),
        stored(store@.rels).difference(final(seen)@).len() + 1 < depth,
    decreases depth, 0int, 0int,
{
    let ghost bs = keys_view(body@);
    let ghost want = why_body(store@, bs, 0, pad@, WhyV { out: out@, seen: seen@ }, depth);
    let ghost s0 = seen@;
    let mut j: usize = 0;
    while j < body.len()
        invariant
            j <= body@.len(),
            bs == keys_view(body@),
            rels_wf(store@.rels),
            stored(store@.rels).finite(),
            stored(store@.rels).difference(seen@).len() + 1 < depth,
            s0.subset_of(seen@),
            want == why_body(store@, bs, j as int, pad@, WhyV { out: out@, seen: seen@ }, depth),
        decreases body@.len() - j,
    {
        assert(bs[j as int] == body@[j as int]@);
        let ghost before = seen@;
        write_fact(store, body[j].0.as_str(), &body[j].1, pad, out, seen, Ghost((depth - 1) as nat));
        proof {
            let a = stored(store@.rels);
            assert(a.difference(seen@).subset_of(a.difference(before)));
            vstd::set_lib::lemma_len_subset(a.difference(before), a);
            vstd::set_lib::lemma_len_subset(a.difference(seen@), a.difference(before));
        }
        j += 1;
    }
}

impl Engine {
    /// The proof tree of a fact.
    pub fn why(&self, pred: &str, args: &Vec<Value>) -> (r: String)
        requires
            rels_wf(self@.st.rels),
        ensures
            r@ == why_text(self@.st, (pred@, args@)),
    {
        let mut out = String::new();
        let mut seen: SortedSet<Key> = SortedSet::new();
        proof {
            self.store.relations.lemma_finite();
            lemma_stored_finite(self@.st.rels);
            assert(out@ =~= Seq::empty());
            assert(stored(self@.st.rels).difference(Set::empty()) =~= stored(self@.st.rels));
            reveal_strlit("");
            assert(""@ =~= Seq::empty());
        }
        write_fact(&self.store, pred, args, "", &mut out, &mut seen, Ghost(stored(self@.st.rels).len() + 1));
        out
    }
}

} // verus!
