//! Proof trees: an explanation shows every derivation that is on record, one
//! for each rule, and below each derivation every fact that it rests on.

use vstd::prelude::*;
use crate::explain::{fact_line, stored, why_body, why_fact, why_supports, why_text, WhyV};
use crate::notation::fixed_text;
use crate::notes::{note, witnesses};
use crate::query::fact_text;
use crate::relation::{row_of, FactV, KeyV, SupportV};
use crate::store::{holds, StoreV};
use crate::windows::{has_text, lemma_has_itself, lemma_has_text_add};

verus! {

/// Texts, one after the other.
pub open spec fn concat(parts: Seq<Seq<char>>) -> Seq<char>
    decreases parts.len(),
{
    if parts.len() == 0 {
        Seq::empty()
    } else {
        parts[0] + concat(parts.drop_first())
    }
}

/// A text begins with another.
pub open spec fn begins_with(s: Seq<char>, t: Seq<char>) -> bool {
    t.len() <= s.len() && s.subrange(0, t.len() as int) == t
}

/// What a support is known by: its rule, or that it was asserted.
pub open spec fn label(s: SupportV) -> Seq<char> {
    match s {
        SupportV::Base => "\u{ab}base\u{bb}"@,
        SupportV::Rule { rule, body } => rule,
    }
}

/// How many stored facts are not shown yet.
pub open spec fn unseen(st: StoreV, seen: Set<KeyV>) -> nat {
    stored(st.rels).difference(seen).len()
}

/// The text is the proof tree of a fact, after some facts were shown: it begins
/// with the line of the fact.
pub open spec fn is_tree(st: StoreV, k: KeyV, pad: Seq<char>, text: Seq<char>, seen: Set<KeyV>, depth: nat) -> bool {
    &&& begins_with(text, pad + fact_text(st.names, k.0, k.1) + "  "@)
    &&& exists|w: WhyV|
        seen.subset_of(w.seen) && unseen(st, w.seen) < depth && (#[trigger] why_fact(st, k, pad, w, depth)).out == w.out + text
}

/// The texts are the proof trees of facts, one for each.
pub open spec fn is_listing(st: StoreV, body: Seq<KeyV>, pad: Seq<char>, lines: Seq<Seq<char>>, seen: Set<KeyV>, depth: nat) -> bool {
    lines.len() == body.len() && forall|j: int| 0 <= j < body.len() ==> is_tree(st, #[trigger] body[j], pad, lines[j], seen, depth)
}

/// The text shows a support: that the fact was asserted, or the rule and below
/// it the proof trees of all facts that the derivation rests on.
pub open spec fn is_section(st: StoreV, s: SupportV, pad: Seq<char>, text: Seq<char>, seen: Set<KeyV>, depth: nat) -> bool {
    match s {
        SupportV::Base => text == pad + "  \u{21b3} asserted (base fact)\n"@,
        SupportV::Rule { rule, body } => exists|lines: Seq<Seq<char>>|
            #![trigger concat(lines)]
            is_listing(st, body, pad + "    "@, lines, seen, depth) && text == pad + "  \u{21b3} via "@ + rule + "\n"@ + concat(lines),
    }
}

/// The positions pick one support for each label, the first.
pub open spec fn picks(ss: Seq<SupportV>, ids: Seq<int>) -> bool {
    &&& forall|t: int| 0 <= t < ids.len() ==> 0 <= #[trigger] ids[t] < ss.len()
    &&& forall|t: int, u: int| 0 <= t < u < ids.len() ==> #[trigger] ids[t] < #[trigger] ids[u] && label(ss[ids[t]]) != label(ss[ids[u]])
    &&& forall|i: int| 0 <= i < ss.len() ==> exists|t: int| 0 <= t < ids.len() && #[trigger] ids[t] <= i && label(ss[ids[t]]) == label(#[trigger] ss[i])
}

// --------------------------------------------------------------------- lemmas

proof fn lemma_concat_add(a: Seq<Seq<char>>, b: Seq<Seq<char>>)
    ensures
        concat(a + b) == concat(a) + concat(b),
    decreases a.len(),
{
    if a.len() == 0 {
        assert(a + b =~= b);
        assert(concat(a) + concat(b) =~= concat(b));
    } else {
        assert((a + b).drop_first() =~= a.drop_first() + b);
        lemma_concat_add(a.drop_first(), b);
        assert(concat(a + b) =~= concat(a) + concat(b));
    }
}

proof fn lemma_unseen_shrinks(st: StoreV, a: Set<KeyV>, b: Set<KeyV>)
    requires
        stored(st.rels).finite(),
        a.subset_of(b),
    ensures
        unseen(st, b) <= unseen(st, a),
{
    let s = stored(st.rels);
    vstd::set_lib::lemma_set_subset_finite(s, s.difference(a));
    assert(s.difference(b).subset_of(s.difference(a)));
    vstd::set_lib::lemma_len_subset(s.difference(b), s.difference(a));
}

proof fn lemma_unseen_less(st: StoreV, seen: Set<KeyV>, k: KeyV)
    requires
        stored(st.rels).finite(),
        holds(st.rels, k),
        !seen.contains(k),
    ensures
        unseen(st, seen.insert(k)) + 1 == unseen(st, seen),
{
    let s = stored(st.rels);
    vstd::set_lib::lemma_set_subset_finite(s, s.difference(seen));
    assert(s.difference(seen).contains(k));
    assert(s.difference(seen.insert(k)) =~= s.difference(seen).remove(k));
}

/// What was shown before matters only by what it adds.
proof fn lemma_section_weakens(st: StoreV, s: SupportV, pad: Seq<char>, text: Seq<char>, a: Set<KeyV>, b: Set<KeyV>, depth: nat)
    requires
        a.subset_of(b),
        is_section(st, s, pad, text, b, depth),
    ensures
        is_section(st, s, pad, text, a, depth),
{
    if let SupportV::Rule { rule, body } = s {
        let lines = choose|lines: Seq<Seq<char>>|
            #![trigger concat(lines)]
            is_listing(st, body, pad + "    "@, lines, b, depth) && text == pad + "  \u{21b3} via "@ + rule + "\n"@ + concat(lines);
        assert forall|j: int| 0 <= j < body.len() implies is_tree(st, #[trigger] body[j], pad + "    "@, lines[j], a, depth) by {
            assert(is_tree(st, body[j], pad + "    "@, lines[j], b, depth));
        }
        assert(is_listing(st, body, pad + "    "@, lines, a, depth));
    }
}

/// The proof tree of a fact is appended.
proof fn lemma_fact(st: StoreV, k: KeyV, pad: Seq<char>, w: WhyV, depth: nat) -> (text: Seq<char>)
    requires
        stored(st.rels).finite(),
        unseen(st, w.seen) < depth,
    ensures
        why_fact(st, k, pad, w, depth).out == w.out + text,
        begins_with(text, pad + fact_text(st.names, k.0, k.1) + "  "@),
        w.seen.subset_of(why_fact(st, k, pad, w, depth).seen),
        holds(st.rels, k) ==> why_fact(st, k, pad, w, depth).seen.contains(k),
    decreases depth, 2int, 0int,
{
    let name = fact_text(st.names, k.0, k.1);
    let start = pad + name + "  "@;
    let r = why_fact(st, k, pad, w, depth);
    if !holds(st.rels, k) {
        let text = pad + name + "  [unknown fact]\n"@;
        reveal_strlit("  ");
        reveal_strlit("  [unknown fact]\n");
        assert(text.subrange(0, start.len() as int) =~= start);
        assert(r.out =~= w.out + text);
        text
    } else if w.seen.contains(k) {
        let text = pad + name + "  [cycle: shown above]\n"@;
        reveal_strlit("  ");
        reveal_strlit("  [cycle: shown above]\n");
        assert(text.subrange(0, start.len() as int) =~= start);
        assert(r.out =~= w.out + text);
        text
    } else {
        let f = st.rels[k.0].rows[row_of(st.rels[k.0], k.1)].fact;
        let line = fact_line(pad, name, f);
        let w1 = WhyV { out: w.out + line, seen: w.seen.insert(k) };
        lemma_unseen_less(st, w.seen, k);
        let x = lemma_supports(st, f.supports, 0, pad, Set::empty(), false, w1, depth);
        let s = why_supports(st, f.supports, 0, pad, Set::empty(), false, w1, depth);
        let tail = if !s.1 && f.supports.len() > 0 {
            pad + "  \u{21b3} (witnesses already shown above)\n"@
        } else {
            Seq::empty()
        };
        let text = line + concat(x.1) + tail;
        assert(r.out =~= w.out + text);
        reveal_strlit("  ");
        reveal_strlit("  (conf ");
        assert(text.subrange(0, start.len() as int) =~= start);
        text
    }
}

/// The texts show the supports from a position on, one for each label that was
/// not shown yet.
spec fn is_sections(
    st: StoreV,
    ss: Seq<SupportV>,
    i: int,
    pad: Seq<char>,
    shown: Set<Seq<char>>,
    seen: Set<KeyV>,
    depth: nat,
    ids: Seq<int>,
    parts: Seq<Seq<char>>,
) -> bool {
    &&& parts.len() == ids.len()
    &&& forall|t: int| 0 <= t < ids.len() ==> i <= #[trigger] ids[t] < ss.len() && !shown.contains(label(ss[ids[t]]))
    &&& forall|t: int, u: int| 0 <= t < u < ids.len() ==> #[trigger] ids[t] < #[trigger] ids[u] && label(ss[ids[t]]) != label(ss[ids[u]])
    &&& forall|j: int| i <= j < ss.len() ==> shown.contains(label(#[trigger] ss[j])) || is_picked(ss, ids, j)
    &&& forall|t: int| 0 <= t < ids.len() ==> is_section(st, ss[#[trigger] ids[t]], pad, parts[t], seen, depth)
}

/// A support with the label of the one at a position is picked, there or before.
spec fn is_picked(ss: Seq<SupportV>, ids: Seq<int>, j: int) -> bool {
    exists|t: int| 0 <= t < ids.len() && #[trigger] ids[t] <= j && label(ss[ids[t]]) == label(ss[j])
}

proof fn lemma_concat_one(x: Seq<char>)
    ensures
        concat(seq![x]) == x,
{
    let p = seq![x];
    assert(p.drop_first() =~= Seq::<Seq<char>>::empty());
    assert(concat(p.drop_first()) =~= Seq::<char>::empty());
    assert(concat(p) =~= x);
}

proof fn lemma_prepend(
    st: StoreV,
    ss: Seq<SupportV>,
    i: int,
    pad: Seq<char>,
    shown: Set<Seq<char>>,
    a: Set<KeyV>,
    b: Set<KeyV>,
    depth: nat,
    part: Seq<char>,
    ids: Seq<int>,
    parts: Seq<Seq<char>>,
)
    requires
        0 <= i < ss.len(),
        !shown.contains(label(ss[i])),
        is_section(st, ss[i], pad, part, a, depth),
        is_sections(st, ss, i + 1, pad, shown.insert(label(ss[i])), b, depth, ids, parts),
        a.subset_of(b),
    ensures
        is_sections(st, ss, i, pad, shown, a, depth, seq![i] + ids, seq![part] + parts),
{
    let ids2 = seq![i] + ids;
    let parts2 = seq![part] + parts;
    let name = label(ss[i]);
    assert forall|t: int| 0 <= t < ids2.len() implies i <= #[trigger] ids2[t] < ss.len() && !shown.contains(label(ss[ids2[t]])) by {
        if t > 0 {
            assert(ids2[t] == ids[t - 1]);
        }
    }
    assert forall|t: int, u: int| 0 <= t < u < ids2.len() implies #[trigger] ids2[t] < #[trigger] ids2[u] && label(ss[ids2[t]]) != label(
        ss[ids2[u]],
    ) by {
        assert(ids2[u] == ids[u - 1]);
        if t > 0 {
            assert(ids2[t] == ids[t - 1]);
        }
    }
    assert forall|j: int| i <= j < ss.len() implies shown.contains(label(#[trigger] ss[j])) || is_picked(ss, ids2, j) by {
        if label(ss[j]) == name {
            assert(ids2[0] == i);
            assert(is_picked(ss, ids2, j));
        } else if !shown.contains(label(ss[j])) {
            assert(is_picked(ss, ids, j));
            let t = choose|t: int| 0 <= t < ids.len() && #[trigger] ids[t] <= j && label(ss[ids[t]]) == label(ss[j]);
            assert(ids2[t + 1] == ids[t]);
        }
    }
    assert forall|t: int| 0 <= t < ids2.len() implies is_section(st, ss[#[trigger] ids2[t]], pad, parts2[t], a, depth) by {
        if t > 0 {
            assert(ids2[t] == ids[t - 1] && parts2[t] == parts[t - 1]);
            assert(is_section(st, ss[ids[t - 1]], pad, parts[t - 1], b, depth));
            lemma_section_weakens(st, ss[ids2[t]], pad, parts2[t], a, b, depth);
        }
    }
}

/// One support is appended.
proof fn lemma_support(st: StoreV, s: SupportV, pad: Seq<char>, w: WhyV, depth: nat) -> (part: Seq<char>)
    requires
        stored(st.rels).finite(),
        unseen(st, w.seen) + 1 < depth,
    ensures
        is_section(st, s, pad, part, w.seen, (depth - 1) as nat),
        with_support(st, s, pad, w, depth).out == w.out + part,
        w.seen.subset_of(with_support(st, s, pad, w, depth).seen),
    decreases depth, 1int, 0int,
{
    match s {
        SupportV::Base => {
            let p = pad + "  \u{21b3} asserted (base fact)\n"@;
            assert(with_support(st, s, pad, w, depth).out =~= w.out + p);
            p
        },
        SupportV::Rule { rule, body } => {
            let w1 = WhyV { out: w.out + pad + "  \u{21b3} via "@ + rule + "\n"@, ..w };
            let deeper = pad + "    "@;
            let lines = lemma_body(st, body, 0, deeper, w1, depth);
            let p = pad + "  \u{21b3} via "@ + rule + "\n"@ + concat(lines);
            assert(is_listing(st, body, deeper, lines, w.seen, (depth - 1) as nat)) by {
                assert forall|j: int| 0 <= j < body.len() implies is_tree(st, #[trigger] body[j], deeper, lines[j], w.seen, (depth - 1) as nat) by {
                    assert(lines[j - 0] == lines[j]);
                }
            }
            assert(with_support(st, s, pad, w, depth).out =~= w.out + p);
            p
        },
    }
}

/// What a support adds to an explanation.
spec fn with_support(st: StoreV, s: SupportV, pad: Seq<char>, w: WhyV, depth: nat) -> WhyV {
    match s {
        SupportV::Base => WhyV { out: w.out + pad + "  \u{21b3} asserted (base fact)\n"@, ..w },
        SupportV::Rule { rule, body } => why_body(
            st,
            body,
            0,
            pad + "    "@,
            WhyV { out: w.out + pad + "  \u{21b3} via "@ + rule + "\n"@, ..w },
            depth,
        ),
    }
}

/// The supports from a position on are appended, one for each new label.
proof fn lemma_supports(
    st: StoreV,
    ss: Seq<SupportV>,
    i: int,
    pad: Seq<char>,
    shown: Set<Seq<char>>,
    any: bool,
    w: WhyV,
    depth: nat,
) -> (x: (Seq<int>, Seq<Seq<char>>))
    requires
        stored(st.rels).finite(),
        unseen(st, w.seen) + 1 < depth,
        0 <= i <= ss.len(),
    ensures
        ({
            let r = why_supports(st, ss, i, pad, shown, any, w, depth);
            &&& r.0.out == w.out + concat(x.1)
            &&& r.1 == (any || x.0.len() > 0)
            &&& w.seen.subset_of(r.0.seen)
            &&& is_sections(st, ss, i, pad, shown, w.seen, (depth - 1) as nat, x.0, x.1)
        }),
    decreases depth, 1int, ss.len() - i + 1,
{
    if i >= ss.len() {
        let parts = Seq::<Seq<char>>::empty();
        assert(w.out + concat(parts) =~= w.out);
        (Seq::<int>::empty(), parts)
    } else if shown.contains(label(ss[i])) {
        let x = lemma_supports(st, ss, i + 1, pad, shown, any, w, depth);
        assert(is_sections(st, ss, i, pad, shown, w.seen, (depth - 1) as nat, x.0, x.1));
        x
    } else {
        let name = label(ss[i]);
        let w2 = with_support(st, ss[i], pad, w, depth);
        let part = lemma_support(st, ss[i], pad, w, depth);
        lemma_unseen_shrinks(st, w.seen, w2.seen);
        let rest = lemma_supports(st, ss, i + 1, pad, shown.insert(name), true, w2, depth);
        lemma_prepend(st, ss, i, pad, shown, w.seen, w2.seen, (depth - 1) as nat, part, rest.0, rest.1);
        lemma_concat_add(seq![part], rest.1);
        lemma_concat_one(part);
        let r = why_supports(st, ss, i, pad, shown, any, w, depth);
        assert(r == why_supports(st, ss, i + 1, pad, shown.insert(name), true, w2, depth));
        assert(r.0.out =~= w.out + concat(seq![part] + rest.1));
        (seq![i] + rest.0, seq![part] + rest.1)
    }
}

/// The proof trees of the facts from a position on are appended, one for each.
proof fn lemma_body(st: StoreV, body: Seq<KeyV>, j: int, pad: Seq<char>, w: WhyV, depth: nat) -> (lines: Seq<Seq<char>>)
    requires
        stored(st.rels).finite(),
        unseen(st, w.seen) + 1 < depth,
        0 <= j <= body.len(),
    ensures
        why_body(st, body, j, pad, w, depth).out == w.out + concat(lines),
        w.seen.subset_of(why_body(st, body, j, pad, w, depth).seen),
        lines.len() == body.len() - j,
        forall|i: int| j <= i < body.len() ==> is_tree(st, #[trigger] body[i], pad, lines[i - j], w.seen, (depth - 1) as nat),
    decreases depth, 0int, body.len() - j,
{
    if j >= body.len() {
        let lines = Seq::<Seq<char>>::empty();
        assert(w.out + concat(lines) =~= w.out);
        lines
    } else {
        let d = (depth - 1) as nat;
        let text = lemma_fact(st, body[j], pad, w, d);
        let w2 = why_fact(st, body[j], pad, w, d);
        lemma_unseen_shrinks(st, w.seen, w2.seen);
        let rest = lemma_body(st, body, j + 1, pad, w2, depth);
        let lines = seq![text] + rest;
        lemma_concat_add(seq![text], rest);
        lemma_concat_one(text);
        assert(why_body(st, body, j, pad, w, depth).out =~= w.out + concat(lines));
        assert(is_tree(st, body[j], pad, text, w.seen, d));
        assert forall|i: int| j <= i < body.len() implies is_tree(st, #[trigger] body[i], pad, lines[i - j], w.seen, d) by {
            if i > j {
                assert(lines[i - j] == rest[i - (j + 1)]);
                assert(is_tree(st, body[i], pad, rest[i - (j + 1)], w2.seen, d));
            } else {
                assert(lines[0] == text);
            }
        }
        lines
    }
}

// ----------------------------------------------------------------------- laws

/// Law: the proof tree of a stored fact shows its confidence and sources, and
/// then its witnesses: for each label the first, in order; and below a
/// derivation the proof tree of every fact that it rests on, each with a line
/// of its own. This holds at every level, until a fact was shown before.
#[verifier::spinoff_prover]
#[verifier::rlimit(60)]
pub proof fn derivations_shown(st: StoreV, k: KeyV, pad: Seq<char>, w: WhyV, depth: nat) -> (x: (Seq<int>, Seq<Seq<char>>))
    requires
        stored(st.rels).finite(),
        unseen(st, w.seen) < depth,
        holds(st.rels, k),
        !w.seen.contains(k),
        witnesses(st.rels, k).len() > 0,
    ensures
        ({
            let r = why_fact(st, k, pad, w, depth);
            let ss = witnesses(st.rels, k);
            let line = fact_line(pad, fact_text(st.names, k.0, k.1), st.rels[k.0].rows[row_of(st.rels[k.0], k.1)].fact);
            &&& picks(ss, x.0)
            &&& x.1.len() == x.0.len()
            &&& r.out == w.out + line + concat(x.1)
            &&& begins_with(
                line,
                pad + fact_text(st.names, k.0, k.1) + "  (conf "@ + fixed_text(note(st.rels, k).conf, 3) + ", prov "@,
            )
            &&& forall|t: int|
                0 <= t < x.0.len() ==> is_section(st, ss[#[trigger] x.0[t]], pad, x.1[t], w.seen.insert(k), (depth - 1) as nat)
        }),
{
    let f = st.rels[k.0].rows[row_of(st.rels[k.0], k.1)].fact;
    let ss = f.supports;
    let name = fact_text(st.names, k.0, k.1);
    let line = fact_line(pad, name, f);
    let w1 = WhyV { out: w.out + line, seen: w.seen.insert(k) };
    lemma_unseen_less(st, w.seen, k);
    let x = lemma_supports(st, ss, 0, pad, Set::empty(), false, w1, depth);
    assert(picks(ss, x.0)) by {
        assert forall|i: int| 0 <= i < ss.len() implies exists|t: int|
            0 <= t < x.0.len() && #[trigger] x.0[t] <= i && label(ss[x.0[t]]) == label(#[trigger] ss[i]) by {
            assert(is_picked(ss, x.0, i));
        }
    }
    assert(x.0.len() > 0) by {
        assert(is_picked(ss, x.0, 0)) by {
            assert(label(ss[0]) == label(ss[0]));
        }
    }
    lemma_line_begins(pad, name, f);
    x
}

proof fn lemma_line_begins(pad: Seq<char>, name: Seq<char>, f: FactV)
    ensures
        begins_with(fact_line(pad, name, f), pad + name + "  (conf "@ + fixed_text(f.ann.conf, 3) + ", prov "@),
{
    let start = pad + name + "  (conf "@ + fixed_text(f.ann.conf, 3) + ", prov "@;
    assert(fact_line(pad, name, f).subrange(0, start.len() as int) =~= start);
}

/// Law: the explanation of a stored fact shows every rule that derived it, and
/// with it every fact of the derivation: for each witness there is one shown
/// with its label, whose premises each have a line below it.
#[verifier::spinoff_prover]
#[verifier::rlimit(60)]
pub proof fn explanation_complete(st: StoreV, k: KeyV, i: int)
    requires
        stored(st.rels).finite(),
        holds(st.rels, k),
        0 <= i < witnesses(st.rels, k).len(),
    ensures
        exists|s: SupportV|
            witnesses(st.rels, k).contains(s) && label(s) == label(witnesses(st.rels, k)[i]) && #[trigger] is_shown(st, s, why_text(st, k)),
{
    let w = WhyV { out: Seq::empty(), seen: Set::empty() };
    let depth = stored(st.rels).len() + 1;
    let ss = witnesses(st.rels, k);
    let pad = Seq::<char>::empty();
    assert(stored(st.rels).difference(Set::<KeyV>::empty()) =~= stored(st.rels));
    let x = derivations_shown(st, k, pad, w, depth);
    let t = choose|t: int| 0 <= t < x.0.len() && #[trigger] x.0[t] <= i && label(ss[x.0[t]]) == label(ss[i]);
    let s = ss[x.0[t]];
    let line = fact_line(pad, fact_text(st.names, k.0, k.1), st.rels[k.0].rows[row_of(st.rels[k.0], k.1)].fact);
    let text = why_text(st, k);
    assert(text =~= line + concat(x.1));
    assert(is_section(st, s, pad, x.1[t], w.seen.insert(k), (depth - 1) as nat));
    lemma_section_shown(st, s, x.1[t], w.seen.insert(k), (depth - 1) as nat, line, x.1, t);
    assert(is_shown(st, s, text));
}

proof fn lemma_section_shown(
    st: StoreV,
    s: SupportV,
    part: Seq<char>,
    seen: Set<KeyV>,
    depth: nat,
    line: Seq<char>,
    parts: Seq<Seq<char>>,
    t: int,
)
    requires
        0 <= t < parts.len(),
        parts[t] == part,
        is_section(st, s, Seq::empty(), part, seen, depth),
    ensures
        is_shown(st, s, line + concat(parts)),
{
    let pad = Seq::<char>::empty();
    match s {
        SupportV::Base => {
            let own = "  \u{21b3} asserted (base fact)\n"@;
            assert(part =~= own);
            lemma_has_itself(own);
            lemma_concat_has(parts, t, own);
            lemma_has_text_add(line, concat(parts), own);
        },
        SupportV::Rule { rule, body } => {
            let deeper = pad + "    "@;
            let lines = choose|lines: Seq<Seq<char>>|
                #![trigger concat(lines)]
                is_listing(st, body, deeper, lines, seen, depth) && part == pad + "  \u{21b3} via "@ + rule + "\n"@ + concat(lines);
            let whole = "  \u{21b3} via "@ + rule + "\n"@ + concat(lines);
            assert(part =~= whole);
            assert(deeper =~= "    "@);
            assert(is_premises(st, body, lines)) by {
                assert forall|j: int| 0 <= j < body.len() implies begins_with(
                    lines[j],
                    "    "@ + fact_text(st.names, (#[trigger] body[j]).0, body[j].1) + "  "@,
                ) by {
                    assert(is_tree(st, body[j], deeper, lines[j], seen, depth));
                }
            }
            lemma_has_itself(whole);
            lemma_concat_has(parts, t, whole);
            lemma_has_text_add(line, concat(parts), whole);
        },
    }
}

/// The texts begin with the lines of the premises, one for each.
pub open spec fn is_premises(st: StoreV, body: Seq<KeyV>, lines: Seq<Seq<char>>) -> bool {
    &&& lines.len() == body.len()
    &&& forall|j: int|
        0 <= j < body.len() ==> begins_with(lines[j], "    "@ + fact_text(st.names, (#[trigger] body[j]).0, body[j].1) + "  "@)
}

/// A text shows a support of the fact that it explains: that the fact was
/// asserted, or the rule with all its premises.
pub open spec fn is_shown(st: StoreV, s: SupportV, text: Seq<char>) -> bool {
    match s {
        SupportV::Base => has_text(text, "  \u{21b3} asserted (base fact)\n"@),
        SupportV::Rule { rule, body } => exists|lines: Seq<Seq<char>>| #[trigger]
            is_premises(st, body, lines) && has_text(text, "  \u{21b3} via "@ + rule + "\n"@ + concat(lines)),
    }
}

proof fn lemma_concat_has(parts: Seq<Seq<char>>, i: int, t: Seq<char>)
    requires
        0 <= i < parts.len(),
        has_text(parts[i], t),
    ensures
        has_text(concat(parts), t),
    decreases parts.len(),
{
    let d = parts.drop_first();
    if i > 0 {
        assert(d[i - 1] == parts[i]);
        lemma_concat_has(d, i - 1, t);
    }
    lemma_has_text_add(parts[0], concat(d), t);
}

} // verus!
