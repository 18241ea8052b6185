//! Notes: the confidence and the sources of facts. A fact that is declared
//! carries what it was declared with; a fact that is derived has the product of
//! the confidences of its premises, and all their sources; and of several ways
//! to a fact the most confident counts, with the sources of all.

use vstd::prelude::*;
use crate::ast::{AtomV, ClauseV, LitV};
use crate::builtins::after_builtin;
use crate::confidence::{clamp, conf_times, ONE_BITS, SIGN_BIT};
use crate::engine::declared;
use crate::env::{Bindings, EnvV};
use crate::evaluate::{delta_args, fire, fire_from, fire_keys, fire_rule, has_atom, start_env};
use crate::frame::{lemma_fire_rule_spares, lemma_solve_spares, same_facts, spares};
use crate::model::{
    all_known, body_true, constants_known, facts, fine, firing, going, head_fact, ids_fine, is_instance, is_plain, is_safe, kept_by,
    lemma_agrees_kept, lemma_assert_facts, lemma_bind_from_finds, lemma_bind_from_keeps, lemma_bind_from_means, lemma_builtin_finds,
    lemma_builtin_vars, lemma_delta, lemma_env_atom, lemma_env_builtin, lemma_env_pass, lemma_fire_from_keeps, lemma_fire_keys_adds,
    lemma_fire_keys_keeps, lemma_found, lemma_going_on, lemma_head_same, lemma_ids, lemma_ids_grow, lemma_negated, lemma_plain_grows,
    lemma_ready, lemma_solve_adds, lemma_solve_keeps, lemma_solve_rows_keeps, lemma_start, lemma_start_empty, lemma_within_trans,
    lit_constants_known, lit_true, occurs, within,
};
use crate::relation::{add_supports, ann_unit, has_key, rel_insert, row_of, AnnV, FactV, KeyV, SupportV, SUPPORT_CAP};
use crate::restore::known_key;
use crate::solve::{
    atom_rows, emit, env_with_row, head_values, lemma_prefix_trans, lemma_solve, lemma_solve_rows, lemma_store_assert, rule_label,
    solve, solve_rows,
};
use crate::store::{holds, rel_at, rels_wf, store_assert, RelsV, StoreV};
use crate::value::Value;

verus! {

// ---------------------------------------------------------------------- notes

/// The note of a stored fact.
pub open spec fn note(rels: RelsV, k: KeyV) -> AnnV {
    rels[k.0].rows[row_of(rels[k.0], k.1)].fact.ann
}

/// The witnesses of a stored fact.
pub open spec fn witnesses(rels: RelsV, k: KeyV) -> Seq<SupportV> {
    rels[k.0].rows[row_of(rels[k.0], k.1)].fact.supports
}

/// How high a confidence is. The two patterns of zero are as high as each
/// other.
pub open spec fn height(conf: u64) -> int {
    if conf == SIGN_BIT {
        0
    } else {
        conf as int
    }
}

/// A note says at least as much as another.
pub open spec fn covers_note(a: AnnV, b: AnnV) -> bool {
    height(a.conf) >= height(b.conf) && b.prov.subset_of(a.prov)
}

/// A note joins two notes of one fact: it has the higher confidence and the
/// sources of both.
pub open spec fn is_merge(a: AnnV, b: AnnV, r: AnnV) -> bool {
    &&& r.conf == a.conf || r.conf == b.conf
    &&& height(r.conf) >= height(a.conf)
    &&& height(r.conf) >= height(b.conf)
    &&& height(b.conf) <= height(a.conf) ==> r.conf == a.conf
    &&& forall|p: Seq<char>| #[trigger] r.prov.contains(p) <==> a.prov.contains(p) || b.prov.contains(p)
}

/// What the witnesses of a fact are after more were offered: all that there
/// were, and the new ones as long as there are fewer than four.
pub open spec fn is_more(have: Seq<SupportV>, new: Seq<SupportV>, r: Seq<SupportV>) -> bool {
    &&& have.len() <= r.len()
    &&& forall|s: SupportV| #[trigger] have.contains(s) ==> r.contains(s)
    &&& forall|s: SupportV| #[trigger] new.contains(s) ==> r.contains(s) || r.len() >= 4
    &&& forall|s: SupportV| #[trigger] r.contains(s) ==> have.contains(s) || new.contains(s)
}

proof fn lemma_add_supports(have: Seq<SupportV>, new: Seq<SupportV>)
    ensures
        is_more(have, new, add_supports(have, new)),
    decreases new.len(),
{
    let r = add_supports(have, new);
    if new.len() > 0 && have.len() < SUPPORT_CAP {
        let d = new.drop_first();
        let next = if have.contains(new[0]) {
            have
        } else {
            have.push(new[0])
        };
        lemma_add_supports(next, d);
        assert(next.contains(new[0])) by {
            if !have.contains(new[0]) {
                assert(next[have.len() as int] == new[0]);
            }
        }
        assert forall|s: SupportV| #[trigger] have.contains(s) implies next.contains(s) by {
            let x = choose|x: int| 0 <= x < have.len() && have[x] == s;
            assert(next[x] == s);
        }
        assert forall|s: SupportV| #[trigger] new.contains(s) implies s == new[0] || d.contains(s) by {
            let x = choose|x: int| 0 <= x < new.len() && new[x] == s;
            if x > 0 {
                assert(d[x - 1] == s);
            }
        }
        assert forall|s: SupportV| #[trigger] r.contains(s) implies have.contains(s) || new.contains(s) by {
            if next.contains(s) {
                let x = choose|x: int| 0 <= x < next.len() && next[x] == s;
                if x < have.len() {
                    assert(have[x] == s);
                } else {
                    assert(new[0] == s);
                }
            } else {
                let x = choose|x: int| 0 <= x < d.len() && d[x] == s;
                assert(new[x + 1] == s);
            }
        }
    }
}

pub proof fn lemma_row_of(rels: RelsV, k: KeyV, i: int)
    requires
        rels_wf(rels),
        rels.contains_key(k.0),
        0 <= i < rels[k.0].rows.len(),
        rels[k.0].rows[i].key == k.1,
    ensures
        holds(rels, k),
        row_of(rels[k.0], k.1) == i,
{
    let r = rels[k.0];
    let y = row_of(r, k.1);
    assert(has_key(r, k.1));
    assert(r.rows[y].key == k.1);
    assert(crate::relation::rel_wf(r));
}

/// Asserting a fact notes it, and leaves the notes of other facts alone.
pub proof fn lemma_assert_notes(st: StoreV, k: KeyV, f: FactV)
    requires
        rels_wf(st.rels),
    ensures
        ({
            let r = store_assert(st, k, f).rels;
            &&& rels_wf(r)
            &&& holds(r, k)
            &&& !holds(st.rels, k) ==> note(r, k) == f.ann && witnesses(r, k) == f.supports
            &&& holds(st.rels, k) ==> is_merge(note(st.rels, k), f.ann, note(r, k))
            &&& holds(st.rels, k) ==> is_more(witnesses(st.rels, k), f.supports, witnesses(r, k))
            &&& forall|j: KeyV| j != k ==> (#[trigger] holds(r, j) <==> holds(st.rels, j))
            &&& forall|j: KeyV| j != k && holds(st.rels, j) ==> #[trigger] note(r, j) == note(st.rels, j)
            &&& forall|j: KeyV| j != k && holds(st.rels, j) ==> #[trigger] witnesses(r, j) == witnesses(st.rels, j)
        }),
{
    let r = store_assert(st, k, f).rels;
    let old = rel_at(st.rels, k.0);
    let new = rel_insert(old, k.1, f);
    lemma_store_assert(st, k, f);
    lemma_assert_facts(st, k, f);
    assert(r[k.0] == new);
    if holds(st.rels, k) {
        let i = row_of(old, k.1);
        assert(has_key(old, k.1));
        assert(old.rows[i].key == k.1);
        assert(new.rows[i].key == k.1);
        lemma_row_of(r, k, i);
        lemma_add_supports(old.rows[i].fact.supports, f.supports);
    } else {
        assert(!has_key(old, k.1)) by {
            if has_key(old, k.1) {
                assert(st.rels.contains_key(k.0));
            }
        }
        assert(new.rows[old.rows.len() as int].key == k.1);
        lemma_row_of(r, k, old.rows.len() as int);
    }
    assert forall|j: KeyV| j != k && holds(st.rels, j) implies #[trigger] note(r, j) == note(st.rels, j) && witnesses(r, j) == witnesses(
        st.rels,
        j,
    ) by {
        let i = row_of(st.rels[j.0], j.1);
        assert(st.rels[j.0].rows[i].key == j.1);
        if j.0 == k.0 {
            assert(r[j.0].rows[i].key == j.1);
            lemma_row_of(r, j, i);
            if has_key(old, k.1) {
                let y = row_of(old, k.1);
                assert(old.rows[y].key == k.1);
            }
        }
    }
    assert forall|j: KeyV| j != k && holds(st.rels, j) implies #[trigger] witnesses(r, j) == witnesses(st.rels, j) by {
        assert(note(r, j) == note(st.rels, j));
    }
}

/// Law: a declared fact is stored with what it was declared with. Where it was
/// there already the higher confidence counts, and the sources of both, and its
/// witnesses stay. Every other fact stays with its note and its witnesses.
pub proof fn declaring_notes(st: StoreV, k: KeyV, ann: AnnV)
    requires
        rels_wf(st.rels),
    ensures
        ({
            let r = declared(st, k, ann).rels;
            &&& holds(r, k)
            &&& !holds(st.rels, k) ==> note(r, k) == ann && witnesses(r, k) == seq![SupportV::Base]
            &&& holds(st.rels, k) ==> is_merge(note(st.rels, k), ann, note(r, k))
            &&& holds(st.rels, k) ==> is_more(witnesses(st.rels, k), seq![SupportV::Base], witnesses(r, k))
            &&& forall|j: KeyV| j != k ==> (#[trigger] holds(r, j) <==> holds(st.rels, j))
            &&& forall|j: KeyV| j != k && holds(st.rels, j) ==> #[trigger] note(r, j) == note(st.rels, j)
            &&& forall|j: KeyV| j != k && holds(st.rels, j) ==> #[trigger] witnesses(r, j) == witnesses(st.rels, j)
        }),
{
    lemma_assert_notes(st, k, FactV { ann, supports: seq![SupportV::Base] });
}

// ------------------------------------------------------------------- products

/// The product of confidences, taken in order.
pub open spec fn product_of(notes: Seq<AnnV>) -> u64
    decreases notes.len(),
{
    if notes.len() == 0 {
        ONE_BITS
    } else {
        clamp(conf_times(product_of(notes.drop_last()), notes.last().conf))
    }
}

/// A source of one of the notes.
pub open spec fn is_source_of(notes: Seq<AnnV>, p: Seq<char>) -> bool {
    exists|i: int| 0 <= i < notes.len() && (#[trigger] notes[i]).prov.contains(p)
}

/// The note that premises give together.
pub open spec fn joint(notes: Seq<AnnV>) -> AnnV {
    AnnV { conf: product_of(notes), prov: Set::new(|p: Seq<char>| is_source_of(notes, p)) }
}

/// The notes of stored facts.
pub open spec fn notes_of(rels: RelsV, keys: Seq<KeyV>) -> Seq<AnnV> {
    keys.map_values(|k: KeyV| note(rels, k))
}

proof fn lemma_joint_push(notes: Seq<AnnV>, x: AnnV)
    ensures
        joint(notes.push(x)) == crate::relation::ann_join(joint(notes), x),
{
    let more = notes.push(x);
    assert(more.drop_last() =~= notes);
    let r = crate::relation::ann_join(joint(notes), x);
    assert forall|p: Seq<char>| joint(more).prov.contains(p) <==> #[trigger] r.prov.contains(p) by {
        if is_source_of(more, p) {
            let i = choose|i: int| 0 <= i < more.len() && (#[trigger] more[i]).prov.contains(p);
            if i < notes.len() {
                assert(notes[i].prov.contains(p));
            }
        }
        if is_source_of(notes, p) {
            let i = choose|i: int| 0 <= i < notes.len() && (#[trigger] notes[i]).prov.contains(p);
            assert(more[i].prov.contains(p));
        }
        if x.prov.contains(p) {
            assert(more[notes.len() as int].prov.contains(p));
        }
    }
    assert(joint(more).prov =~= r.prov);
}

proof fn lemma_joint_none()
    ensures
        joint(Seq::empty()) == ann_unit(),
{
    assert(joint(Seq::empty()).prov =~= Set::<Seq<char>>::empty());
}

// ------------------------------------------------------------------- premises

/// The positions of the atoms of a body from one on, but for one of them.
pub open spec fn atoms_from(c: ClauseV, i: int, skip: int) -> Seq<int>
    decreases c.body.len() - i,
{
    if i < 0 || i >= c.body.len() {
        Seq::empty()
    } else if i != skip && c.body[i] is Pos {
        seq![i] + atoms_from(c, i + 1, skip)
    } else {
        atoms_from(c, i + 1, skip)
    }
}

/// A fact is an instance of the atom at a position.
pub open spec fn is_premise(names: Seq<Seq<char>>, c: ClauseV, p: int, k: KeyV, s: Bindings) -> bool {
    match c.body[p] {
        LitV::Pos(a) => k.0 == a.pred && is_instance(names, a.args, k.1, s),
        _ => false,
    }
}

/// Facts are instances of the atoms at some positions, one for each.
pub open spec fn are_premises(names: Seq<Seq<char>>, c: ClauseV, at: Seq<int>, keys: Seq<KeyV>, s: Bindings) -> bool {
    keys.len() == at.len() && forall|t: int| 0 <= t < at.len() ==> is_premise(names, c, #[trigger] at[t], keys[t], s)
}

/// All of some facts are stored.
pub open spec fn all_held(rels: RelsV, keys: Seq<KeyV>) -> bool {
    forall|t: int| 0 <= t < keys.len() ==> holds(rels, #[trigger] keys[t])
}

/// A rule does not read what it derives.
pub open spec fn reads_others(c: ClauseV) -> bool {
    forall|j: int| 0 <= j < c.body.len() ==> (match #[trigger] c.body[j] {
        LitV::Pos(a) => a.pred != c.head.pred,
        _ => true,
    })
}

/// A rule does not negate what it derives.
pub open spec fn negates_others(c: ClauseV) -> bool {
    forall|j: int| 0 <= j < c.body.len() ==> (match #[trigger] c.body[j] {
        LitV::Neg(a) => a.pred != c.head.pred,
        _ => true,
    })
}

/// The predicate that a rule derives, by itself.
pub open spec fn own(c: ClauseV) -> Set<Seq<char>> {
    set![c.head.pred]
}

// ---------------------------------------------------------------------- growth

/// A note as it was before or as it is: it only grows.
pub open spec fn later(a: AnnV, b: AnnV) -> bool {
    covers_note(b, a) && (height(a.conf) == height(b.conf) ==> a.conf == b.conf)
}

/// A fact is there with a note that says no less than it did before, and with
/// the witnesses that it had.
spec fn is_onward(a: RelsV, b: RelsV, k: KeyV) -> bool {
    &&& holds(b, k)
    &&& later(note(a, k), note(b, k))
    &&& witnesses(a, k).len() <= witnesses(b, k).len()
    &&& forall|s: SupportV| #[trigger] witnesses(a, k).contains(s) ==> witnesses(b, k).contains(s)
}

/// Every fact is still there, with at least the note that it had.
spec fn onward(a: RelsV, b: RelsV) -> bool {
    forall|k: KeyV| #[trigger] holds(a, k) ==> is_onward(a, b, k)
}

proof fn lemma_later(a: AnnV, b: AnnV, c: AnnV)
    requires
        later(a, b),
        later(b, c),
    ensures
        later(a, c),
{
    assert(a.prov.subset_of(c.prov)) by {
        assert forall|p: Seq<char>| #[trigger] a.prov.contains(p) implies c.prov.contains(p) by {
            assert(b.prov.contains(p));
        }
    }
}

proof fn lemma_later_same(a: AnnV, b: AnnV)
    requires
        later(a, b),
        later(b, a),
    ensures
        a == b,
{
    assert(a.prov =~= b.prov) by {
        assert forall|p: Seq<char>| a.prov.contains(p) <==> b.prov.contains(p) by {}
    }
}

proof fn lemma_onward_trans(a: RelsV, b: RelsV, c: RelsV)
    requires
        onward(a, b),
        onward(b, c),
    ensures
        onward(a, c),
{
    assert forall|k: KeyV| #[trigger] holds(a, k) implies is_onward(a, c, k) by {
        assert(is_onward(a, b, k));
        assert(is_onward(b, c, k));
        lemma_later(note(a, k), note(b, k), note(c, k));
        assert forall|s: SupportV| #[trigger] witnesses(a, k).contains(s) implies witnesses(c, k).contains(s) by {
            assert(witnesses(b, k).contains(s));
        }
    }
}

proof fn lemma_onward_self(a: RelsV)
    ensures
        onward(a, a),
{
    assert forall|k: KeyV| #[trigger] holds(a, k) implies is_onward(a, a, k) by {
        assert(note(a, k).prov.subset_of(note(a, k).prov));
    }
}

proof fn lemma_onward_assert(st: StoreV, j: KeyV, f: FactV)
    requires
        rels_wf(st.rels),
    ensures
        rels_wf(store_assert(st, j, f).rels),
        onward(st.rels, store_assert(st, j, f).rels),
{
    lemma_assert_notes(st, j, f);
    let r = store_assert(st, j, f).rels;
    lemma_onward_self(st.rels);
    assert forall|k: KeyV| #[trigger] holds(st.rels, k) implies is_onward(st.rels, r, k) by {
        assert(is_onward(st.rels, st.rels, k));
        if k != j {
            assert(holds(r, k));
            assert(note(r, k) == note(st.rels, k));
            assert(witnesses(r, k) == witnesses(st.rels, k));
        } else {
            assert forall|p: Seq<char>| #[trigger] note(st.rels, k).prov.contains(p) implies note(r, k).prov.contains(p) by {}
        }
    }
}

proof fn lemma_onward_emit(st: StoreV, c: ClauseV, env: EnvV)
    requires
        rels_wf(st.rels),
    ensures
        rels_wf(emit(st, c, env).0.rels),
        onward(st.rels, emit(st, c, env).0.rels),
{
    let h = head_values(st.names, c.head.args, env.map);
    let st1 = StoreV { names: h.0, ..st };
    if let Some(args) = h.1 {
        let f = FactV { ann: env.ann, supports: seq![SupportV::Rule { rule: rule_label(c), body: env.keys }] };
        lemma_onward_assert(st1, (c.head.pred, args), f);
    } else {
        lemma_onward_self(st.rels);
    }
}

spec fn goes_onward(a: RelsV) -> spec_fn(StoreV) -> bool {
    |x: StoreV| rels_wf(x.rels) && onward(a, x.rels)
}

proof fn lemma_onward_kept(a: RelsV, c: ClauseV)
    ensures
        kept_by(goes_onward(a), c),
{
    let p = goes_onward(a);
    assert forall|st: StoreV, env: EnvV| p(st) implies #[trigger] p(emit(st, c, env).0) by {
        lemma_onward_emit(st, c, env);
        lemma_onward_trans(a, st.rels, emit(st, c, env).0.rels);
    }
}

proof fn lemma_onward_solve(st: StoreV, now: i64, c: ClauseV, i: int, skip: int, env: EnvV, out: Seq<KeyV>)
    requires
        rels_wf(st.rels),
    ensures
        onward(st.rels, solve(st, now, c, i, skip, env, out).st.rels),
{
    lemma_onward_kept(st.rels, c);
    lemma_onward_self(st.rels);
    assert(goes_onward(st.rels)(st));
    lemma_solve_keeps(goes_onward(st.rels), st, now, c, i, skip, env, out);
}

// --------------------------------------------------------------------- reading

/// A note was that of a stored fact at some time between two states: it says no
/// less than the former and no more than the latter.
pub open spec fn is_between(before: RelsV, after: RelsV, k: KeyV, a: AnnV) -> bool {
    &&& holds(after, k)
    &&& later(a, note(after, k))
    &&& holds(before, k) ==> later(note(before, k), a)
}

/// Notes were those of stored facts, each at some time between two states.
pub open spec fn were_read(before: RelsV, after: RelsV, keys: Seq<KeyV>, notes: Seq<AnnV>) -> bool {
    notes.len() == keys.len() && forall|t: int| 0 <= t < keys.len() ==> is_between(before, after, #[trigger] keys[t], notes[t])
}

proof fn lemma_read_on(before: RelsV, a: RelsV, b: RelsV, keys: Seq<KeyV>, notes: Seq<AnnV>)
    requires
        were_read(before, a, keys, notes),
        onward(a, b),
    ensures
        were_read(before, b, keys, notes),
{
    assert forall|t: int| 0 <= t < keys.len() implies is_between(before, b, #[trigger] keys[t], notes[t]) by {
        assert(is_between(before, a, keys[t], notes[t]));
        assert(is_onward(a, b, keys[t]));
        lemma_later(notes[t], note(a, keys[t]), note(b, keys[t]));
    }
}

/// One more fact is read.
proof fn lemma_read_more(before: RelsV, now: RelsV, keys: Seq<KeyV>, notes: Seq<AnnV>, k: KeyV)
    requires
        were_read(before, now, keys, notes),
        onward(before, now),
        holds(now, k),
    ensures
        were_read(before, now, keys.push(k), notes.push(note(now, k))),
        joint(notes.push(note(now, k))) == crate::relation::ann_join(joint(notes), note(now, k)),
{
    let ks = keys.push(k);
    let ns = notes.push(note(now, k));
    lemma_joint_push(notes, note(now, k));
    assert forall|t: int| 0 <= t < ks.len() implies is_between(before, now, #[trigger] ks[t], ns[t]) by {
        if t < keys.len() {
            assert(is_between(before, now, keys[t], notes[t]));
        } else {
            assert(note(now, k).prov.subset_of(note(now, k).prov));
            if holds(before, k) {
                assert(is_onward(before, now, k));
            }
        }
    }
}

/// A fact is stored, with a note that says at least as much.
pub open spec fn is_noted(rels: RelsV, k: KeyV, a: AnnV) -> bool {
    holds(rels, k) && covers_note(note(rels, k), a)
}

/// A derivation is among the witnesses of a fact, unless it has four others.
pub open spec fn is_witnessed(rels: RelsV, c: ClauseV, k: KeyV, keys: Seq<KeyV>) -> bool {
    witnesses(rels, k).contains(SupportV::Rule { rule: rule_label(c), body: keys }) || witnesses(rels, k).len() >= 4
}

/// A way to a fact counts: the fact has at least the product of the confidences
/// of all facts of the way, as they were read, and all their sources; and the way
/// is recorded while there is room.
pub open spec fn is_counted(before: RelsV, after: RelsV, c: ClauseV, k: KeyV, keys: Seq<KeyV>) -> bool {
    is_witnessed(after, c, k, keys) && exists|notes: Seq<AnnV>|
        #[trigger] were_read(before, after, keys, notes) && is_noted(after, k, joint(notes))
}

proof fn lemma_counted_on(before: RelsV, a: RelsV, b: RelsV, c: ClauseV, k: KeyV, keys: Seq<KeyV>)
    requires
        is_counted(before, a, c, k, keys),
        onward(a, b),
    ensures
        is_counted(before, b, c, k, keys),
{
    let notes = choose|notes: Seq<AnnV>| #[trigger] were_read(before, a, keys, notes) && is_noted(a, k, joint(notes));
    lemma_read_on(before, a, b, keys, notes);
    assert(is_onward(a, b, k));
    assert forall|p: Seq<char>| #[trigger] joint(notes).prov.contains(p) implies note(b, k).prov.contains(p) by {
        assert(note(a, k).prov.contains(p));
    }
    assert(is_noted(b, k, joint(notes)));
    let s = SupportV::Rule { rule: rule_label(c), body: keys };
    if witnesses(a, k).contains(s) {
        assert(witnesses(b, k).contains(s));
    }
}

spec fn stays_counted(before: RelsV, c: ClauseV, k: KeyV, keys: Seq<KeyV>) -> spec_fn(StoreV) -> bool {
    |x: StoreV| rels_wf(x.rels) && is_counted(before, x.rels, c, k, keys)
}

proof fn lemma_counted_kept(before: RelsV, c: ClauseV, k: KeyV, keys: Seq<KeyV>)
    ensures
        kept_by(stays_counted(before, c, k, keys), c),
{
    let p = stays_counted(before, c, k, keys);
    assert forall|st: StoreV, env: EnvV| p(st) implies #[trigger] p(emit(st, c, env).0) by {
        lemma_onward_emit(st, c, env);
        lemma_counted_on(before, st.rels, emit(st, c, env).0.rels, c, k, keys);
    }
}

/// Emitting notes the head.
proof fn lemma_emit_counted(st: StoreV, c: ClauseV, env: EnvV, b: Seq<Seq<char>>, s: Bindings, st0: StoreV, read: Seq<AnnV>)
    requires
        fine(st, b),
        emit(st, c, env).0.names.is_prefix_of(b),
        within(env.map, s),
        head_fact(b, c, s) is Some,
        forall|v: Seq<char>| #[trigger] occurs(c.head.args, v) ==> env.map.contains_key(v),
        env.ann == joint(read),
        were_read(st0.rels, st.rels, env.keys, read),
    ensures
        is_counted(st0.rels, emit(st, c, env).0.rels, c, head_fact(b, c, s)->Some_0, env.keys),
{
    crate::solve::lemma_emit(st, c, env);
    lemma_head_same(st.names, b, c.head.args, 0, env.map, s, Seq::empty());
    let h = head_values(st.names, c.head.args, env.map);
    let k = (c.head.pred, h.1->Some_0);
    let sup = SupportV::Rule { rule: rule_label(c), body: env.keys };
    let f = FactV { ann: env.ann, supports: seq![sup] };
    lemma_assert_notes(StoreV { names: h.0, ..st }, k, f);
    lemma_onward_emit(st, c, env);
    let r = emit(st, c, env).0.rels;
    assert forall|p: Seq<char>| #[trigger] env.ann.prov.contains(p) implies note(r, k).prov.contains(p) by {}
    lemma_read_on(st0.rels, st.rels, r, env.keys, read);
    assert(is_noted(r, k, joint(read)));
    assert(f.supports[0] == sup);
    assert(f.supports.contains(sup));
}

// ------------------------------------------------------------------- every way

/// Solving the rest of a body counts every solution, with what was joined and
/// the premises that are left.
proof fn lemma_solve_counted(
    st: StoreV,
    now: i64,
    c: ClauseV,
    i: int,
    skip: int,
    env: EnvV,
    out: Seq<KeyV>,
    b: Seq<Seq<char>>,
    m: Set<KeyV>,
    n: Set<KeyV>,
    s: Bindings,
    st0: StoreV,
    read: Seq<AnnV>,
    keys: Seq<KeyV>,
)
    requires
        going(st, c, i, skip, env.map, b, n, own(c)),
        onward(st0.rels, st.rels),
        solve(st, now, c, i, skip, env, out).st.names.is_prefix_of(b),
        within(env.map, s),
        body_true(b, now, c, m, n, s),
        head_fact(b, c, s) is Some,
        env.ann == joint(read),
        were_read(st0.rels, st.rels, env.keys, read),
        are_premises(b, c, atoms_from(c, i, skip), keys, s),
        all_held(st0.rels, keys),
    ensures
        is_counted(
            st0.rels,
            solve(st, now, c, i, skip, env, out).st.rels,
            c,
            head_fact(b, c, s)->Some_0,
            env.keys + keys,
        ),
    decreases c.body.len() - i, 1int, 0int,
{
    if i >= c.body.len() {
        crate::solve::lemma_emit(st, c, env);
        assert forall|v: Seq<char>| #[trigger] occurs(c.head.args, v) implies env.map.contains_key(v) by {
            assert(crate::model::given(c, i, v));
        }
        lemma_emit_counted(st, c, env, b, s, st0, read);
        assert(env.keys + keys =~= env.keys);
    } else if i == skip {
        lemma_env_pass(st.names, c, i, skip, env.map);
        lemma_solve_counted(st, now, c, i + 1, skip, env, out, b, m, n, s, st0, read, keys);
    } else {
        assert(lit_true(b, now, c.body[i], m, n, s));
        match c.body[i] {
            LitV::Pos(a) => {
                let at = atoms_from(c, i, skip);
                assert(at[0] == i);
                let k = keys[0];
                assert(is_premise(b, c, at[0], k, s));
                assert(holds(st0.rels, keys[0]));
                assert(is_onward(st0.rels, st.rels, k));
                assert(k == (a.pred, k.1));
                assert(known_key(st.names, k.1));
                lemma_bind_from_finds(st.names, b, a.args, k.1, 0, env.map, s);
                let x = lemma_found(st, a, env.map, k.1);
                lemma_ids(st, a, env.map);
                lemma_rows_counted(
                    st,
                    now,
                    c,
                    i,
                    skip,
                    env,
                    out,
                    a,
                    atom_rows(st, a, env.map),
                    b,
                    m,
                    n,
                    s,
                    st0,
                    read,
                    keys,
                    x,
                );
            },
            LitV::Neg(a) => {
                lemma_negated(st, c, i, skip, env.map, b, n, own(c), a, s);
                lemma_env_pass(st.names, c, i, skip, env.map);
                lemma_solve_counted(st, now, c, i + 1, skip, env, out, b, m, n, s, st0, read, keys);
            },
            lit => {
                lemma_ready(st.names, c, i, skip, env.map);
                assert(lit_constants_known(st.names, c.body[i]));
                lemma_builtin_finds(st.names, b, now, lit, env.map, s, m, n);
                lemma_env_builtin(st.names, now, c, i, skip, env.map);
                let map = after_builtin(st.names, now, lit, env.map)->Some_0;
                lemma_solve_counted(st, now, c, i + 1, skip, EnvV { map, ..env }, out, b, m, n, s, st0, read, keys);
            },
        }
    }
}

proof fn lemma_rows_counted(
    st: StoreV,
    now: i64,
    c: ClauseV,
    i: int,
    skip: int,
    env: EnvV,
    out: Seq<KeyV>,
    a: AtomV,
    ids: Seq<int>,
    b: Seq<Seq<char>>,
    m: Set<KeyV>,
    n: Set<KeyV>,
    s: Bindings,
    st0: StoreV,
    read: Seq<AnnV>,
    keys: Seq<KeyV>,
    x: int,
)
    requires
        going(st, c, i, skip, env.map, b, n, own(c)),
        onward(st0.rels, st.rels),
        0 <= i < c.body.len(),
        i != skip,
        c.body[i] == LitV::Pos(a),
        ids_fine(st, a, ids),
        solve_rows(st, now, c, i, skip, env, out, a, ids).st.names.is_prefix_of(b),
        within(env.map, s),
        body_true(b, now, c, m, n, s),
        head_fact(b, c, s) is Some,
        env.ann == joint(read),
        were_read(st0.rels, st.rels, env.keys, read),
        are_premises(b, c, atoms_from(c, i, skip), keys, s),
        all_held(st0.rels, keys),
        0 <= x < ids.len(),
        st.rels[a.pred].rows[ids[x]].key == keys[0].1,
    ensures
        is_counted(
            st0.rels,
            solve_rows(st, now, c, i, skip, env, out, a, ids).st.rels,
            c,
            head_fact(b, c, s)->Some_0,
            env.keys + keys,
        ),
    decreases c.body.len() - i, 0int, ids.len(),
{
    let more = ids.drop_first();
    let at = atoms_from(c, i, skip);
    assert(at[0] == i);
    let k = keys[0];
    let key = k.1;
    assert(is_premise(b, c, at[0], k, s));
    assert(holds(st0.rels, keys[0]));
    assert(is_onward(st0.rels, st.rels, k));
    assert(known_key(st.names, key));
    crate::solve::lemma_store_extends_self(st);
    lemma_ids_grow(st, st, a, ids);
    if x == 0 {
        lemma_bind_from_finds(st.names, b, a.args, key, 0, env.map, s);
    } else {
        assert(more[x - 1] == ids[x]);
    }
    match env_with_row(st, a, ids[0], env) {
        None => {
            lemma_rows_counted(st, now, c, i, skip, env, out, a, more, b, m, n, s, st0, read, keys, x - 1);
        },
        Some(e) => {
            let row = st.rels[a.pred].rows[ids[0]];
            assert(holds(st.rels, (a.pred, row.key)));
            lemma_env_atom(st.names, c, i, skip, env.map, a, row.key);
            let r = solve(st, now, c, i + 1, skip, e, out);
            let rest = solve_rows(r.st, now, c, i, skip, env, r.out, a, more);
            lemma_solve(st, now, c, i + 1, skip, e, out);
            lemma_solve_rows(r.st, now, c, i, skip, env, r.out, a, more);
            lemma_prefix_trans(r.st.names, rest.st.names, b);
            lemma_solve_adds(st, now, c, i + 1, skip, e, out, b);
            let head = head_fact(b, c, s)->Some_0;
            let body = env.keys + keys;
            if x == 0 {
                let left = keys.drop_first();
                lemma_row_of(st.rels, k, ids[0]);
                assert(row.fact.ann == note(st.rels, k));
                lemma_read_more(st0.rels, st.rels, env.keys, read, k);
                assert(are_premises(b, c, atoms_from(c, i + 1, skip), left, s)) by {
                    let next = atoms_from(c, i + 1, skip);
                    assert(at =~= seq![i] + next);
                    assert forall|t: int| 0 <= t < next.len() implies is_premise(b, c, #[trigger] next[t], left[t], s) by {
                        assert(at[t + 1] == next[t]);
                        assert(is_premise(b, c, at[t + 1], keys[t + 1], s));
                    }
                }
                assert(all_held(st0.rels, left)) by {
                    assert forall|t: int| 0 <= t < left.len() implies holds(st0.rels, #[trigger] left[t]) by {
                        assert(left[t] == keys[t + 1]);
                    }
                }
                lemma_solve_counted(st, now, c, i + 1, skip, e, out, b, m, n, s, st0, read.push(note(st.rels, k)), left);
                assert(e.keys + left =~= body);
                lemma_counted_kept(st0.rels, c, head, body);
                assert(stays_counted(st0.rels, c, head, body)(r.st));
                lemma_solve_rows_keeps(stays_counted(st0.rels, c, head, body), r.st, now, c, i, skip, env, r.out, a, more);
            } else {
                lemma_solve_spares(st, now, c, i + 1, skip, e, out, own(c));
                lemma_onward_solve(st, now, c, i + 1, skip, e, out);
                lemma_onward_trans(st0.rels, st.rels, r.st.rels);
                lemma_read_on(st0.rels, st.rels, r.st.rels, env.keys, read);
                lemma_going_on(st, r.st, c, i, skip, env.map, b, n, own(c));
                lemma_ids_grow(st, r.st, a, ids);
                assert(st.rels.contains_key(a.pred));
                assert(0 <= ids[x] < st.rels[a.pred].rows.len());
                assert(r.st.rels[a.pred].rows[more[x - 1]].key == key);
                lemma_rows_counted(r.st, now, c, i, skip, env, r.out, a, more, b, m, n, s, st0, read, keys, x - 1);
            }
        },
    }
}

proof fn lemma_keys_counted(
    st: StoreV,
    now: i64,
    c: ClauseV,
    ai: int,
    a: AtomV,
    tuples: Seq<Seq<Value>>,
    out: Seq<KeyV>,
    b: Seq<Seq<char>>,
    m: Set<KeyV>,
    n: Set<KeyV>,
    s: Bindings,
    st0: StoreV,
    keys: Seq<KeyV>,
    x: int,
)
    requires
        firing(st, b, n, own(c)),
        is_plain(st.names, c, own(c)),
        onward(st0.rels, st.rels),
        0 <= ai < c.body.len(),
        c.body[ai] == LitV::Pos(a),
        fire_keys(st, now, c, ai, a, tuples, out).st.names.is_prefix_of(b),
        body_true(b, now, c, m, n, s),
        head_fact(b, c, s) is Some,
        are_premises(b, c, seq![ai] + atoms_from(c, 0, ai), keys, s),
        all_held(st0.rels, keys),
        0 <= x < tuples.len(),
        tuples[x] == keys[0].1,
    ensures
        is_counted(
            st0.rels,
            fire_keys(st, now, c, ai, a, tuples, out).st.rels,
            c,
            head_fact(b, c, s)->Some_0,
            keys,
        ),
    decreases tuples.len(),
{
    let more = tuples.drop_first();
    let at = seq![ai] + atoms_from(c, 0, ai);
    let k = keys[0];
    assert(at[0] == ai);
    assert(is_premise(b, c, at[0], k, s));
    assert(holds(st0.rels, keys[0]));
    assert(is_onward(st0.rels, st.rels, k));
    assert(k == (a.pred, k.1));
    if x == 0 {
        assert(within(Map::<Seq<char>, Value>::empty(), s));
        assert(known_key(st.names, k.1));
        lemma_bind_from_finds(st.names, b, a.args, k.1, 0, Map::empty(), s);
    } else {
        assert(more[x - 1] == tuples[x]);
    }
    match start_env(st, a, tuples[0]) {
        None => {
            lemma_keys_counted(st, now, c, ai, a, more, out, b, m, n, s, st0, keys, x - 1);
        },
        Some(env) => {
            lemma_start(st, c, ai, a, tuples[0], b, n, own(c));
            let r = solve(st, now, c, 0, ai, env, out);
            lemma_solve(st, now, c, 0, ai, env, out);
            crate::evaluate::lemma_fire_keys(r.st, now, c, ai, a, more, r.out);
            let f = fire_keys(r.st, now, c, ai, a, more, r.out);
            lemma_prefix_trans(r.st.names, f.st.names, b);
            let head = head_fact(b, c, s)->Some_0;
            if x == 0 {
                let left = keys.drop_first();
                let none = Seq::<KeyV>::empty();
                let first = Seq::<AnnV>::empty().push(note(st.rels, k));
                lemma_joint_none();
                assert(were_read(st0.rels, st.rels, none, Seq::empty()));
                lemma_read_more(st0.rels, st.rels, none, Seq::empty(), k);
                assert(env.keys =~= none.push(k));
                let next = atoms_from(c, 0, ai);
                assert(are_premises(b, c, next, left, s)) by {
                    assert forall|t: int| 0 <= t < next.len() implies is_premise(b, c, #[trigger] next[t], left[t], s) by {
                        assert(at[t + 1] == next[t]);
                        assert(is_premise(b, c, at[t + 1], keys[t + 1], s));
                    }
                }
                assert(all_held(st0.rels, left)) by {
                    assert forall|t: int| 0 <= t < left.len() implies holds(st0.rels, #[trigger] left[t]) by {
                        assert(left[t] == keys[t + 1]);
                    }
                }
                lemma_solve_counted(st, now, c, 0, ai, env, out, b, m, n, s, st0, first, left);
                assert(env.keys + left =~= keys);
                lemma_counted_kept(st0.rels, c, head, keys);
                assert(stays_counted(st0.rels, c, head, keys)(r.st));
                lemma_fire_keys_keeps(stays_counted(st0.rels, c, head, keys), r.st, now, c, ai, a, more, r.out);
            } else {
                lemma_solve_adds(st, now, c, 0, ai, env, out, b);
                lemma_solve_spares(st, now, c, 0, ai, env, out, own(c));
                lemma_onward_solve(st, now, c, 0, ai, env, out);
                lemma_onward_trans(st0.rels, st.rels, r.st.rels);
                lemma_agrees_kept(n, st.rels, r.st.rels, own(c));
                lemma_plain_grows(st.names, r.st.names, c, own(c));
                lemma_keys_counted(r.st, now, c, ai, a, more, r.out, b, m, n, s, st0, keys, x - 1);
            }
        },
    }
}

proof fn lemma_from_counted(
    st: StoreV,
    now: i64,
    c: ClauseV,
    i: int,
    ai: int,
    delta: Set<KeyV>,
    out: Seq<KeyV>,
    b: Seq<Seq<char>>,
    m: Set<KeyV>,
    n: Set<KeyV>,
    s: Bindings,
    st0: StoreV,
    keys: Seq<KeyV>,
)
    requires
        firing(st, b, n, own(c)),
        is_plain(st.names, c, own(c)),
        onward(st0.rels, st.rels),
        0 <= i <= ai < c.body.len(),
        c.body[ai] is Pos,
        fire_from(st, now, c, i, delta, out).st.names.is_prefix_of(b),
        body_true(b, now, c, m, n, s),
        head_fact(b, c, s) is Some,
        are_premises(b, c, seq![ai] + atoms_from(c, 0, ai), keys, s),
        all_held(st0.rels, keys),
        delta.finite(),
        delta.contains(keys[0]),
    ensures
        is_counted(st0.rels, fire_from(st, now, c, i, delta, out).st.rels, c, head_fact(b, c, s)->Some_0, keys),
    decreases c.body.len() - i,
{
    let r = fire(st, now, c, i, delta, out);
    let f = fire_from(r.st, now, c, i + 1, delta, r.out);
    let head = head_fact(b, c, s)->Some_0;
    if let LitV::Pos(a) = c.body[i] {
        crate::evaluate::lemma_fire_keys(st, now, c, i, a, delta_args(delta, a.pred), out);
    } else {
        crate::solve::lemma_store_extends_self(st);
    }
    crate::evaluate::lemma_fire_from(r.st, now, c, i + 1, delta, r.out);
    lemma_prefix_trans(r.st.names, f.st.names, b);
    if i == ai {
        let a = c.body[i]->Pos_0;
        let at = seq![ai] + atoms_from(c, 0, ai);
        assert(at[0] == ai);
        assert(is_premise(b, c, at[0], keys[0], s));
        assert(keys[0] == (a.pred, keys[0].1));
        let x = lemma_delta(delta, a.pred, keys[0].1);
        lemma_keys_counted(st, now, c, i, a, delta_args(delta, a.pred), out, b, m, n, s, st0, keys, x);
        lemma_counted_kept(st0.rels, c, head, keys);
        assert(stays_counted(st0.rels, c, head, keys)(r.st));
        lemma_fire_from_keeps(stays_counted(st0.rels, c, head, keys), r.st, now, c, i + 1, delta, r.out);
    } else {
        if let LitV::Pos(a) = c.body[i] {
            lemma_fire_keys_adds(st, now, c, i, a, delta_args(delta, a.pred), out, b, n, own(c));
            lemma_onward_kept(st.rels, c);
            lemma_onward_self(st.rels);
            assert(goes_onward(st.rels)(st));
            lemma_fire_keys_keeps(goes_onward(st.rels), st, now, c, i, a, delta_args(delta, a.pred), out);
            lemma_onward_trans(st0.rels, st.rels, r.st.rels);
            lemma_plain_grows(st.names, r.st.names, c, own(c));
        }
        lemma_from_counted(r.st, now, c, i + 1, ai, delta, r.out, b, m, n, s, st0, keys);
    }
}

/// A solution of a rule in a store: facts, one for each atom, with one of them
/// among the given ones and taken first.
pub open spec fn is_solution(
    st: StoreV,
    names: Seq<Seq<char>>,
    now: i64,
    c: ClauseV,
    delta: Set<KeyV>,
    s: Bindings,
    ai: int,
    keys: Seq<KeyV>,
) -> bool {
    &&& 0 <= ai < c.body.len()
    &&& c.body[ai] is Pos
    &&& are_premises(names, c, seq![ai] + atoms_from(c, 0, ai), keys, s)
    &&& all_held(st.rels, keys)
    &&& delta.contains(keys[0])
    &&& body_true(names, now, c, facts(st.rels), facts(st.rels), s)
    &&& head_fact(names, c, s) is Some
}

/// A rule and a store that it is fired over. The rule is safe, compares with
/// known constants and does not negate what it derives.
pub open spec fn is_fireable(st: StoreV, names: Seq<Seq<char>>, c: ClauseV) -> bool {
    &&& rels_wf(st.rels)
    &&& all_known(st)
    &&& is_safe(c)
    &&& constants_known(st.names, c)
    &&& negates_others(c)
    &&& names.no_duplicates()
    &&& names.len() < usize::MAX
}

/// Law: every way to a fact counts. Where a rule is fired and its body is true
/// with some facts, one for each of its atoms, its head is noted with at least
/// the product of the confidences of all those facts, as they were when they
/// were joined, and with all their sources, however many they are; and the way
/// is recorded, with all of them, while the fact has fewer than four witnesses.
pub proof fn every_way_counts(
    st: StoreV,
    now: i64,
    c: ClauseV,
    delta: Set<KeyV>,
    out: Seq<KeyV>,
    s: Bindings,
    ai: int,
    keys: Seq<KeyV>,
)
    requires
        is_fireable(st, fire_rule(st, now, c, delta, out).st.names, c),
        delta.finite(),
        is_solution(st, fire_rule(st, now, c, delta, out).st.names, now, c, delta, s, ai, keys),
    ensures
        ({
            let r = fire_rule(st, now, c, delta, out).st;
            is_counted(st.rels, r.rels, c, head_fact(r.names, c, s)->Some_0, keys)
        }),
{
    let r = fire_rule(st, now, c, delta, out).st;
    let b = r.names;
    crate::evaluate::lemma_fire_rule(st, now, c, delta, out);
    assert(has_atom(c));
    assert(b.is_prefix_of(b));
    lemma_onward_self(st.rels);
    lemma_from_counted(st, now, c, 0, ai, delta, out, b, facts(st.rels), facts(st.rels), s, st, keys);
}

/// Law: the same where the rule does not read what it derives, with the facts'
/// notes as they are: the head has at least the product of the confidences of
/// all the facts it follows from, and every source of each.
pub proof fn every_way_noted(
    st: StoreV,
    now: i64,
    c: ClauseV,
    delta: Set<KeyV>,
    out: Seq<KeyV>,
    s: Bindings,
    ai: int,
    keys: Seq<KeyV>,
)
    requires
        is_fireable(st, fire_rule(st, now, c, delta, out).st.names, c),
        reads_others(c),
        delta.finite(),
        is_solution(st, fire_rule(st, now, c, delta, out).st.names, now, c, delta, s, ai, keys),
    ensures
        ({
            let r = fire_rule(st, now, c, delta, out).st;
            let k = head_fact(r.names, c, s)->Some_0;
            &&& holds(r.rels, k)
            &&& height(note(r.rels, k).conf) >= height(product_of(notes_of(st.rels, keys)))
            &&& forall|j: int, p: Seq<char>|
                0 <= j < keys.len() && #[trigger] note(st.rels, keys[j]).prov.contains(p) ==> note(r.rels, k).prov.contains(p)
        }),
{
    let r = fire_rule(st, now, c, delta, out).st;
    let k = head_fact(r.names, c, s)->Some_0;
    every_way_counts(st, now, c, delta, out, s, ai, keys);
    lemma_fire_rule_spares(st, now, c, delta, out, own(c));
    let notes = choose|notes: Seq<AnnV>| #[trigger] were_read(st.rels, r.rels, keys, notes) && is_noted(r.rels, k, joint(notes));
    let at = seq![ai] + atoms_from(c, 0, ai);
    assert forall|t: int| 0 <= t < keys.len() implies (#[trigger] keys[t]).0 != c.head.pred by {
        assert(is_premise(r.names, c, at[t], keys[t], s));
        lemma_atoms_in(c, 0, ai);
        assert(0 <= at[t] < c.body.len()) by {
            if t > 0 {
                assert(at[t] == atoms_from(c, 0, ai)[t - 1]);
            }
        }
        assert(c.body[at[t]] is Pos);
    }
    lemma_read_alone(st.rels, r.rels, c, keys, notes);
    let ns = notes_of(st.rels, keys);
    assert forall|j: int, p: Seq<char>|
        0 <= j < keys.len() && #[trigger] note(st.rels, keys[j]).prov.contains(p) implies note(r.rels, k).prov.contains(p) by {
        assert(ns[j].prov.contains(p));
        assert(is_source_of(ns, p));
        assert(joint(ns).prov.contains(p));
    }
}

/// What a rule does not derive was read as it is.
proof fn lemma_read_alone(before: RelsV, after: RelsV, c: ClauseV, keys: Seq<KeyV>, notes: Seq<AnnV>)
    requires
        were_read(before, after, keys, notes),
        spares(before, after, own(c)),
        forall|t: int| 0 <= t < keys.len() ==> (#[trigger] keys[t]).0 != c.head.pred,
    ensures
        notes == notes_of(before, keys),
        all_held(before, keys),
{
    assert forall|t: int| 0 <= t < keys.len() implies holds(before, #[trigger] keys[t]) && notes[t] == note(before, keys[t]) by {
        assert(is_between(before, after, keys[t], notes[t]));
        assert(same_facts(before, after, keys[t].0));
        lemma_later_same(notes[t], note(before, keys[t]));
    }
    assert(notes =~= notes_of(before, keys));
}

proof fn lemma_atoms_in(c: ClauseV, i: int, skip: int)
    ensures
        forall|t: int| 0 <= t < atoms_from(c, i, skip).len() ==> 0 <= #[trigger] atoms_from(c, i, skip)[t] < c.body.len(),
    decreases c.body.len() - i,
{
    if 0 <= i < c.body.len() {
        lemma_atoms_in(c, i + 1, skip);
        let next = atoms_from(c, i + 1, skip);
        if i != skip && c.body[i] is Pos {
            let all = seq![i] + next;
            assert forall|t: int| 0 <= t < all.len() implies 0 <= #[trigger] all[t] < c.body.len() by {
                if t > 0 {
                    assert(all[t] == next[t - 1]);
                }
            }
        }
    }
}

// --------------------------------------------------------------------- no other

/// Facts that a rule derives a fact from: an instance of each of its atoms,
/// all stored, under bindings that give the head.
pub open spec fn is_way(rels: RelsV, names: Seq<Seq<char>>, c: ClauseV, k: KeyV, keys: Seq<KeyV>) -> bool {
    all_held(rels, keys) && exists|at: Seq<int>, s: Bindings|
        #[trigger] are_premises(names, c, at, keys, s) && is_order(c, at) && head_fact(names, c, s) == Some(k)
}

/// All atoms of a body, one of them first and the others in order.
pub open spec fn is_order(c: ClauseV, at: Seq<int>) -> bool {
    exists|skip: int| #[trigger] first_of(c, skip) + atoms_from(c, 0, skip) == at
}

/// The atom that is taken first, if there is one.
pub open spec fn first_of(c: ClauseV, skip: int) -> Seq<int> {
    if 0 <= skip < c.body.len() {
        seq![skip]
    } else {
        Seq::empty()
    }
}

/// A way to a fact, with the notes of its facts as they were read.
pub open spec fn is_read_way(
    before: RelsV,
    after: RelsV,
    names: Seq<Seq<char>>,
    c: ClauseV,
    k: KeyV,
    keys: Seq<KeyV>,
    notes: Seq<AnnV>,
) -> bool {
    is_way(after, names, c, k, keys) && were_read(before, after, keys, notes)
}

/// The note of a fact comes from what it was, and from the ways that a rule
/// gives to it.
pub open spec fn note_grounded(before: RelsV, after: RelsV, names: Seq<Seq<char>>, c: ClauseV, k: KeyV, a: AnnV) -> bool {
    &&& (holds(before, k) && a.conf == note(before, k).conf) || exists|keys: Seq<KeyV>, notes: Seq<AnnV>|
        #[trigger] is_read_way(before, after, names, c, k, keys, notes) && a.conf == product_of(notes)
    &&& forall|p: Seq<char>| #[trigger] a.prov.contains(p) ==> source_grounded(before, after, names, c, k, p)
}

/// A source comes from what a fact had, and from the ways that a rule gives to
/// it.
pub open spec fn source_grounded(before: RelsV, after: RelsV, names: Seq<Seq<char>>, c: ClauseV, k: KeyV, p: Seq<char>) -> bool {
    (holds(before, k) && note(before, k).prov.contains(p)) || exists|keys: Seq<KeyV>, notes: Seq<AnnV>|
        #[trigger] is_read_way(before, after, names, c, k, keys, notes) && is_source_of(notes, p)
}

/// A witness is one that a fact had, or a way that a rule gives to it, with all
/// its facts.
pub open spec fn witness_grounded(before: RelsV, after: RelsV, names: Seq<Seq<char>>, c: ClauseV, k: KeyV, s: SupportV) -> bool {
    (holds(before, k) && witnesses(before, k).contains(s)) || exists|keys: Seq<KeyV>|
        #[trigger] is_way(after, names, c, k, keys) && s == (SupportV::Rule { rule: rule_label(c), body: keys })
}

/// What is known of a fact comes from what was known, and from the ways that a
/// rule gives to it.
pub open spec fn is_grounded(before: RelsV, after: RelsV, names: Seq<Seq<char>>, c: ClauseV, k: KeyV) -> bool {
    &&& note_grounded(before, after, names, c, k, note(after, k))
    &&& forall|s: SupportV| #[trigger] witnesses(after, k).contains(s) ==> witness_grounded(before, after, names, c, k, s)
}

spec fn all_grounded(st0: StoreV, b: Seq<Seq<char>>, c: ClauseV, st: StoreV) -> bool {
    &&& rels_wf(st.rels)
    &&& onward(st0.rels, st.rels)
    &&& forall|k: KeyV| #[trigger] holds(st.rels, k) ==> is_grounded(st0.rels, st.rels, b, c, k)
}

proof fn lemma_way_on(a: RelsV, b: RelsV, names: Seq<Seq<char>>, c: ClauseV, k: KeyV, keys: Seq<KeyV>)
    requires
        is_way(a, names, c, k, keys),
        onward(a, b),
    ensures
        is_way(b, names, c, k, keys),
{
    assert forall|t: int| 0 <= t < keys.len() implies holds(b, #[trigger] keys[t]) by {
        assert(holds(a, keys[t]));
        assert(is_onward(a, b, keys[t]));
    }
}

proof fn lemma_note_on(before: RelsV, x: RelsV, y: RelsV, b: Seq<Seq<char>>, c: ClauseV, k: KeyV, a: AnnV)
    requires
        note_grounded(before, x, b, c, k, a),
        onward(x, y),
    ensures
        note_grounded(before, y, b, c, k, a),
{
    assert forall|keys: Seq<KeyV>, notes: Seq<AnnV>| #[trigger] is_read_way(before, x, b, c, k, keys, notes) implies is_read_way(
        before,
        y,
        b,
        c,
        k,
        keys,
        notes,
    ) by {
        lemma_way_on(x, y, b, c, k, keys);
        lemma_read_on(before, x, y, keys, notes);
    }
    assert forall|p: Seq<char>| #[trigger] a.prov.contains(p) implies source_grounded(before, y, b, c, k, p) by {
        assert(source_grounded(before, x, b, c, k, p));
    }
}

proof fn lemma_witness_on(before: RelsV, x: RelsV, y: RelsV, b: Seq<Seq<char>>, c: ClauseV, k: KeyV, s: SupportV)
    requires
        witness_grounded(before, x, b, c, k, s),
        onward(x, y),
    ensures
        witness_grounded(before, y, b, c, k, s),
{
    assert forall|keys: Seq<KeyV>| #[trigger] is_way(x, b, c, k, keys) implies is_way(y, b, c, k, keys) by {
        lemma_way_on(x, y, b, c, k, keys);
    }
}

/// The positions of the atoms before a position, but for one of them.
spec fn atoms_upto(c: ClauseV, i: int, skip: int) -> Seq<int>
    decreases i,
{
    if i <= 0 {
        Seq::empty()
    } else if i - 1 != skip && c.body[i - 1] is Pos {
        atoms_upto(c, i - 1, skip).push(i - 1)
    } else {
        atoms_upto(c, i - 1, skip)
    }
}

proof fn lemma_atoms_split(c: ClauseV, i: int, skip: int)
    requires
        0 <= i <= c.body.len(),
    ensures
        atoms_upto(c, i, skip) + atoms_from(c, i, skip) == atoms_from(c, 0, skip),
    decreases i,
{
    if i > 0 {
        lemma_atoms_split(c, i - 1, skip);
        assert(atoms_upto(c, i, skip) + atoms_from(c, i, skip) =~= atoms_upto(c, i - 1, skip) + atoms_from(c, i - 1, skip));
    } else {
        assert(atoms_upto(c, i, skip) + atoms_from(c, i, skip) =~= atoms_from(c, 0, skip));
    }
}

/// What was joined so far: the facts are stored premises, and the note is theirs
/// together.
spec fn env_grounded(st0: StoreV, st: StoreV, b: Seq<Seq<char>>, c: ClauseV, i: int, skip: int, env: EnvV, read: Seq<AnnV>) -> bool {
    &&& were_read(st0.rels, st.rels, env.keys, read)
    &&& env.ann == joint(read)
    &&& forall|s: Bindings| #[trigger] within(env.map, s) ==> are_premises(b, c, first_of(c, skip) + atoms_upto(c, i, skip), env.keys, s)
}

proof fn lemma_emit_grounded(st0: StoreV, st: StoreV, c: ClauseV, skip: int, env: EnvV, b: Seq<Seq<char>>, read: Seq<AnnV>)
    requires
        fine(st, b),
        emit(st, c, env).0.names.is_prefix_of(b),
        all_grounded(st0, b, c, st),
        env_grounded(st0, st, b, c, c.body.len() as int, skip, env, read),
        forall|v: Seq<char>| #[trigger] occurs(c.head.args, v) ==> env.map.contains_key(v),
    ensures
        all_grounded(st0, b, c, emit(st, c, env).0),
{
    let r = emit(st, c, env).0;
    let h = head_values(st.names, c.head.args, env.map);
    let st1 = StoreV { names: h.0, ..st };
    let s = env.map;
    crate::solve::lemma_emit(st, c, env);
    lemma_onward_emit(st, c, env);
    lemma_onward_trans(st0.rels, st.rels, r.rels);
    if let Some(args) = h.1 {
        let k: KeyV = (c.head.pred, args);
        let sup = SupportV::Rule { rule: rule_label(c), body: env.keys };
        let f = FactV { ann: env.ann, supports: seq![sup] };
        let len = c.body.len() as int;
        let at = first_of(c, skip) + atoms_upto(c, len, skip);
        assert(within(env.map, s));
        lemma_head_same(st.names, b, c.head.args, 0, env.map, s, Seq::empty());
        assert(head_fact(b, c, s) == Some(k));
        lemma_atoms_split(c, len, skip);
        assert(atoms_upto(c, len, skip) + atoms_from(c, len, skip) =~= atoms_upto(c, len, skip));
        assert(first_of(c, skip) + atoms_from(c, 0, skip) == at);
        assert(is_order(c, at));
        assert(are_premises(b, c, at, env.keys, s));
        lemma_read_on(st0.rels, st.rels, r.rels, env.keys, read);
        assert forall|t: int| 0 <= t < env.keys.len() implies holds(r.rels, #[trigger] env.keys[t]) by {
            assert(is_between(st0.rels, r.rels, env.keys[t], read[t]));
        }
        assert(is_way(r.rels, b, c, k, env.keys));
        assert(is_read_way(st0.rels, r.rels, b, c, k, env.keys, read));
        lemma_assert_notes(st1, k, f);
        assert(note_grounded(st0.rels, r.rels, b, c, k, env.ann)) by {
            assert forall|p: Seq<char>| #[trigger] env.ann.prov.contains(p) implies source_grounded(st0.rels, r.rels, b, c, k, p) by {
                assert(is_source_of(read, p));
            }
        }
        assert(witness_grounded(st0.rels, r.rels, b, c, k, sup));
        assert forall|j: KeyV| #[trigger] holds(r.rels, j) implies is_grounded(st0.rels, r.rels, b, c, j) by {
            if j != k || holds(st1.rels, k) {
                assert(holds(st1.rels, j));
                assert(holds(st.rels, j));
                assert(is_grounded(st0.rels, st.rels, b, c, j));
                lemma_note_on(st0.rels, st.rels, r.rels, b, c, j, note(st.rels, j));
                if j != k {
                    assert(note(r.rels, j) == note(st1.rels, j));
                    assert(witnesses(r.rels, j) == witnesses(st1.rels, j));
                } else {
                    lemma_merge_grounded(st0.rels, r.rels, b, c, k, note(st.rels, k), env.ann, note(r.rels, k));
                }
                assert forall|x: SupportV| #[trigger] witnesses(r.rels, j).contains(x) implies witness_grounded(
                    st0.rels,
                    r.rels,
                    b,
                    c,
                    j,
                    x,
                ) by {
                    if witnesses(st.rels, j).contains(x) {
                        lemma_witness_on(st0.rels, st.rels, r.rels, b, c, j, x);
                    } else {
                        assert(f.supports.contains(x));
                        assert(x == sup);
                    }
                }
            } else {
                assert forall|x: SupportV| #[trigger] witnesses(r.rels, j).contains(x) implies witness_grounded(
                    st0.rels,
                    r.rels,
                    b,
                    c,
                    j,
                    x,
                ) by {
                    assert(f.supports.contains(x));
                    assert(x == sup);
                }
            }
        }
    } else {
        assert forall|j: KeyV| #[trigger] holds(r.rels, j) implies is_grounded(st0.rels, r.rels, b, c, j) by {
            assert(holds(st.rels, j));
        }
    }
}

proof fn lemma_merge_grounded(before: RelsV, after: RelsV, b: Seq<Seq<char>>, c: ClauseV, k: KeyV, x: AnnV, y: AnnV, r: AnnV)
    requires
        note_grounded(before, after, b, c, k, x),
        note_grounded(before, after, b, c, k, y),
        is_merge(x, y, r),
    ensures
        note_grounded(before, after, b, c, k, r),
{
    assert forall|p: Seq<char>| #[trigger] r.prov.contains(p) implies source_grounded(before, after, b, c, k, p) by {
        assert(x.prov.contains(p) || y.prov.contains(p));
    }
}

proof fn lemma_solve_grounded(
    st0: StoreV,
    st: StoreV,
    now: i64,
    c: ClauseV,
    i: int,
    skip: int,
    env: EnvV,
    out: Seq<KeyV>,
    b: Seq<Seq<char>>,
    n: Set<KeyV>,
    read: Seq<AnnV>,
)
    requires
        going(st, c, i, skip, env.map, b, n, own(c)),
        solve(st, now, c, i, skip, env, out).st.names.is_prefix_of(b),
        all_grounded(st0, b, c, st),
        env_grounded(st0, st, b, c, i, skip, env, read),
    ensures
        all_grounded(st0, b, c, solve(st, now, c, i, skip, env, out).st),
    decreases c.body.len() - i, 1int, 0int,
{
    if i >= c.body.len() {
        assert forall|v: Seq<char>| #[trigger] occurs(c.head.args, v) implies env.map.contains_key(v) by {
            assert(crate::model::given(c, i, v));
        }
        lemma_emit_grounded(st0, st, c, skip, env, b, read);
    } else if i == skip {
        lemma_env_pass(st.names, c, i, skip, env.map);
        lemma_solve_grounded(st0, st, now, c, i + 1, skip, env, out, b, n, read);
    } else {
        match c.body[i] {
            LitV::Pos(a) => {
                lemma_ids(st, a, env.map);
                lemma_rows_grounded(st0, st, now, c, i, skip, env, out, a, atom_rows(st, a, env.map), b, n, read);
            },
            LitV::Neg(a) => {
                if !crate::solve::atom_matches(st, a, env.map) {
                    lemma_env_pass(st.names, c, i, skip, env.map);
                    lemma_solve_grounded(st0, st, now, c, i + 1, skip, env, out, b, n, read);
                }
            },
            lit => {
                if let Some(map) = after_builtin(st.names, now, lit, env.map) {
                    lemma_ready(st.names, c, i, skip, env.map);
                    lemma_env_builtin(st.names, now, c, i, skip, env.map);
                    lemma_builtin_vars(st.names, now, lit, env.map);
                    let e = EnvV { map, ..env };
                    assert forall|s: Bindings| #[trigger] within(e.map, s) implies are_premises(
                        b,
                        c,
                        first_of(c, skip) + atoms_upto(c, i + 1, skip),
                        e.keys,
                        s,
                    ) by {
                        lemma_within_trans(env.map, e.map, s);
                    }
                    lemma_solve_grounded(st0, st, now, c, i + 1, skip, e, out, b, n, read);
                }
            },
        }
    }
}

proof fn lemma_rows_grounded(
    st0: StoreV,
    st: StoreV,
    now: i64,
    c: ClauseV,
    i: int,
    skip: int,
    env: EnvV,
    out: Seq<KeyV>,
    a: AtomV,
    ids: Seq<int>,
    b: Seq<Seq<char>>,
    n: Set<KeyV>,
    read: Seq<AnnV>,
)
    requires
        going(st, c, i, skip, env.map, b, n, own(c)),
        0 <= i < c.body.len(),
        i != skip,
        c.body[i] == LitV::Pos(a),
        ids_fine(st, a, ids),
        solve_rows(st, now, c, i, skip, env, out, a, ids).st.names.is_prefix_of(b),
        all_grounded(st0, b, c, st),
        env_grounded(st0, st, b, c, i, skip, env, read),
    ensures
        all_grounded(st0, b, c, solve_rows(st, now, c, i, skip, env, out, a, ids).st),
    decreases c.body.len() - i, 0int, ids.len(),
{
    if ids.len() > 0 {
        let more = ids.drop_first();
        crate::solve::lemma_store_extends_self(st);
        lemma_ids_grow(st, st, a, ids);
        match env_with_row(st, a, ids[0], env) {
            None => {
                lemma_rows_grounded(st0, st, now, c, i, skip, env, out, a, more, b, n, read);
            },
            Some(e) => {
                let row = st.rels[a.pred].rows[ids[0]];
                let k: KeyV = (a.pred, row.key);
                assert(holds(st.rels, k));
                lemma_env_atom(st.names, c, i, skip, env.map, a, row.key);
                lemma_bind_from_keeps(st.names, a.args, row.key, 0, env.map);
                lemma_row_of(st.rels, k, ids[0]);
                lemma_read_more(st0.rels, st.rels, env.keys, read, k);
                let more_read = read.push(note(st.rels, k));
                assert(env_grounded(st0, st, b, c, i + 1, skip, e, more_read)) by {
                    let at = first_of(c, skip) + atoms_upto(c, i, skip);
                    let next = first_of(c, skip) + atoms_upto(c, i + 1, skip);
                    assert(next =~= at.push(i));
                    assert forall|s: Bindings| #[trigger] within(e.map, s) implies are_premises(b, c, next, e.keys, s) by {
                        lemma_within_trans(env.map, e.map, s);
                        lemma_bind_from_means(st.names, b, a.args, row.key, 0, env.map, s);
                        assert(are_premises(b, c, at, env.keys, s));
                        assert forall|t: int| 0 <= t < next.len() implies is_premise(b, c, #[trigger] next[t], e.keys[t], s) by {
                            if t < at.len() {
                                assert(next[t] == at[t]);
                                assert(is_premise(b, c, at[t], env.keys[t], s));
                            } else {
                                assert(is_instance(b, a.args, row.key, s));
                            }
                        }
                    }
                }
                let r = solve(st, now, c, i + 1, skip, e, out);
                let rest = solve_rows(r.st, now, c, i, skip, env, r.out, a, more);
                lemma_solve(st, now, c, i + 1, skip, e, out);
                lemma_solve_rows(r.st, now, c, i, skip, env, r.out, a, more);
                lemma_prefix_trans(r.st.names, rest.st.names, b);
                lemma_solve_adds(st, now, c, i + 1, skip, e, out, b);
                lemma_solve_grounded(st0, st, now, c, i + 1, skip, e, out, b, n, more_read);
                lemma_solve_spares(st, now, c, i + 1, skip, e, out, own(c));
                lemma_onward_solve(st, now, c, i + 1, skip, e, out);
                lemma_read_on(st0.rels, st.rels, r.st.rels, env.keys, read);
                lemma_going_on(st, r.st, c, i, skip, env.map, b, n, own(c));
                lemma_ids_grow(st, r.st, a, ids);
                lemma_rows_grounded(st0, r.st, now, c, i, skip, env, r.out, a, more, b, n, read);
            },
        }
    }
}

proof fn lemma_keys_grounded(
    st0: StoreV,
    st: StoreV,
    now: i64,
    c: ClauseV,
    ai: int,
    a: AtomV,
    tuples: Seq<Seq<Value>>,
    out: Seq<KeyV>,
    b: Seq<Seq<char>>,
    n: Set<KeyV>,
)
    requires
        firing(st, b, n, own(c)),
        is_plain(st.names, c, own(c)),
        0 <= ai < c.body.len(),
        c.body[ai] == LitV::Pos(a),
        fire_keys(st, now, c, ai, a, tuples, out).st.names.is_prefix_of(b),
        all_grounded(st0, b, c, st),
    ensures
        all_grounded(st0, b, c, fire_keys(st, now, c, ai, a, tuples, out).st),
    decreases tuples.len(),
{
    if tuples.len() > 0 {
        let more = tuples.drop_first();
        match start_env(st, a, tuples[0]) {
            None => {
                lemma_keys_grounded(st0, st, now, c, ai, a, more, out, b, n);
            },
            Some(env) => {
                let k: KeyV = (a.pred, tuples[0]);
                lemma_start(st, c, ai, a, tuples[0], b, n, own(c));
                assert(holds(st.rels, k));
                let none = Seq::<KeyV>::empty();
                let read = Seq::<AnnV>::empty().push(note(st.rels, k));
                lemma_joint_none();
                assert(were_read(st0.rels, st.rels, none, Seq::empty()));
                lemma_read_more(st0.rels, st.rels, none, Seq::empty(), k);
                assert(env.keys =~= none.push(k));
                assert(env_grounded(st0, st, b, c, 0, ai, env, read)) by {
                    let at = first_of(c, ai) + atoms_upto(c, 0, ai);
                    assert(at =~= seq![ai]);
                    assert forall|s: Bindings| #[trigger] within(env.map, s) implies are_premises(b, c, at, env.keys, s) by {
                        lemma_bind_from_means(st.names, b, a.args, tuples[0], 0, Map::empty(), s);
                        assert(is_instance(b, a.args, tuples[0], s));
                        assert forall|t: int| 0 <= t < at.len() implies is_premise(b, c, #[trigger] at[t], env.keys[t], s) by {
                            assert(at[t] == ai);
                        }
                    }
                }
                let r = solve(st, now, c, 0, ai, env, out);
                lemma_solve(st, now, c, 0, ai, env, out);
                crate::evaluate::lemma_fire_keys(r.st, now, c, ai, a, more, r.out);
                let f = fire_keys(r.st, now, c, ai, a, more, r.out);
                lemma_prefix_trans(r.st.names, f.st.names, b);
                lemma_solve_adds(st, now, c, 0, ai, env, out, b);
                lemma_solve_grounded(st0, st, now, c, 0, ai, env, out, b, n, read);
                lemma_solve_spares(st, now, c, 0, ai, env, out, own(c));
                lemma_agrees_kept(n, st.rels, r.st.rels, own(c));
                lemma_plain_grows(st.names, r.st.names, c, own(c));
                lemma_keys_grounded(st0, r.st, now, c, ai, a, more, r.out, b, n);
            },
        }
    }
}

proof fn lemma_from_grounded(
    st0: StoreV,
    st: StoreV,
    now: i64,
    c: ClauseV,
    i: int,
    delta: Set<KeyV>,
    out: Seq<KeyV>,
    b: Seq<Seq<char>>,
    n: Set<KeyV>,
)
    requires
        firing(st, b, n, own(c)),
        is_plain(st.names, c, own(c)),
        0 <= i <= c.body.len(),
        fire_from(st, now, c, i, delta, out).st.names.is_prefix_of(b),
        all_grounded(st0, b, c, st),
    ensures
        all_grounded(st0, b, c, fire_from(st, now, c, i, delta, out).st),
    decreases c.body.len() - i,
{
    if i < c.body.len() {
        let r = fire(st, now, c, i, delta, out);
        let f = fire_from(r.st, now, c, i + 1, delta, r.out);
        if let LitV::Pos(a) = c.body[i] {
            let tuples = delta_args(delta, a.pred);
            crate::evaluate::lemma_fire_keys(st, now, c, i, a, tuples, out);
            crate::evaluate::lemma_fire_from(r.st, now, c, i + 1, delta, r.out);
            lemma_prefix_trans(r.st.names, f.st.names, b);
            lemma_fire_keys_adds(st, now, c, i, a, tuples, out, b, n, own(c));
            lemma_plain_grows(st.names, r.st.names, c, own(c));
            lemma_keys_grounded(st0, st, now, c, i, a, tuples, out, b, n);
        }
        lemma_from_grounded(st0, r.st, now, c, i + 1, delta, r.out, b, n);
    }
}

/// Law: a note says no more than its grounds. After a rule is fired the
/// confidence of every fact is what it was before, or the product of the
/// confidences of all facts of one way to it, one for each atom of the rule, as
/// they were when they were joined; each source is one it had, or one of a fact
/// of such a way; and each witness is one it had, or such a way, with all its
/// facts.
pub proof fn only_ways_count(st: StoreV, now: i64, c: ClauseV, delta: Set<KeyV>, out: Seq<KeyV>, k: KeyV)
    requires
        is_fireable(st, fire_rule(st, now, c, delta, out).st.names, c),
        holds(fire_rule(st, now, c, delta, out).st.rels, k),
    ensures
        ({
            let r = fire_rule(st, now, c, delta, out).st;
            is_grounded(st.rels, r.rels, r.names, c, k)
        }),
{
    let r = fire_rule(st, now, c, delta, out).st;
    let b = r.names;
    let n = facts(st.rels);
    crate::evaluate::lemma_fire_rule(st, now, c, delta, out);
    assert(b.is_prefix_of(b));
    lemma_onward_self(st.rels);
    assert(all_grounded(st, b, c, st));
    if has_atom(c) {
        lemma_from_grounded(st, st, now, c, 0, delta, out, b, n);
    } else {
        let env = EnvV { map: Map::empty(), ann: ann_unit(), keys: Seq::empty() };
        let len = c.body.len() as int;
        let none = Seq::<AnnV>::empty();
        lemma_joint_none();
        assert(were_read(st.rels, st.rels, env.keys, none));
        assert(env_grounded(st, st, b, c, 0, len, env, none)) by {
            assert(first_of(c, len) + atoms_upto(c, 0, len) =~= Seq::<int>::empty());
        }
        lemma_start_empty(st, c, b, n, own(c));
        lemma_solve_grounded(st, st, now, c, 0, len, env, out, b, n, none);
    }
}

/// Law: the same where the rule does not read what it derives, with the facts'
/// notes as they are: a confidence that a fact did not have is the product of
/// those of all the facts that it follows from in one way, and a source that it
/// did not have is one of theirs.
pub proof fn only_ways_noted(st: StoreV, now: i64, c: ClauseV, delta: Set<KeyV>, out: Seq<KeyV>, k: KeyV, p: Seq<char>)
    requires
        is_fireable(st, fire_rule(st, now, c, delta, out).st.names, c),
        reads_others(c),
        holds(fire_rule(st, now, c, delta, out).st.rels, k),
    ensures
        ({
            let r = fire_rule(st, now, c, delta, out).st;
            let a = note(r.rels, k);
            &&& (holds(st.rels, k) && a.conf == note(st.rels, k).conf) || exists|keys: Seq<KeyV>|
                #[trigger] is_way(st.rels, r.names, c, k, keys) && a.conf == product_of(notes_of(st.rels, keys))
            &&& a.prov.contains(p) ==> (holds(st.rels, k) && note(st.rels, k).prov.contains(p)) || exists|keys: Seq<KeyV>|
                #[trigger] is_way(st.rels, r.names, c, k, keys) && is_source_of(notes_of(st.rels, keys), p)
        }),
{
    let r = fire_rule(st, now, c, delta, out).st;
    let b = r.names;
    only_ways_count(st, now, c, delta, out, k);
    lemma_fire_rule_spares(st, now, c, delta, out, own(c));
    assert forall|keys: Seq<KeyV>, notes: Seq<AnnV>| #[trigger] is_read_way(st.rels, r.rels, b, c, k, keys, notes) implies is_way(
        st.rels,
        b,
        c,
        k,
        keys,
    ) && notes == notes_of(st.rels, keys) by {
        let (at, s) = choose|at: Seq<int>, s: Bindings|
            #[trigger] are_premises(b, c, at, keys, s) && is_order(c, at) && head_fact(b, c, s) == Some(k);
        let skip = choose|skip: int| #[trigger] first_of(c, skip) + atoms_from(c, 0, skip) == at;
        lemma_atoms_in(c, 0, skip);
        assert forall|t: int| 0 <= t < keys.len() implies (#[trigger] keys[t]).0 != c.head.pred by {
            assert(is_premise(b, c, at[t], keys[t], s));
            let first = first_of(c, skip);
            assert(0 <= at[t] < c.body.len()) by {
                if t >= first.len() {
                    assert(at[t] == atoms_from(c, 0, skip)[t - first.len()]);
                }
            }
            assert(c.body[at[t]] is Pos);
        }
        lemma_read_alone(st.rels, r.rels, c, keys, notes);
        assert(are_premises(b, c, at, keys, s));
    }
    if note(r.rels, k).prov.contains(p) {
        assert(source_grounded(st.rels, r.rels, b, c, k, p));
    }
}

} // verus!
