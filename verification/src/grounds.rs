//! What explanations rest on: after a run, what supports a derived fact holds.

use vstd::prelude::*;
use crate::ast::{AtomV, ClauseV, LitV};
use crate::deep::lemma_clear_each_facts;
use crate::engine::{declare_facts, declared, eval_strata, invalidate, lemma_strata_fit, prepared, ran, stale_readers, EngineV};
use crate::env::EnvV;
use crate::evaluate::{
    delta_args, eval_stratum_of, fire, fire_from, fire_keys, fire_rule, fixpoint, has_atom, lemma_fire_keys, lemma_fire_rule,
    lemma_round_from, lemma_rounds, pending_delta, round, round_from, rounds, settles, start_env, stratum_rules, temp_name,
};
use crate::frame::{lemma_all_finite, lemma_here_finite};
use crate::model::lemma_extends_holds;
use crate::perfect::{all_simple, is_rule_at, is_simple, lemma_nothing_folded, lemma_reads_below, lemma_stratum, leveled};
use crate::recompute::{
    body_reads, clear_each, direct_reader, filled_by, in_heads, is_idb, lemma_here_spreads, lemma_here_starts, lit_reads, rebuilt,
    rels_seed_set, rule_reads, scope_here, scope_pass, scope_passes, scope_queued, scope_seeds, scope_step, scoped, stated_in,
    strata_fit, tuples_of, ScopeV,
};
use crate::relation::{
    add_supports, ann_unit, has_key, lemma_empty_wf, lemma_lookup, lemma_remove_wf, rel_insert, rel_remove, rel_wf, row_of, AnnV, FactV,
    KeyV, RowV, SUPPORT_CAP, SupportV,
};
use crate::rules::{installed, uninstalled};
use crate::runs::no_aggregates;
use crate::scope::scope_begun;
use crate::solve::{
    atom_rows, bound_pattern, emit, env_with_row, head_values, lemma_emit, lemma_solve, lemma_store_assert, lemma_store_extends_self,
    lemma_store_extends_trans, rule_label, solve, solve_rows, store_extends,
};
use crate::sorted_set::{enumerate, lemma_enumerable};
use crate::store::{holds, rel_at, rels_seed_all, rels_settled, rels_wf, store_assert, store_clear, store_retract, RelsV, StoreV};
use crate::stratify::{aggregates, defined, grouped, is_levels, strata_error, strata_exist, strata_of};
use crate::upkeep::reseeded;
use crate::value::Value;

verus! {

// -------------------------------------------------------------------- supports

/// A support of a fact of a relation.
pub open spec fn has_support(m: RelsV, n: Seq<char>, s: SupportV) -> bool {
    m.contains_key(n) && exists|i: int| 0 <= i < m[n].rows.len() && (#[trigger] m[n].rows[i]).fact.supports.contains(s)
}

/// A support that holds: the program derives the relation, and the facts that
/// a rule used are stored and read for it.
pub open spec fn is_grounded(m: RelsV, cs: Seq<ClauseV>, n: Seq<char>, s: SupportV) -> bool {
    match s {
        SupportV::Base => true,
        SupportV::Rule { rule, body } => defined(cs, n) && forall|j: int|
            0 <= j < body.len() ==> holds(m, #[trigger] body[j]) && direct_reader(cs, body[j].0, n),
    }
}

/// Every support is of a kind, or holds.
pub open spec fn grounded_but(st: StoreV, cs: Seq<ClauseV>, old: spec_fn(Seq<char>, SupportV) -> bool) -> bool {
    forall|n: Seq<char>, s: SupportV| #[trigger] has_support(st.rels, n, s) ==> old(n, s) || is_grounded(st.rels, cs, n, s)
}

proof fn lemma_added_supports(have: Seq<SupportV>, more: Seq<SupportV>)
    ensures
        forall|s: SupportV| #[trigger] add_supports(have, more).contains(s) ==> have.contains(s) || more.contains(s),
    decreases more.len(),
{
    if !(more.len() == 0 || have.len() >= SUPPORT_CAP) {
        let d = more.drop_first();
        let h = if have.contains(more[0]) {
            have
        } else {
            have.push(more[0])
        };
        lemma_added_supports(h, d);
        assert(add_supports(have, more) == add_supports(h, d));
        assert forall|s: SupportV| #[trigger] add_supports(have, more).contains(s) implies have.contains(s) || more.contains(s) by {
            if d.contains(s) {
                let i = choose|i: int| 0 <= i < d.len() && d[i] == s;
                assert(more[i + 1] == s);
            } else if h.contains(s) && !have.contains(s) {
                let i = choose|i: int| 0 <= i < h.len() && h[i] == s;
                if i < have.len() {
                    assert(have[i] == s);
                }
                assert(more[0] == s);
            }
        }
    }
}

/// Asserting a fact adds its supports at most.
proof fn lemma_assert_supports(st: StoreV, k: KeyV, f: FactV)
    ensures
        forall|n: Seq<char>, s: SupportV| #[trigger]
            has_support(store_assert(st, k, f).rels, n, s) ==> has_support(st.rels, n, s) || (n == k.0 && f.supports.contains(s)),
{
    let m = st.rels;
    let m2 = store_assert(st, k, f).rels;
    let r = rel_at(m, k.0);
    let r2 = rel_insert(r, k.1, f);
    assert forall|n: Seq<char>, s: SupportV| #[trigger] has_support(m2, n, s) implies has_support(m, n, s) || (n == k.0
        && f.supports.contains(s)) by {
        let i = choose|i: int| 0 <= i < m2[n].rows.len() && (#[trigger] m2[n].rows[i]).fact.supports.contains(s);
        if n != k.0 {
            assert(m[n].rows[i].fact.supports.contains(s));
        } else if has_key(r, k.1) {
            let x = row_of(r, k.1);
            if i == x {
                lemma_added_supports(r.rows[x].fact.supports, f.supports);
                assert(r2.rows[x].fact.supports == add_supports(r.rows[x].fact.supports, f.supports));
                if r.rows[x].fact.supports.contains(s) {
                    assert(m.contains_key(n));
                    assert(m[n].rows[x].fact.supports.contains(s));
                }
            } else {
                assert(r2.rows[i] == r.rows[i]);
                assert(m.contains_key(n));
                assert(m[n].rows[i].fact.supports.contains(s));
            }
        } else if i < r.rows.len() {
            assert(r2.rows[i] == r.rows[i]);
            assert(m.contains_key(n));
            assert(m[n].rows[i].fact.supports.contains(s));
        }
    }
}

/// Supports that hold go on holding as facts are added.
proof fn lemma_grounded_grows(a: StoreV, b: StoreV, cs: Seq<ClauseV>, n: Seq<char>, s: SupportV)
    requires
        store_extends(a, b),
        is_grounded(a.rels, cs, n, s),
    ensures
        is_grounded(b.rels, cs, n, s),
{
    if let SupportV::Rule { rule, body } = s {
        assert forall|j: int| 0 <= j < body.len() implies holds(b.rels, #[trigger] body[j]) && direct_reader(cs, body[j].0, n) by {
            lemma_extends_holds(a, b, body[j]);
        }
    }
}

// -------------------------------------------------------------------- deriving

/// The facts that a body used so far are stored, and the rule reads them.
pub open spec fn rests_on(st: StoreV, c: ClauseV, env: EnvV) -> bool {
    forall|j: int|
        0 <= j < env.keys.len() ==> holds(st.rels, #[trigger] env.keys[j]) && body_reads(c, env.keys[j].0)
}

/// A rule of a program that does not aggregate.
pub open spec fn is_plain_rule(cs: Seq<ClauseV>, ci: int) -> bool {
    0 <= ci < cs.len() && !cs[ci].is_fact && !aggregates(cs[ci])
}

proof fn lemma_rests_later(a: StoreV, b: StoreV, c: ClauseV, env: EnvV)
    requires
        store_extends(a, b),
        rests_on(a, c, env),
    ensures
        rests_on(b, c, env),
{
    assert forall|j: int| 0 <= j < env.keys.len() implies holds(b.rels, #[trigger] env.keys[j]) && body_reads(c, env.keys[j].0) by {
        lemma_extends_holds(a, b, env.keys[j]);
    }
}

proof fn lemma_emit_grounds(st: StoreV, cs: Seq<ClauseV>, ci: int, env: EnvV, old: spec_fn(Seq<char>, SupportV) -> bool)
    requires
        rels_wf(st.rels),
        is_plain_rule(cs, ci),
        rests_on(st, cs[ci], env),
        grounded_but(st, cs, old),
    ensures
        grounded_but(emit(st, cs[ci], env).0, cs, old),
{
    let c = cs[ci];
    let h = head_values(st.names, c.head.args, env.map);
    let st1 = StoreV { names: h.0, ..st };
    let st2 = emit(st, c, env).0;
    lemma_emit(st, c, env);
    if let Some(args) = h.1 {
        let k = (c.head.pred, args);
        let own = SupportV::Rule { rule: rule_label(c), body: env.keys };
        let f = FactV { ann: env.ann, supports: seq![own] };
        lemma_assert_supports(st1, k, f);
        assert forall|n: Seq<char>, s: SupportV| #[trigger] has_support(st2.rels, n, s) implies old(n, s) || is_grounded(
            st2.rels,
            cs,
            n,
            s,
        ) by {
            if has_support(st1.rels, n, s) {
                assert(has_support(st.rels, n, s));
                if is_grounded(st.rels, cs, n, s) {
                    lemma_grounded_grows(st, st2, cs, n, s);
                }
            } else {
                assert(s == own);
                assert(defined(cs, n));
                assert forall|j: int| 0 <= j < env.keys.len() implies holds(st2.rels, #[trigger] env.keys[j]) && direct_reader(
                    cs,
                    env.keys[j].0,
                    n,
                ) by {
                    lemma_extends_holds(st, st2, env.keys[j]);
                    assert(body_reads(c, env.keys[j].0));
                    assert(rule_reads(cs, ci, env.keys[j].0, n));
                }
            }
        }
    }
}

proof fn lemma_solve_grounds(
    st: StoreV,
    now: i64,
    cs: Seq<ClauseV>,
    ci: int,
    i: int,
    skip: int,
    env: EnvV,
    out: Seq<KeyV>,
    old: spec_fn(Seq<char>, SupportV) -> bool,
)
    requires
        rels_wf(st.rels),
        is_plain_rule(cs, ci),
        rests_on(st, cs[ci], env),
        grounded_but(st, cs, old),
        0 <= i,
    ensures
        grounded_but(solve(st, now, cs[ci], i, skip, env, out).st, cs, old),
    decreases cs[ci].body.len() - i, 1int, 0int,
{
    let c = cs[ci];
    if i >= c.body.len() {
        lemma_emit_grounds(st, cs, ci, env, old);
    } else if i == skip {
        lemma_solve_grounds(st, now, cs, ci, i + 1, skip, env, out, old);
    } else {
        match c.body[i] {
            LitV::Pos(a) => {
                assert(lit_reads(c.body[i], a.pred));
                if st.rels.contains_key(a.pred) {
                    lemma_lookup(st.rels[a.pred], bound_pattern(st.names, a.args, env.map));
                }
                lemma_rows_ground(st, now, cs, ci, i, skip, env, out, a, atom_rows(st, a, env.map), old);
            },
            LitV::Neg(a) => {
                lemma_solve_grounds(st, now, cs, ci, i + 1, skip, env, out, old);
            },
            lit => {
                if let Some(map) = crate::builtins::after_builtin(st.names, now, lit, env.map) {
                    lemma_solve_grounds(st, now, cs, ci, i + 1, skip, EnvV { map, ..env }, out, old);
                }
            },
        }
    }
}

proof fn lemma_rows_ground(
    st: StoreV,
    now: i64,
    cs: Seq<ClauseV>,
    ci: int,
    i: int,
    skip: int,
    env: EnvV,
    out: Seq<KeyV>,
    a: AtomV,
    ids: Seq<int>,
    old: spec_fn(Seq<char>, SupportV) -> bool,
)
    requires
        rels_wf(st.rels),
        is_plain_rule(cs, ci),
        rests_on(st, cs[ci], env),
        grounded_but(st, cs, old),
        0 <= i < cs[ci].body.len(),
        body_reads(cs[ci], a.pred),
        ids.len() > 0 ==> st.rels.contains_key(a.pred),
        forall|k: int| 0 <= k < ids.len() ==> 0 <= #[trigger] ids[k] < st.rels[a.pred].rows.len(),
    ensures
        grounded_but(solve_rows(st, now, cs[ci], i, skip, env, out, a, ids).st, cs, old),
    decreases cs[ci].body.len() - i, 0int, ids.len(),
{
    let c = cs[ci];
    if ids.len() > 0 {
        let rest = ids.drop_first();
        assert forall|k: int| 0 <= k < rest.len() implies 0 <= #[trigger] rest[k] < st.rels[a.pred].rows.len() by {
            assert(rest[k] == ids[k + 1]);
        }
        match env_with_row(st, a, ids[0], env) {
            None => {
                lemma_rows_ground(st, now, cs, ci, i, skip, env, out, a, rest, old);
            },
            Some(e) => {
                let key = st.rels[a.pred].rows[ids[0]].key;
                assert(has_key(st.rels[a.pred], key));
                assert(rests_on(st, c, e)) by {
                    assert forall|j: int| 0 <= j < e.keys.len() implies holds(st.rels, #[trigger] e.keys[j]) && body_reads(
                        c,
                        e.keys[j].0,
                    ) by {
                        if j < env.keys.len() {
                            assert(e.keys[j] == env.keys[j]);
                        } else {
                            assert(e.keys[j] == (a.pred, key));
                        }
                    }
                }
                lemma_solve_grounds(st, now, cs, ci, i + 1, skip, e, out, old);
                let r = solve(st, now, c, i + 1, skip, e, out);
                lemma_solve(st, now, c, i + 1, skip, e, out);
                lemma_rests_later(st, r.st, c, env);
                lemma_rows_ground(r.st, now, cs, ci, i, skip, env, r.out, a, rest, old);
            },
        }
    }
}

proof fn lemma_fire_grounds(
    st: StoreV,
    now: i64,
    cs: Seq<ClauseV>,
    ci: int,
    ai: int,
    a: AtomV,
    keys: Seq<Seq<Value>>,
    out: Seq<KeyV>,
    old: spec_fn(Seq<char>, SupportV) -> bool,
)
    requires
        rels_wf(st.rels),
        is_plain_rule(cs, ci),
        grounded_but(st, cs, old),
        body_reads(cs[ci], a.pred),
    ensures
        grounded_but(fire_keys(st, now, cs[ci], ai, a, keys, out).st, cs, old),
    decreases keys.len(),
{
    if keys.len() > 0 {
        match start_env(st, a, keys[0]) {
            None => {
                lemma_fire_grounds(st, now, cs, ci, ai, a, keys.drop_first(), out, old);
            },
            Some(env) => {
                assert(rests_on(st, cs[ci], env));
                lemma_solve_grounds(st, now, cs, ci, 0, ai, env, out, old);
                let r = solve(st, now, cs[ci], 0, ai, env, out);
                lemma_solve(st, now, cs[ci], 0, ai, env, out);
                lemma_fire_grounds(r.st, now, cs, ci, ai, a, keys.drop_first(), r.out, old);
            },
        }
    }
}

proof fn lemma_rule_grounds(
    st: StoreV,
    now: i64,
    cs: Seq<ClauseV>,
    ci: int,
    i: int,
    delta: Set<KeyV>,
    out: Seq<KeyV>,
    old: spec_fn(Seq<char>, SupportV) -> bool,
)
    requires
        rels_wf(st.rels),
        is_plain_rule(cs, ci),
        grounded_but(st, cs, old),
        0 <= i,
    ensures
        grounded_but(fire_from(st, now, cs[ci], i, delta, out).st, cs, old),
    decreases cs[ci].body.len() - i,
{
    let c = cs[ci];
    if i < c.body.len() {
        let r = fire(st, now, c, i, delta, out);
        if let LitV::Pos(a) = c.body[i] {
            assert(lit_reads(c.body[i], a.pred));
            lemma_fire_grounds(st, now, cs, ci, i, a, delta_args(delta, a.pred), out, old);
            lemma_fire_keys(st, now, c, i, a, delta_args(delta, a.pred), out);
        }
        lemma_rule_grounds(r.st, now, cs, ci, i + 1, delta, r.out, old);
    }
}

/// Rules of a program, none of them aggregating.
pub open spec fn are_plain_rules(cs: Seq<ClauseV>, rs: Seq<ClauseV>) -> bool {
    forall|j: int| 0 <= j < rs.len() ==> exists|ci: int| #[trigger] is_plain_rule(cs, ci) && cs[ci] == #[trigger] rs[j]
}

proof fn lemma_round_grounds(
    st: StoreV,
    now: i64,
    cs: Seq<ClauseV>,
    rs: Seq<ClauseV>,
    i: int,
    delta: Set<KeyV>,
    out: Seq<KeyV>,
    old: spec_fn(Seq<char>, SupportV) -> bool,
)
    requires
        rels_wf(st.rels),
        are_plain_rules(cs, rs),
        grounded_but(st, cs, old),
        0 <= i,
    ensures
        grounded_but(round_from(st, now, rs, i, delta, out).st, cs, old),
    decreases rs.len() - i,
{
    if i < rs.len() {
        let ci = choose|ci: int| #[trigger] is_plain_rule(cs, ci) && cs[ci] == rs[i];
        let r = fire_rule(st, now, rs[i], delta, out);
        if has_atom(rs[i]) {
            lemma_rule_grounds(st, now, cs, ci, 0, delta, out, old);
        } else {
            let env = EnvV { map: Map::empty(), ann: ann_unit(), keys: Seq::empty() };
            lemma_solve_grounds(st, now, cs, ci, 0, rs[i].body.len() as int, env, out, old);
        }
        lemma_fire_rule(st, now, rs[i], delta, out);
        lemma_round_grounds(r.st, now, cs, rs, i + 1, delta, r.out, old);
    }
}

proof fn lemma_rounds_ground(
    st: StoreV,
    now: i64,
    cs: Seq<ClauseV>,
    rs: Seq<ClauseV>,
    delta: Set<KeyV>,
    n: nat,
    old: spec_fn(Seq<char>, SupportV) -> bool,
)
    requires
        rels_wf(st.rels),
        are_plain_rules(cs, rs),
        grounded_but(st, cs, old),
    ensures
        grounded_but(rounds(st, now, rs, delta, n).st, cs, old),
    decreases n,
{
    if n > 0 {
        let r = round(st, now, rs, delta);
        lemma_round_grounds(st, now, cs, rs, 0, delta, Seq::empty(), old);
        lemma_round_from(st, now, rs, 0, delta, Seq::empty());
        if r.out.len() > 0 {
            lemma_rounds_ground(r.st, now, cs, rs, r.out.to_set(), (n - 1) as nat, old);
        }
    }
}

/// Evaluating a stratum adds facts only, and supports that hold.
proof fn lemma_stratum_grounds(
    st: StoreV,
    now: i64,
    cs: Seq<ClauseV>,
    l: Map<Seq<char>, nat>,
    strata: Seq<Seq<int>>,
    s: int,
    names: Seq<Seq<char>>,
    old: spec_fn(Seq<char>, SupportV) -> bool,
)
    requires
        leveled(cs, l, strata),
        all_simple(names, cs),
        0 <= s < strata.len(),
        rels_wf(st.rels),
        grounded_but(st, cs, old),
    ensures
        grounded_but(eval_stratum_of(st, now, cs, strata[s]).st, cs, old),
        store_extends(st, eval_stratum_of(st, now, cs, strata[s]).st),
{
    let rs = stratum_rules(cs, strata[s]);
    let delta = pending_delta(st.rels);
    lemma_stratum(cs, l, strata, s, names);
    assert forall|j: int| 0 <= j < rs.len() implies exists|ci: int| #[trigger] is_plain_rule(cs, ci) && cs[ci] == #[trigger] rs[j] by {
        let ci = strata[s][j];
        assert(is_rule_at(cs, l, s, rs[j], ci));
        assert(is_simple(names, cs[ci]));
        assert(is_plain_rule(cs, ci));
    }
    let n = choose|n: nat| settles(st, now, rs, delta, n);
    lemma_rounds_ground(st, now, cs, rs, delta, n, old);
    lemma_rounds(st, now, rs, delta, n);
    assert forall|j: int| 0 <= j < strata[s].len() implies !aggregates(cs[#[trigger] strata[s][j]]) by {
        assert(is_rule_at(cs, l, s, rs[j], strata[s][j]));
        assert(is_simple(names, cs[strata[s][j]]));
    }
    lemma_nothing_folded(fixpoint(st, now, rs, delta).st, cs, strata[s], 0);
}

proof fn lemma_strata_ground(
    st: StoreV,
    now: i64,
    cs: Seq<ClauseV>,
    l: Map<Seq<char>, nat>,
    strata: Seq<Seq<int>>,
    s: int,
    names: Seq<Seq<char>>,
    old: spec_fn(Seq<char>, SupportV) -> bool,
)
    requires
        leveled(cs, l, strata),
        all_simple(names, cs),
        0 <= s,
        rels_wf(st.rels),
        grounded_but(st, cs, old),
    ensures
        grounded_but(eval_strata(st, now, cs, strata, s).st, cs, old),
        store_extends(st, eval_strata(st, now, cs, strata, s).st),
    decreases strata.len() - s,
{
    lemma_store_extends_self(st);
    if s < strata.len() {
        let e = eval_stratum_of(st, now, cs, strata[s]);
        lemma_stratum_grounds(st, now, cs, l, strata, s, names, old);
        lemma_strata_ground(e.st, now, cs, l, strata, s + 1, names, old);
        lemma_store_extends_trans(st, e.st, eval_strata(e.st, now, cs, strata, s + 1).st);
    }
}

proof fn lemma_declare_grounds(
    st: StoreV,
    cs: Seq<ClauseV>,
    fs: Seq<ClauseV>,
    i: int,
    old: spec_fn(Seq<char>, SupportV) -> bool,
)
    requires
        rels_wf(st.rels),
        grounded_but(st, cs, old),
    ensures
        grounded_but(declare_facts(st, fs, i), cs, old),
        rels_wf(declare_facts(st, fs, i).rels),
        declare_facts(st, fs, i).retracted == st.retracted,
        forall|k: KeyV| #[trigger] holds(st.rels, k) ==> holds(declare_facts(st, fs, i).rels, k),
    decreases fs.len() - i,
{
    if 0 <= i < fs.len() {
        if !fs[i].is_fact {
            lemma_declare_grounds(st, cs, fs, i + 1, old);
        } else {
            let h = head_values(st.names, fs[i].head.args, Map::empty());
            let st1 = StoreV { names: h.0, ..st };
            assert(grounded_but(st1, cs, old));
            match h.1 {
                None => {
                    lemma_declare_grounds(st1, cs, fs, i + 1, old);
                },
                Some(args) => {
                    let k = (fs[i].head.pred, args);
                    lemma_declared_grounds(st1, cs, k, ann_unit(), old);
                    let st2 = declared(st1, k, ann_unit());
                    lemma_declare_grounds(st2, cs, fs, i + 1, old);
                    assert forall|k2: KeyV| #[trigger] holds(st.rels, k2) implies holds(declare_facts(st, fs, i).rels, k2) by {
                        assert(holds(st1.rels, k2));
                        assert(holds(st2.rels, k2));
                    }
                },
            }
        }
    }
}

proof fn lemma_declared_grounds(
    st: StoreV,
    cs: Seq<ClauseV>,
    k: KeyV,
    ann: AnnV,
    old: spec_fn(Seq<char>, SupportV) -> bool,
)
    requires
        rels_wf(st.rels),
        grounded_but(st, cs, old),
    ensures
        grounded_but(declared(st, k, ann), cs, old),
        rels_wf(declared(st, k, ann).rels),
        declared(st, k, ann).retracted == st.retracted,
        forall|k2: KeyV| #[trigger] holds(st.rels, k2) ==> holds(declared(st, k, ann).rels, k2),
{
    let f = FactV { ann, supports: seq![SupportV::Base] };
    let st2 = declared(st, k, ann);
    lemma_assert_supports(st, k, f);
    lemma_store_assert(st, k, f);
    assert forall|n: Seq<char>, s: SupportV| #[trigger] has_support(st2.rels, n, s) implies old(n, s) || is_grounded(
        st2.rels,
        cs,
        n,
        s,
    ) by {
        if has_support(st.rels, n, s) {
            if is_grounded(st.rels, cs, n, s) {
                lemma_grounded_grows(st, st2, cs, n, s);
            }
        } else {
            assert(s == SupportV::Base);
        }
    }
    assert forall|k2: KeyV| #[trigger] holds(st.rels, k2) implies holds(st2.rels, k2) by {
        lemma_extends_holds(st, st2, k2);
    }
}

// ------------------------------------------------------------------- clearing

/// Clearing takes the supports of the cleared relations away.
proof fn lemma_clear_supports(st: StoreV, ps: Seq<Seq<char>>)
    requires
        rels_wf(st.rels),
    ensures
        rels_wf(clear_each(st, ps).rels),
        clear_each(st, ps).retracted == st.retracted,
        forall|n: Seq<char>, s: SupportV| #[trigger]
            has_support(clear_each(st, ps).rels, n, s) ==> has_support(st.rels, n, s) && !ps.contains(n),
    decreases ps.len(),
{
    if ps.len() > 0 {
        let st1 = store_clear(st, ps[0]);
        let d = ps.drop_first();
        lemma_empty_wf();
        assert(rels_wf(st1.rels));
        lemma_clear_supports(st1, d);
        let r = clear_each(st, ps);
        assert(r == clear_each(st1, d));
        assert forall|n: Seq<char>, s: SupportV| #[trigger] has_support(r.rels, n, s) implies has_support(st.rels, n, s)
            && !ps.contains(n) by {
            assert(has_support(st1.rels, n, s) && !d.contains(n));
            let i = choose|i: int| 0 <= i < st1.rels[n].rows.len() && (#[trigger] st1.rels[n].rows[i]).fact.supports.contains(s);
            assert(n != ps[0]);
            assert(st.rels[n].rows[i].fact.supports.contains(s));
            if ps.contains(n) {
                let j = choose|j: int| 0 <= j < ps.len() && ps[j] == n;
                assert(d[j - 1] == n);
            }
        }
    }
}

/// The same rows have the same supports.
proof fn lemma_same_supports(a: RelsV, b: RelsV)
    requires
        reseeded(a, b),
    ensures
        forall|n: Seq<char>, s: SupportV| #[trigger] has_support(b, n, s) ==> has_support(a, n, s),
        forall|k: KeyV| #[trigger] holds(b, k) <==> holds(a, k),
{
    assert forall|n: Seq<char>, s: SupportV| #[trigger] has_support(b, n, s) implies has_support(a, n, s) by {
        assert(a.contains_key(n));
        let i = choose|i: int| 0 <= i < b[n].rows.len() && (#[trigger] b[n].rows[i]).fact.supports.contains(s);
        assert(a[n].rows[i].fact.supports.contains(s));
    }
    assert forall|k: KeyV| #[trigger] holds(b, k) <==> holds(a, k) by {
        if a.contains_key(k.0) {
            assert(b[k.0].rows == a[k.0].rows);
        }
    }
}

// ---------------------------------------------------------------- recomputing

/// Every support holds, but those of what is to be cleared.
pub open spec fn scope_grounded(sc: ScopeV, cs: Seq<ClauseV>) -> bool {
    forall|n: Seq<char>, s: SupportV| #[trigger]
        has_support(sc.st.rels, n, s) ==> sc.to_clear.contains(n) || is_grounded(sc.st.rels, cs, n, s)
}

/// What is to be cleared is derived, from a level on.
pub open spec fn clears_from(sc: ScopeV, l: Map<Seq<char>, nat>, s: int) -> bool {
    forall|p: Seq<char>| #[trigger] sc.to_clear.contains(p) ==> l.contains_key(p) && l[p] >= s
}

/// A reader is derived by a rule of the strata.
proof fn lemma_reader(
    cs: Seq<ClauseV>,
    l: Map<Seq<char>, nat>,
    strata: Seq<Seq<int>>,
    names: Seq<Seq<char>>,
    q: Seq<char>,
    p: Seq<char>,
) -> (ci: int)
    requires
        leveled(cs, l, strata),
        all_simple(names, cs),
        direct_reader(cs, q, p),
    ensures
        0 <= ci < cs.len(),
        !cs[ci].is_fact,
        cs[ci].head.pred == p,
        body_reads(cs[ci], q),
        l.contains_key(p),
        is_idb(cs, strata, p),
{
    let ci = choose|ci: int| rule_reads(cs, ci, q, p);
    assert(is_simple(names, cs[ci]));
    assert(cs[ci].head.pred == p);
    assert(defined(cs, p));
    assert(l.contains_key(p));
    let s = l[p] as int;
    assert(0 <= s < strata.len());
    lemma_stratum(cs, l, strata, s, names);
    let rs = stratum_rules(cs, strata[s]);
    let j = choose|j: int| 0 <= j < rs.len() && #[trigger] rs[j] == cs[ci];
    assert(is_rule_at(cs, l, s, rs[j], strata[s][j]));
    assert(cs[strata[s][j]].head.pred == p);
    ci
}

/// A derived predicate of a level is filled by its stratum.
proof fn lemma_filled(
    cs: Seq<ClauseV>,
    l: Map<Seq<char>, nat>,
    strata: Seq<Seq<int>>,
    names: Seq<Seq<char>>,
    s: int,
    to_clear: Set<Seq<char>>,
    p: Seq<char>,
)
    requires
        leveled(cs, l, strata),
        all_simple(names, cs),
        0 <= s < strata.len(),
        to_clear.contains(p),
        l.contains_key(p),
    ensures
        scope_here(cs, strata[s], to_clear).contains(p) <==> l[p] == s,
{
    lemma_stratum(cs, l, strata, s, names);
    let rs = stratum_rules(cs, strata[s]);
    let here = scope_here(cs, strata[s], to_clear);
    if l[p] == s {
        assert(defined(cs, p));
        let i = choose|i: int| 0 <= i < cs.len() && !(#[trigger] cs[i]).is_fact && cs[i].head.pred == p;
        let j = choose|j: int| 0 <= j < rs.len() && #[trigger] rs[j] == cs[i];
        assert(is_rule_at(cs, l, s, rs[j], strata[s][j]));
        assert(filled_by(cs, strata[s][j], p));
        lemma_here_starts(cs, strata[s], to_clear, p, j);
    }
    if here.contains(p) {
        let i = choose|i: int| 0 <= i < strata[s].len() && filled_by(cs, #[trigger] strata[s][i], p);
        assert(is_rule_at(cs, l, s, rs[i], strata[s][i]));
        assert(is_simple(names, cs[strata[s][i]]));
    }
}

proof fn lemma_tuples(m: RelsV, k: KeyV)
    ensures
        tuples_of(m, k.0).contains(k.1) <==> holds(m, k),
{
    if m.contains_key(k.0) {
        let r = m[k.0];
        if has_key(r, k.1) {
            let i = choose|i: int| 0 <= i < r.rows.len() && (#[trigger] r.rows[i]).key == k.1;
            assert(r.rows.map_values(|x: RowV| x.key)[i] == k.1);
        }
    }
}

#[verifier::rlimit(30)]
proof fn lemma_step_grounds(
    sc: ScopeV,
    now: i64,
    cs: Seq<ClauseV>,
    l: Map<Seq<char>, nat>,
    strata: Seq<Seq<int>>,
    s: int,
    names: Seq<Seq<char>>,
)
    requires
        leveled(cs, l, strata),
        all_simple(names, cs),
        0 <= s < strata.len(),
        rels_wf(sc.st.rels),
        scope_grounded(sc, cs),
    ensures
        rels_wf(scope_step(sc, now, cs, strata, strata[s]).st.rels),
        scope_step(sc, now, cs, strata, strata[s]).st.retracted == sc.st.retracted,
        scope_grounded(scope_step(sc, now, cs, strata, strata[s]), cs),
{
    let here = scope_here(cs, strata[s], sc.to_clear);
    let sc2 = scope_step(sc, now, cs, strata, strata[s]);
    if here != Set::<Seq<char>>::empty() {
        let ps = enumerate::<String>(here);
        let cleared = clear_each(sc.st, ps);
        let rels = rels_seed_set(cleared.rels, scope_seeds(cs, here));
        let seeded = StoreV { rels, ..cleared };
        let old = |n: Seq<char>, t: SupportV|
            !here.contains(n) && (sc.to_clear.contains(n) || is_grounded(sc.st.rels, cs, n, t));
        lemma_here_finite(cs, strata[s], sc.to_clear);
        lemma_enumerable::<String>(here);
        lemma_clear_supports(sc.st, ps);
        lemma_clear_each_facts(sc.st, ps);
        assert(rels.dom() =~= cleared.rels.dom());
        assert(reseeded(cleared.rels, rels));
        lemma_same_supports(cleared.rels, rels);
        assert forall|n: Seq<char>| #[trigger] ps.contains(n) <==> here.contains(n) by {
            assert(ps.to_set().contains(n) <==> ps.contains(n));
        }
        assert(grounded_but(seeded, cs, old));
        assert(rels_wf(seeded.rels)) by {
            assert forall|n: Seq<char>| #[trigger] rels.contains_key(n) implies rel_wf(rels[n]) by {
                assert(cleared.rels.contains_key(n));
            }
        }
        let restated = declare_facts(seeded, stated_in(cs, here), 0);
        lemma_declare_grounds(seeded, cs, stated_in(cs, here), 0, old);
        lemma_stratum_grounds(restated, now, cs, l, strata, s, names, old);
        let e = eval_stratum_of(restated, now, cs, strata[s]);
        assert forall|n: Seq<char>, t: SupportV| #[trigger] has_support(sc2.st.rels, n, t) implies sc2.to_clear.contains(n)
            || is_grounded(sc2.st.rels, cs, n, t) by {
            if !is_grounded(e.st.rels, cs, n, t) && !sc2.to_clear.contains(n) {
                assert(old(n, t));
                assert(!sc.to_clear.contains(n));
                if let SupportV::Rule { rule, body } = t {
                    let j = choose|j: int|
                        0 <= j < body.len() && !(holds(e.st.rels, #[trigger] body[j]) && direct_reader(cs, body[j].0, n));
                    let b = body[j];
                    assert(holds(sc.st.rels, b) && direct_reader(cs, b.0, n));
                    if !here.contains(b.0) {
                        assert(holds(cleared.rels, b));
                        assert(holds(seeded.rels, b));
                        assert(holds(restated.rels, b));
                        lemma_extends_holds(restated, e.st, b);
                    } else {
                        assert(!holds(e.st.rels, b));
                        lemma_tuples(sc.st.rels, b);
                        lemma_tuples(e.st.rels, b);
                        let ci = lemma_reader(cs, l, strata, names, b.0, n);
                        assert(scope_queued(cs, strata, here, sc.st.rels, e.st.rels).contains(n));
                    }
                }
            }
        }
    }
}

proof fn lemma_step_clears(
    sc: ScopeV,
    now: i64,
    cs: Seq<ClauseV>,
    l: Map<Seq<char>, nat>,
    strata: Seq<Seq<int>>,
    s: int,
    names: Seq<Seq<char>>,
)
    requires
        leveled(cs, l, strata),
        all_simple(names, cs),
        0 <= s < strata.len(),
        clears_from(sc, l, s),
    ensures
        clears_from(scope_step(sc, now, cs, strata, strata[s]), l, s + 1),
{
    let here = scope_here(cs, strata[s], sc.to_clear);
    let sc2 = scope_step(sc, now, cs, strata, strata[s]);
    assert forall|p: Seq<char>| #[trigger] sc2.to_clear.contains(p) implies l.contains_key(p) && l[p] >= s + 1 by {
        if sc.to_clear.contains(p) && !here.contains(p) {
            lemma_filled(cs, l, strata, names, s, sc.to_clear, p);
        } else {
            let q = choose|q: Seq<char>| here.contains(q) && #[trigger] direct_reader(cs, q, p);
            let ci = lemma_reader(cs, l, strata, names, q, p);
            lemma_stratum(cs, l, strata, s, names);
            let rs = stratum_rules(cs, strata[s]);
            let x = choose|x: int| 0 <= x < strata[s].len() && filled_by(cs, #[trigger] strata[s][x], q);
            assert(is_rule_at(cs, l, s, rs[x], strata[s][x]));
            assert(is_simple(names, cs[strata[s][x]]));
            assert(defined(cs, q));
            let j = choose|j: int| 0 <= j < cs[ci].body.len() && lit_reads(#[trigger] cs[ci].body[j], q);
            lemma_reads_below(cs, l, ci, j);
            if l[p] == s {
                let y = choose|y: int| 0 <= y < rs.len() && #[trigger] rs[y] == cs[ci];
                assert(is_rule_at(cs, l, s, rs[y], strata[s][y]));
                assert(filled_by(cs, strata[s][y], p));
                lemma_here_spreads(cs, strata[s], sc.to_clear, q, p, y);
            }
        }
    }
}

proof fn lemma_pass_grounds(
    sc: ScopeV,
    now: i64,
    cs: Seq<ClauseV>,
    l: Map<Seq<char>, nat>,
    strata: Seq<Seq<int>>,
    s: int,
    names: Seq<Seq<char>>,
)
    requires
        leveled(cs, l, strata),
        all_simple(names, cs),
        0 <= s <= strata.len(),
        rels_wf(sc.st.rels),
        scope_grounded(sc, cs),
        clears_from(sc, l, s),
    ensures
        rels_wf(scope_pass(sc, now, cs, strata, s).st.rels),
        scope_pass(sc, now, cs, strata, s).st.retracted == sc.st.retracted,
        scope_grounded(scope_pass(sc, now, cs, strata, s), cs),
        scope_pass(sc, now, cs, strata, s).to_clear == Set::<Seq<char>>::empty(),
    decreases strata.len() - s,
{
    if s < strata.len() {
        lemma_step_grounds(sc, now, cs, l, strata, s, names);
        lemma_step_clears(sc, now, cs, l, strata, s, names);
        lemma_pass_grounds(scope_step(sc, now, cs, strata, strata[s]), now, cs, l, strata, s + 1, names);
    } else {
        assert(sc.to_clear =~= Set::<Seq<char>>::empty()) by {
            assert forall|p: Seq<char>| !sc.to_clear.contains(p) by {
                if sc.to_clear.contains(p) {
                    assert(l.contains_key(p));
                }
            }
        }
    }
}

/// A relation reads something that lost facts.
pub open spec fn reads_lost(cs: Seq<ClauseV>, lost: Set<Seq<char>>) -> spec_fn(Seq<char>, SupportV) -> bool {
    |n: Seq<char>, s: SupportV| exists|q: Seq<char>| lost.contains(q) && #[trigger] direct_reader(cs, q, n)
}

/// Every support holds, but for relations that read what lost facts since the
/// last run.
pub open spec fn rests(st: StoreV, cs: Seq<ClauseV>) -> bool {
    rels_wf(st.rels) && grounded_but(st, cs, reads_lost(cs, st.retracted))
}

/// Every support holds.
pub open spec fn all_grounded(st: StoreV, cs: Seq<ClauseV>) -> bool {
    forall|n: Seq<char>, s: SupportV| #[trigger] has_support(st.rels, n, s) ==> is_grounded(st.rels, cs, n, s)
}

proof fn lemma_scoped_grounds(
    st: StoreV,
    now: i64,
    cs: Seq<ClauseV>,
    l: Map<Seq<char>, nat>,
    strata: Seq<Seq<int>>,
    extra: Set<Seq<char>>,
    names: Seq<Seq<char>>,
)
    requires
        leveled(cs, l, strata),
        all_simple(names, cs),
        rests(st, cs),
    ensures
        rests(scoped(st, now, cs, strata, extra).st, cs),
        scoped(st, now, cs, strata, extra).st.retracted == Set::<Seq<char>>::empty(),
{
    let sc = scope_begun(st, cs, strata, extra);
    let n = strata.len() + 2;
    assert forall|p: Seq<char>, t: SupportV| #[trigger] has_support(sc.st.rels, p, t) implies sc.to_clear.contains(p)
        || is_grounded(sc.st.rels, cs, p, t) by {
        assert(has_support(st.rels, p, t));
        if !is_grounded(st.rels, cs, p, t) {
            let q = choose|q: Seq<char>| st.retracted.contains(q) && #[trigger] direct_reader(cs, q, p);
            let ci = lemma_reader(cs, l, strata, names, q, p);
        }
    }
    assert forall|p: Seq<char>| #[trigger] sc.to_clear.contains(p) implies l.contains_key(p) && l[p] >= 0 by {
        lemma_idb_leveled(cs, l, strata, names, p);
    }
    let r = scope_passes(sc, now, cs, strata, n);
    if sc.to_clear != Set::<Seq<char>>::empty() {
        lemma_pass_grounds(sc, now, cs, l, strata, 0, names);
        let once = scope_pass(sc, now, cs, strata, 0);
        assert(r == scope_passes(once, now, cs, strata, (n - 1) as nat));
        assert(r == once);
    }
    assert(grounded_but(r.st, cs, reads_lost(cs, r.st.retracted)));
}

proof fn lemma_idb_leveled(
    cs: Seq<ClauseV>,
    l: Map<Seq<char>, nat>,
    strata: Seq<Seq<int>>,
    names: Seq<Seq<char>>,
    p: Seq<char>,
)
    requires
        leveled(cs, l, strata),
        all_simple(names, cs),
        is_idb(cs, strata, p),
    ensures
        l.contains_key(p),
{
    if exists|s: int, i: int|
        0 <= s < strata.len() && 0 <= i < strata[s].len() && cs[#[trigger] strata[s][i]].head.pred == p {
        let (s, i) = choose|s: int, i: int|
            0 <= s < strata.len() && 0 <= i < strata[s].len() && cs[#[trigger] strata[s][i]].head.pred == p;
        lemma_stratum(cs, l, strata, s, names);
        assert(is_rule_at(cs, l, s, stratum_rules(cs, strata[s])[i], strata[s][i]));
        assert(defined(cs, p));
    } else {
        let ci = choose|ci: int|
            0 <= ci < cs.len() && !cs[ci].is_fact && aggregates(cs[ci]) && #[trigger] temp_name(cs[ci], ci) == p;
        assert(is_simple(names, cs[ci]));
    }
}

proof fn lemma_invalidate_grounds(
    st: StoreV,
    now: i64,
    cs: Seq<ClauseV>,
    l: Map<Seq<char>, nat>,
    strata: Seq<Seq<int>>,
    mark: int,
    n: nat,
    names: Seq<Seq<char>>,
)
    requires
        leveled(cs, l, strata),
        all_simple(names, cs),
        rests(st, cs),
        n > 0 || st.retracted == Set::<Seq<char>>::empty(),
    ensures
        rests(invalidate(st, now, cs, strata, mark, n).st, cs),
        invalidate(st, now, cs, strata, mark, n).st.retracted == Set::<Seq<char>>::empty(),
    decreases n,
{
    let extra = stale_readers(st, cs, mark);
    if !(n == 0 || (st.retracted == Set::<Seq<char>>::empty() && extra == Set::<Seq<char>>::empty())) {
        lemma_scoped_grounds(st, now, cs, l, strata, extra, names);
        lemma_invalidate_grounds(scoped(st, now, cs, strata, extra).st, now, cs, l, strata, mark, (n - 1) as nat, names);
    }
}

// ----------------------------------------------------------------------- laws

/// What rules ever derived is marked as such.
pub open spec fn derived_marked(e: EngineV) -> bool {
    forall|n: Seq<char>, s: SupportV| #[trigger] has_support(e.st.rels, n, s) && s is Rule ==> e.ever.contains(n)
}

/// Law: after a run, what an explanation rests on holds: the facts that support
/// a derived fact are stored, and the program reads them for it. The run goes
/// on from supports that held but for what lost facts, or starts over.
pub proof fn explanations_hold(e: EngineV)
    requires
        rels_wf(e.st.rels),
        e.ever.finite(),
        e.clauses.len() <= usize::MAX,
        strata_error(e.clauses) is None,
        all_simple(prepared(e).st.names, e.clauses),
        if e.dirty {
            derived_marked(e)
        } else {
            rests(e.st, e.clauses)
        },
    ensures
        all_grounded(ran(e).0.st, e.clauses),
        rests(ran(e).0.st, e.clauses),
        ran(e).0.st.retracted == Set::<Seq<char>>::empty(),
{
    let cs = e.clauses;
    let strata = strata_of(cs);
    let names = prepared(e).st.names;
    strata_exist(cs);
    lemma_strata_fit(cs, strata);
    let l = choose|l: Map<Seq<char>, nat>| #[trigger] is_levels(cs, l) && grouped(cs, l, strata);
    assert(leveled(cs, l, strata));
    let st1 = if e.dirty {
        rebuilt(e.st, cs, strata, e.ever)
    } else {
        e.st
    };
    if e.dirty {
        lemma_rebuilt_grounds(e);
    }
    let old = reads_lost(cs, e.st.retracted);
    assert(grounded_but(st1, cs, old));
    lemma_declare_grounds(st1, cs, cs, 0, old);
    let p = prepared(e).st;
    lemma_strata_ground(p, e.now, cs, l, strata, 0, names, old);
    let f = eval_strata(p, e.now, cs, strata, 0).st;
    assert(f.retracted == e.st.retracted);
    lemma_invalidate_grounds(f, e.now, cs, l, strata, e.mark, strata.len() + 2, names);
    let inv = invalidate(f, e.now, cs, strata, e.mark, strata.len() + 2).st;
    let rels = rels_settled(inv.rels);
    assert(rels.dom() =~= inv.rels.dom());
    assert(reseeded(inv.rels, rels));
    lemma_same_supports(inv.rels, rels);
    let r = ran(e).0.st;
    assert(r.rels == rels);
    assert forall|n: Seq<char>, s: SupportV| #[trigger] has_support(r.rels, n, s) implies is_grounded(r.rels, cs, n, s) by {
        assert(has_support(inv.rels, n, s));
        assert(is_grounded(inv.rels, cs, n, s));
    }
    assert forall|n: Seq<char>| #[trigger] rels.contains_key(n) implies rel_wf(rels[n]) by {
        assert(inv.rels.contains_key(n));
    }
}

proof fn lemma_rebuilt_grounds(e: EngineV)
    requires
        rels_wf(e.st.rels),
        e.ever.finite(),
        strata_fit(strata_of(e.clauses), e.clauses.len() as int),
        derived_marked(e),
    ensures
        ({
            let r = rebuilt(e.st, e.clauses, strata_of(e.clauses), e.ever);
            &&& rels_wf(r.rels)
            &&& r.retracted == e.st.retracted
            &&& all_grounded(r, e.clauses)
        }),
{
    let cs = e.clauses;
    let strata = strata_of(cs);
    let all = Set::new(|p: Seq<char>| e.ever.contains(p) || in_heads(cs, strata, p));
    let ps = enumerate::<String>(all);
    let c = clear_each(e.st, ps);
    let rels = rels_seed_all(c.rels);
    let r = rebuilt(e.st, cs, strata, e.ever);
    lemma_all_finite(e, strata);
    lemma_enumerable::<String>(all);
    lemma_clear_supports(e.st, ps);
    assert(rels.dom() =~= c.rels.dom());
    assert(reseeded(c.rels, rels));
    lemma_same_supports(c.rels, rels);
    assert forall|n: Seq<char>, s: SupportV| #[trigger] has_support(r.rels, n, s) implies is_grounded(r.rels, cs, n, s) by {
        assert(has_support(e.st.rels, n, s) && !ps.contains(n));
        if s is Rule {
            assert(e.ever.contains(n));
            assert(ps.to_set().contains(n));
        }
    }
    assert forall|n: Seq<char>| #[trigger] rels.contains_key(n) implies rel_wf(rels[n]) by {
        assert(c.rels.contains_key(n));
    }
}

/// Law: declaring a fact keeps what explanations rest on.
pub proof fn declaring_keeps_rests(st: StoreV, cs: Seq<ClauseV>, k: KeyV, ann: AnnV)
    requires
        rests(st, cs),
    ensures
        rests(declared(st, k, ann), cs),
{
    lemma_declared_grounds(st, cs, k, ann, reads_lost(cs, st.retracted));
}

/// Law: retracting a fact leaves unsupported only what reads its relation,
/// which the next run follows up.
pub proof fn retracting_keeps_rests(st: StoreV, cs: Seq<ClauseV>, k: KeyV)
    requires
        rests(st, cs),
    ensures
        rests(store_retract(st, k), cs),
{
    let m = st.rels;
    let st2 = store_retract(st, k);
    if m.contains_key(k.0) {
        let r = m[k.0];
        let r2 = rel_remove(r, k.1);
        lemma_remove_wf(r, k.1);
        assert(st2.rels[k.0].rows == r2.rows && st2.rels[k.0].idx == r2.idx);
        assert forall|n: Seq<char>, s: SupportV| #[trigger] has_support(st2.rels, n, s) implies has_support(m, n, s) by {
            let i = choose|i: int| 0 <= i < st2.rels[n].rows.len() && (#[trigger] st2.rels[n].rows[i]).fact.supports.contains(s);
            if n == k.0 {
                let last = r.rows.len() - 1;
                assert(r2.rows[i] == r.rows[i] || r2.rows[i] == r.rows[last]);
                assert(r.rows[i].fact.supports.contains(s) || r.rows[last].fact.supports.contains(s));
            } else {
                assert(m[n].rows[i].fact.supports.contains(s));
            }
        }
    }
    lemma_retract_facts(st, k);
    assert forall|n: Seq<char>, s: SupportV| #[trigger] has_support(st2.rels, n, s) implies reads_lost(cs, st2.retracted)(n, s)
        || is_grounded(st2.rels, cs, n, s) by {
        assert(has_support(m, n, s));
        if is_grounded(m, cs, n, s) {
            if let SupportV::Rule { rule, body } = s {
                if !is_grounded(st2.rels, cs, n, s) {
                    let j = choose|j: int|
                        0 <= j < body.len() && !(holds(st2.rels, #[trigger] body[j]) && direct_reader(cs, body[j].0, n));
                    assert(holds(m, body[j]) && direct_reader(cs, body[j].0, n));
                    assert(body[j] == k);
                    assert(st2.retracted.contains(k.0));
                }
            }
        } else {
            let q = choose|q: Seq<char>| st.retracted.contains(q) && #[trigger] direct_reader(cs, q, n);
            assert(st2.retracted.contains(q));
        }
    }
}

/// Retracting a fact takes that fact alone.
proof fn lemma_retract_facts(st: StoreV, k: KeyV)
    ensures
        forall|j: KeyV| #[trigger] holds(st.rels, j) && j != k ==> holds(store_retract(st, k).rels, j),
{
    let m = st.rels;
    let m2 = store_retract(st, k).rels;
    assert forall|j: KeyV| #[trigger] holds(m, j) && j != k implies holds(m2, j) by {
        if j.0 == k.0 {
            let r = m[k.0];
            let r2 = rel_remove(r, k.1);
            let i = choose|i: int| 0 <= i < r.rows.len() && (#[trigger] r.rows[i]).key == j.1;
            assert(m2.contains_key(k.0) && m2[k.0].rows == r2.rows);
            assert(j.1 != k.1);
            if has_key(r, k.1) {
                let id = row_of(r, k.1);
                let last = r.rows.len() - 1;
                assert(r.rows[id].key == k.1);
                assert(i != id);
                let at = if i == last {
                    id
                } else {
                    i
                };
                assert(m2[k.0].rows[at].key == j.1);
            } else {
                assert(m2[k.0].rows[i].key == j.1);
            }
        } else {
            assert(m2[j.0] == m[j.0]);
        }
    }
}

/// Law: between runs, and whatever batch of rules comes or goes, what rules
/// derived stays marked as derived, if all that the program derives is.
pub proof fn derived_stays_marked(e: EngineV, src: Seq<char>, id: Seq<char>)
    requires
        rests(e.st, e.clauses),
        forall|p: Seq<char>| #[trigger] defined(e.clauses, p) ==> e.ever.contains(p),
        no_aggregates(e.clauses),
    ensures
        derived_marked(e),
        installed(e, src) matches Ok(e2) ==> derived_marked(e2),
        derived_marked(uninstalled(e, id)),
{
    assert forall|n: Seq<char>, s: SupportV| #[trigger] has_support(e.st.rels, n, s) && s is Rule implies e.ever.contains(n) by {
        if !is_grounded(e.st.rels, e.clauses, n, s) {
            let q = choose|q: Seq<char>| #[trigger] direct_reader(e.clauses, q, n);
            let ci = choose|ci: int| rule_reads(e.clauses, ci, q, n);
            assert(!aggregates(e.clauses[ci]));
            assert(e.clauses[ci].head.pred == n);
        }
        assert(defined(e.clauses, n));
    }
    match installed(e, src) {
        Ok(e2) => {
            assert(e2.st == e.st);
            assert forall|n: Seq<char>, s: SupportV| #[trigger] has_support(e2.st.rels, n, s) && s is Rule implies e2.ever.contains(n) by {
                assert(e.ever.contains(n));
            }
        },
        Err(_) => {},
    }
}

} // verus!
