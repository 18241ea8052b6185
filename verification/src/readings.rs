//! Readings: what is read from a store is what stands in it. A goal is answered
//! by every tuple that fits it, a change log gives everything since an epoch,
//! and texts that list something list all of it.

use vstd::prelude::*;
use crate::agent::MemoryV;
use crate::ast::{AtomV, TermV};
use crate::canonical::{
    alias_key, keys_of, offer_text, offered_pairs, pair_lines, pairs_from, view_rule, views_upto, with_alias, with_aliases,
};
use crate::confidence::clamp;
use crate::context::{hit_line, HitV};
use crate::engine::{declared, EngineV};
use crate::env::Bindings;
use crate::explain::{fact_line, sources_text};
use crate::intact::lemma_aliases_names;
use crate::intern::{intern_reads_back, shown, symbol_of};
use crate::notation::fixed_text;
use crate::notes::{covers_note, declaring_notes, lemma_assert_notes, note, witnesses};
use crate::policy::with_symbol;
use crate::policy::ReportV;
use crate::protocol::CandV;
use crate::query::{
    answer_text, answers, answers_upto, binding_text, fact_text, logged_from, relation_summary, rows_for, samples, since, summaries,
    summary_of, vars_of,
};
use crate::relation::{fits_fully, has_key, lemma_lookup, rel_wf, row_of, AnnV, FactV, KeyV, RelV, SupportV};
use crate::server::{
    at_most, drop_line, drop_lines, drop_part, dump_tool, dump_upto, escalation_lines, escalation_part, observe_text, relation_dump,
};
use crate::solve::{bind_all, bind_from, bound_pattern, lemma_prefix_trans};
use crate::sorted_set::enumerate;
use crate::store::{change_epoch, holds, rels_wf, ChangeV, RelsV, StoreV};
use crate::text::{debug_form, joined, nat_text};
use crate::value::Value;
use crate::windows::{has_text, lemma_has_itself, lemma_has_text_add, lemma_joined_has};

verus! {

// ---------------------------------------------------------------------- texts

/// Law: joining takes every part, in order, with a separator between two. To
/// join a longer list is to join its first and its second piece, whatever they
/// are, with a separator between; one part is itself, and none is nothing.
pub proof fn joining_splits(a: Seq<Seq<char>>, b: Seq<Seq<char>>, x: Seq<char>, sep: Seq<char>)
    ensures
        joined(Seq::empty(), sep) == Seq::<char>::empty(),
        joined(seq![x], sep) == x,
        a.len() > 0 && b.len() > 0 ==> joined(a + b, sep) == joined(a, sep) + sep + joined(b, sep),
    decreases b.len(),
{
    if a.len() > 0 && b.len() > 0 {
        assert((a + b).drop_last() =~= a + b.drop_last());
        assert((a + b).last() == b.last());
        if b.len() > 1 {
            joining_splits(a, b.drop_last(), x, sep);
            assert(joined(a + b, sep) =~= joined(a, sep) + sep + joined(b, sep));
        } else {
            assert((a + b).drop_last() =~= a);
            assert(b[0] == b.last());
        }
    }
}

// ------------------------------------------------------------------ selections

/// The positions below a bound that are picked, in order: all of them, and each
/// once.
pub open spec fn is_selection(at: Seq<int>, n: int, p: spec_fn(int) -> bool) -> bool {
    &&& forall|x: int, y: int| 0 <= x < y < at.len() ==> (#[trigger] at[x]) < (#[trigger] at[y])
    &&& forall|i: int| #[trigger] at.contains(i) <==> 0 <= i < n && p(i)
}

pub proof fn lemma_selection(at: Seq<int>, n: int, p: spec_fn(int) -> bool)
    requires
        is_selection(at, n, p),
        n >= 0,
    ensures
        p(n) ==> is_selection(at.push(n), n + 1, p),
        !p(n) ==> is_selection(at, n + 1, p),
{
    if p(n) {
        let more = at.push(n);
        assert forall|i: int| #[trigger] more.contains(i) <==> 0 <= i < n + 1 && p(i) by {
            if at.contains(i) {
                let x = choose|x: int| 0 <= x < at.len() && at[x] == i;
                assert(more[x] == i);
            }
            if i == n {
                assert(more[at.len() as int] == n);
            }
            if more.contains(i) {
                let x = choose|x: int| 0 <= x < more.len() && more[x] == i;
                if x < at.len() {
                    assert(at[x] == i);
                }
            }
        }
        assert forall|x: int, y: int| 0 <= x < y < more.len() implies (#[trigger] more[x]) < (#[trigger] more[y]) by {
            assert(at.contains(at[x]));
        }
    }
}

// ----------------------------------------------------------------------- goals

/// A term of a goal allows a value.
pub open spec fn allows(names: Seq<Seq<char>>, t: TermV, v: Value) -> bool {
    match t {
        TermV::Wildcard => true,
        TermV::Var(_) => true,
        TermV::Int(i) => v == Value::Int(i),
        TermV::Sym(s) => names.contains(s) && symbol_of(names, s) is Some && v == Value::Sym(symbol_of(names, s)->Some_0),
        TermV::Agg(_, _) => false,
    }
}

/// A tuple fits a goal: it holds the goal's constants where they stand, and the
/// same value wherever the goal has the same variable.
pub open spec fn fits_goal(names: Seq<Seq<char>>, args: Seq<TermV>, key: Seq<Value>) -> bool {
    &&& key.len() == args.len()
    &&& forall|i: int| 0 <= i < args.len() ==> allows(names, #[trigger] args[i], key[i])
    &&& forall|i: int, j: int|
        0 <= i < j < args.len() && (#[trigger] args[i]) is Var && args[i] == #[trigger] args[j] ==> key[i] == key[j]
}

/// The positions of variables.
pub open spec fn is_var_at(args: Seq<TermV>) -> spec_fn(int) -> bool {
    |i: int| args[i] is Var
}

/// An answer: each variable of the goal, in order, with the value that the tuple
/// has in its place.
pub open spec fn is_answer(names: Seq<Seq<char>>, args: Seq<TermV>, key: Seq<Value>, t: Seq<char>) -> bool {
    exists|at: Seq<int>|
        #[trigger] is_selection(at, args.len() as int, is_var_at(args)) && t == joined(
            Seq::new(at.len(), |x: int| args[at[x]]->Var_0 + "="@ + shown(names, key[at[x]])),
            ", "@,
        )
}

spec fn allowed_from(names: Seq<Seq<char>>, args: Seq<TermV>, key: Seq<Value>, i: int, map: Bindings) -> bool {
    &&& forall|j: int| i <= j < args.len() ==> allows(names, #[trigger] args[j], key[j])
    &&& forall|j: int| i <= j < args.len() && (#[trigger] args[j]) is Var && map.contains_key(args[j]->Var_0) ==> map[args[j]->Var_0] == key[j]
    &&& forall|j: int, k: int|
        i <= j < k < args.len() && (#[trigger] args[j]) is Var && args[j] == #[trigger] args[k] ==> key[j] == key[k]
}

proof fn lemma_binds(names: Seq<Seq<char>>, args: Seq<TermV>, key: Seq<Value>, i: int, map: Bindings)
    requires
        0 <= i <= args.len(),
        key.len() == args.len(),
    ensures
        bind_from(names, args, key, i, map) is Some <==> allowed_from(names, args, key, i, map),
        bind_from(names, args, key, i, map) is Some ==> ({
            let m = bind_from(names, args, key, i, map)->Some_0;
            &&& forall|v: Seq<char>| #[trigger] map.contains_key(v) ==> m.contains_key(v) && m[v] == map[v]
            &&& forall|j: int|
                i <= j < args.len() && (#[trigger] args[j]) is Var ==> m.contains_key(args[j]->Var_0) && m[args[j]->Var_0] == key[j]
        }),
    decreases args.len() - i,
{
    if i < args.len() {
        match crate::solve::bind_term(names, args[i], key[i], map) {
            None => {
                assert(!allows(names, args[i], key[i]) || (args[i] is Var && map.contains_key(args[i]->Var_0) && map[args[i]->Var_0]
                    != key[i]));
            },
            Some(m1) => {
                lemma_binds(names, args, key, i + 1, m1);
                assert forall|v: Seq<char>| #[trigger] map.contains_key(v) implies m1.contains_key(v) && m1[v] == map[v] by {}
                if args[i] is Var {
                    assert(m1.contains_key(args[i]->Var_0));
                }
                assert(allows(names, args[i], key[i]));
                if allowed_from(names, args, key, i + 1, m1) {
                    assert forall|j: int, k: int|
                        i <= j < k < args.len() && (#[trigger] args[j]) is Var && args[j] == #[trigger] args[k] implies key[j] == key[k] by {
                        if j == i {
                            assert(m1.contains_key(args[k]->Var_0));
                        }
                    }
                    assert forall|j: int|
                        i <= j < args.len() && (#[trigger] args[j]) is Var && map.contains_key(args[j]->Var_0) implies map[args[j]->Var_0]
                        == key[j] by {
                        assert(m1.contains_key(args[j]->Var_0));
                    }
                }
                if allowed_from(names, args, key, i, map) {
                    assert forall|j: int|
                        i + 1 <= j < args.len() && (#[trigger] args[j]) is Var && m1.contains_key(args[j]->Var_0) implies m1[args[j]->Var_0]
                        == key[j] by {
                        if !map.contains_key(args[j]->Var_0) {
                            assert(args[j] == args[i]);
                        }
                    }
                }
            },
        }
    }
}

proof fn lemma_fits_goal(names: Seq<Seq<char>>, args: Seq<TermV>, key: Seq<Value>)
    ensures
        bind_all(names, args, key, Map::empty()) is Some <==> fits_goal(names, args, key),
        bind_all(names, args, key, Map::empty()) is Some ==> ({
            let m = bind_all(names, args, key, Map::empty())->Some_0;
            forall|j: int|
                0 <= j < args.len() && (#[trigger] args[j]) is Var ==> m.contains_key(args[j]->Var_0) && m[args[j]->Var_0] == key[j]
        }),
{
    if key.len() == args.len() {
        lemma_binds(names, args, key, 0, Map::empty());
    }
}

proof fn lemma_vars_of(args: Seq<TermV>) -> (at: Seq<int>)
    ensures
        is_selection(at, args.len() as int, is_var_at(args)),
        vars_of(args).len() == at.len(),
        forall|x: int| 0 <= x < at.len() ==> 0 <= #[trigger] at[x] < args.len() && args[at[x]] is Var && vars_of(args)[x] == args[at[x]]->Var_0,
    decreases args.len(),
{
    if args.len() == 0 {
        Seq::empty()
    } else {
        let less = args.drop_last();
        let n = less.len() as int;
        let at = lemma_vars_of(less);
        assert(is_selection(at, n, is_var_at(args))) by {
            assert forall|i: int| #[trigger] at.contains(i) <==> 0 <= i < n && is_var_at(args)(i) by {
                if 0 <= i < n {
                    assert(less[i] == args[i]);
                }
            }
        }
        assert forall|x: int| 0 <= x < at.len() implies 0 <= #[trigger] at[x] < args.len() && args[at[x]] is Var && vars_of(less)[x]
            == args[at[x]]->Var_0 by {
            assert(less[at[x]] == args[at[x]]);
        }
        lemma_selection(at, n, is_var_at(args));
        assert(args[n] == args.last());
        if args.last() is Var {
            at.push(n)
        } else {
            at
        }
    }
}

proof fn lemma_answer(names: Seq<Seq<char>>, args: Seq<TermV>, key: Seq<Value>)
    requires
        fits_goal(names, args, key),
    ensures
        bind_all(names, args, key, Map::empty()) is Some,
        is_answer(names, args, key, answer_text(names, bind_all(names, args, key, Map::empty())->Some_0, vars_of(args))),
{
    lemma_fits_goal(names, args, key);
    let m = bind_all(names, args, key, Map::empty())->Some_0;
    let at = lemma_vars_of(args);
    let want = Seq::new(at.len(), |x: int| args[at[x]]->Var_0 + "="@ + shown(names, key[at[x]]));
    let have = vars_of(args).map_values(|v: Seq<char>| binding_text(names, m, v));
    assert(have =~= want) by {
        assert forall|x: int| 0 <= x < at.len() implies have[x] == want[x] by {
            assert(args[at[x]] is Var);
        }
    }
    assert(is_selection(at, args.len() as int, is_var_at(args)));
}

/// The rows of a relation that fit a goal, each once.
pub open spec fn are_fitting(names: Seq<Seq<char>>, r: RelV, args: Seq<TermV>, ids: Seq<int>) -> bool {
    &&& ids.no_duplicates()
    &&& forall|id: int| #[trigger] ids.contains(id) <==> 0 <= id < r.rows.len() && fits_goal(names, args, r.rows[id].key)
}

proof fn lemma_answers(names: Seq<Seq<char>>, r: RelV, ids: Seq<int>, args: Seq<TermV>, n: int) -> (kept: Seq<int>)
    requires
        0 <= n <= ids.len(),
        ids.no_duplicates(),
    ensures
        kept.len() == answers_upto(names, r, ids, args, n).len(),
        kept.no_duplicates(),
        forall|id: int| #[trigger] kept.contains(id) <==> ids.take(n).contains(id) && fits_goal(names, args, r.rows[id].key),
        forall|x: int| 0 <= x < kept.len() ==> is_answer(names, args, r.rows[#[trigger] kept[x]].key, answers_upto(names, r, ids, args, n)[x]),
    decreases n,
{
    if n == 0 {
        Seq::empty()
    } else {
        let before = lemma_answers(names, r, ids, args, n - 1);
        let id = ids[n - 1];
        let key = r.rows[id].key;
        lemma_fits_goal(names, args, key);
        assert(ids.take(n) =~= ids.take(n - 1).push(id));
        assert forall|i: int| ids.take(n).contains(i) <==> ids.take(n - 1).contains(i) || i == id by {
            if ids.take(n - 1).contains(i) {
                let x = choose|x: int| 0 <= x < n - 1 && #[trigger] ids.take(n - 1)[x] == i;
                assert(ids.take(n)[x] == i);
            }
            if i == id {
                assert(ids.take(n)[n - 1] == i);
            }
            if ids.take(n).contains(i) {
                let x = choose|x: int| 0 <= x < n && #[trigger] ids.take(n)[x] == i;
                if x < n - 1 {
                    assert(ids.take(n - 1)[x] == i);
                }
            }
        }
        if fits_goal(names, args, key) {
            lemma_answer(names, args, key);
            let kept = before.push(id);
            assert(!before.contains(id)) by {
                if before.contains(id) {
                    assert(ids.take(n - 1).contains(id));
                    let x = choose|x: int| 0 <= x < n - 1 && #[trigger] ids.take(n - 1)[x] == id;
                    assert(ids[x] == ids[n - 1]);
                }
            }
            assert forall|i: int| #[trigger] kept.contains(i) <==> before.contains(i) || i == id by {
                if before.contains(i) {
                    let x = choose|x: int| 0 <= x < before.len() && before[x] == i;
                    assert(kept[x] == i);
                }
                if i == id {
                    assert(kept[before.len() as int] == i);
                }
                if kept.contains(i) {
                    let x = choose|x: int| 0 <= x < kept.len() && kept[x] == i;
                    if x < before.len() {
                        assert(before[x] == i);
                    }
                }
            }
            assert forall|x: int, y: int| 0 <= x < kept.len() && 0 <= y < kept.len() && x != y implies kept[x] != kept[y] by {
                if x < before.len() {
                    assert(before.contains(before[x]));
                }
                if y < before.len() {
                    assert(before.contains(before[y]));
                }
            }
            kept
        } else {
            before
        }
    }
}

proof fn lemma_considered(names: Seq<Seq<char>>, r: RelV, args: Seq<TermV>, id: int)
    requires
        rel_wf(r),
        0 <= id < r.rows.len(),
        fits_goal(names, args, r.rows[id].key),
    ensures
        rows_for(r, bound_pattern(names, args, Map::empty())).contains(id),
{
    let pattern = bound_pattern(names, args, Map::empty());
    let key = r.rows[id].key;
    lemma_lookup(r, pattern);
    if crate::query::fixes(pattern) {
        assert forall|i: int| 0 <= i < pattern.len() && (#[trigger] pattern[i]) is Some implies i < key.len() && pattern[i] == Some(
            key[i],
        ) by {
            assert(allows(names, args[i], key[i]));
        }
        assert(fits_fully(pattern, key));
    } else {
        assert(rows_for(r, pattern)[id] == id);
    }
}

/// Law: a goal is answered by the tuples that fit it: each of them once, with the
/// values of all its variables, and by no other. A goal without variables has
/// one empty answer where some tuple fits it, and none elsewhere.
pub proof fn goal_answered(st: StoreV, goal: AtomV)
    requires
        rels_wf(st.rels),
    ensures
        !st.rels.contains_key(goal.pred) ==> answers(st, goal).len() == 0,
        st.rels.contains_key(goal.pred) ==> ({
            let r = st.rels[goal.pred];
            let all = answers(st, goal);
            exists|ids: Seq<int>| #[trigger]
                are_fitting(st.names, r, goal.args, ids) && if exists|i: int| 0 <= i < goal.args.len() && #[trigger] goal.args[i] is Var {
                    all.len() == ids.len() && forall|x: int|
                        0 <= x < ids.len() ==> is_answer(st.names, goal.args, r.rows[#[trigger] ids[x]].key, all[x])
                } else {
                    all == if ids.len() > 0 {
                        seq![Seq::<char>::empty()]
                    } else {
                        Seq::empty()
                    }
                }
        }),
{
    if st.rels.contains_key(goal.pred) {
        let r = st.rels[goal.pred];
        let pattern = bound_pattern(st.names, goal.args, Map::empty());
        let rows = rows_for(r, pattern);
        assert(rel_wf(r));
        lemma_lookup(r, pattern);
        assert(rows.no_duplicates());
        let ids = lemma_answers(st.names, r, rows, goal.args, rows.len() as int);
        assert(rows.take(rows.len() as int) =~= rows);
        assert forall|id: int| #[trigger] ids.contains(id) <==> 0 <= id < r.rows.len() && fits_goal(st.names, goal.args, r.rows[id].key) by {
            if 0 <= id < r.rows.len() && fits_goal(st.names, goal.args, r.rows[id].key) {
                lemma_considered(st.names, r, goal.args, id);
            }
        }
        assert(are_fitting(st.names, r, goal.args, ids));
        let at = lemma_vars_of(goal.args);
        if exists|i: int| 0 <= i < goal.args.len() && #[trigger] goal.args[i] is Var {
            let i = choose|i: int| 0 <= i < goal.args.len() && #[trigger] goal.args[i] is Var;
            assert(is_var_at(goal.args)(i));
            assert(at.contains(i));
        } else {
            if at.len() > 0 {
                assert(goal.args[at[0]] is Var);
            }
            if ids.len() == 0 {
                assert(answers(st, goal) =~= Seq::empty());
            }
        }
    }
}

// --------------------------------------------------------------------- changes

/// Logged in the given epoch or later.
pub open spec fn is_since(log: Seq<(u64, KeyV)>, epoch: u64) -> spec_fn(int) -> bool {
    |i: int| log[i].0 >= epoch
}

proof fn lemma_logged(log: Seq<(u64, KeyV)>, epoch: u64, n: int) -> (at: Seq<int>)
    requires
        0 <= n <= log.len(),
    ensures
        is_selection(at, n, is_since(log, epoch)),
        logged_from(log, epoch, n).len() == at.len(),
        forall|x: int| 0 <= x < at.len() ==> logged_from(log, epoch, n)[x] == log[#[trigger] at[x]].1,
    decreases n,
{
    if n == 0 {
        Seq::empty()
    } else {
        let at = lemma_logged(log, epoch, n - 1);
        lemma_selection(at, n - 1, is_since(log, epoch));
        if log[n - 1].0 >= epoch {
            at.push(n - 1)
        } else {
            at
        }
    }
}

/// Law: the log since an epoch is everything that was logged in it or later, in
/// order, and the feed since an epoch has the events in it or later and no
/// others.
pub proof fn changes_complete(st: StoreV, epoch: u64)
    ensures
        exists|at: Seq<int>| #[trigger]
            is_selection(at, st.log.len() as int, is_since(st.log, epoch)) && logged_from(st.log, epoch, st.log.len() as int)
                == Seq::new(at.len(), |x: int| st.log[at[x]].1),
        forall|c: ChangeV| #[trigger] st.feed.filter(since(epoch)).contains(c) <==> st.feed.contains(c) && change_epoch(c) >= epoch,
{
    let at = lemma_logged(st.log, epoch, st.log.len() as int);
    assert(logged_from(st.log, epoch, st.log.len() as int) =~= Seq::new(at.len(), |x: int| st.log[at[x]].1));
    let f = since(epoch);
    assert forall|c: ChangeV| #[trigger] st.feed.filter(f).contains(c) <==> st.feed.contains(c) && change_epoch(c) >= epoch by {
        let kept = st.feed.filter(f);
        if kept.contains(c) {
            let x = choose|x: int| 0 <= x < kept.len() && kept[x] == c;
            st.feed.lemma_filter_pred(f, x);
            st.feed.lemma_filter_contains_rev(f, c);
        }
        if st.feed.contains(c) && change_epoch(c) >= epoch {
            let x = choose|x: int| 0 <= x < st.feed.len() && st.feed[x] == c;
            st.feed.lemma_filter_contains(f, x);
        }
    }
}

// ----------------------------------------------------------------------- pairs

/// One pair of positions stands before another.
pub open spec fn pair_before(a: (int, int), b: (int, int)) -> bool {
    a.0 < b.0 || (a.0 == b.0 && a.1 < b.1)
}

/// Two different positions, the lesser first.
pub open spec fn is_pair(n: int, p: (int, int)) -> bool {
    0 <= p.0 < p.1 < n
}

/// Pairs of positions in ascending order, as many as there is room for: with all
/// pairs that stand before the last of them, and with all pairs at all where
/// there is room left.
pub open spec fn first_pairs(n: int, at: Seq<(int, int)>, room: nat) -> bool {
    &&& at.len() <= room
    &&& forall|x: int, y: int| 0 <= x < y < at.len() ==> pair_before(#[trigger] at[x], #[trigger] at[y])
    &&& forall|x: int| 0 <= x < at.len() ==> is_pair(n, #[trigger] at[x])
    &&& forall|p: (int, int)| #[trigger] is_pair(n, p) ==> at.contains(p) || (at.len() == room && pair_before(at.last(), p))
}

spec fn positions_from(n: int, i: int, j: int) -> Seq<(int, int)>
    decreases n - i, n - j,
{
    if i < 0 || i >= n {
        Seq::empty()
    } else if j >= n {
        positions_from(n, i + 1, i + 2)
    } else {
        seq![(i, j)] + positions_from(n, i, j + 1)
    }
}

proof fn lemma_positions(names: Seq<Seq<char>>, i: int, j: int)
    requires
        0 <= i < j,
        i <= names.len(),
    ensures
        ({
            let n = names.len() as int;
            let at = positions_from(n, i, j);
            &&& pairs_from(names, i, j) == Seq::new(at.len(), |x: int| (names[at[x].0], names[at[x].1]))
            &&& forall|x: int, y: int| 0 <= x < y < at.len() ==> pair_before(#[trigger] at[x], #[trigger] at[y])
            &&& forall|x: int| 0 <= x < at.len() ==> is_pair(n, #[trigger] at[x]) && !pair_before(at[x], (i, j))
            &&& forall|p: (int, int)| #[trigger] is_pair(n, p) && !pair_before(p, (i, j)) ==> at.contains(p)
        }),
    decreases names.len() - i, names.len() - j,
{
    let n = names.len() as int;
    let at = positions_from(n, i, j);
    let want = Seq::new(at.len(), |x: int| (names[at[x].0], names[at[x].1]));
    if i >= n {
        assert(pairs_from(names, i, j) =~= want);
    } else if j >= n {
        lemma_positions(names, i + 1, i + 2);
        assert(pairs_from(names, i, j) =~= want);
        assert forall|p: (int, int)| #[trigger] is_pair(n, p) && !pair_before(p, (i, j)) implies at.contains(p) by {
            assert(!pair_before(p, (i + 1, i + 2)));
        }
    } else {
        lemma_positions(names, i, j + 1);
        let rest = positions_from(n, i, j + 1);
        assert(pairs_from(names, i, j) =~= want);
        assert forall|p: (int, int)| #[trigger] is_pair(n, p) && !pair_before(p, (i, j)) implies at.contains(p) by {
            if p == (i, j) {
                assert(at[0] == p);
            } else {
                assert(!pair_before(p, (i, j + 1)));
                let x = choose|x: int| 0 <= x < rest.len() && rest[x] == p;
                assert(at[x + 1] == p);
            }
        }
        assert forall|x: int, y: int| 0 <= x < y < at.len() implies pair_before(#[trigger] at[x], #[trigger] at[y]) by {
            if x == 0 {
                assert(at[y] == rest[y - 1]);
            } else {
                assert(at[x] == rest[x - 1] && at[y] == rest[y - 1]);
            }
        }
        assert forall|x: int| 0 <= x < at.len() implies is_pair(n, #[trigger] at[x]) && !pair_before(at[x], (i, j)) by {
            if x > 0 {
                assert(at[x] == rest[x - 1]);
            }
        }
    }
}

/// Law: each name is offered for reconciliation with each later one: all pairs
/// in order, up to sixty.
pub proof fn pairs_complete(names: Seq<Seq<char>>)
    ensures
        exists|at: Seq<(int, int)>| #[trigger]
            first_pairs(names.len() as int, at, 60) && offered_pairs(names) == Seq::new(
                at.len(),
                |x: int| (names[at[x].0], names[at[x].1]),
            ),
{
    let n = names.len() as int;
    let all = positions_from(n, 0, 1);
    if n > 0 {
        lemma_positions(names, 0, 1);
    } else {
        assert(pairs_from(names, 0, 1) =~= Seq::new(all.len(), |x: int| (names[all[x].0], names[all[x].1])));
    }
    let at = if all.len() > 60 {
        all.take(60)
    } else {
        all
    };
    assert(offered_pairs(names) =~= Seq::new(at.len(), |x: int| (names[at[x].0], names[at[x].1])));
    assert forall|p: (int, int)| #[trigger] is_pair(n, p) implies at.contains(p) || (at.len() == 60 && pair_before(at.last(), p)) by {
        assert(!pair_before(p, (0, 1)));
        let x = choose|x: int| 0 <= x < all.len() && all[x] == p;
        if x < at.len() {
            assert(at[x] == p);
        } else {
            assert(pair_before(all[59], all[x]));
        }
    }
    assert(first_pairs(n, at, 60));
}

/// Law: the message that offers pairs has a line for each of them, with both
/// names.
pub proof fn offer_complete(pairs: Seq<(Seq<char>, Seq<char>)>, i: int)
    requires
        0 <= i < pairs.len(),
    ensures
        has_text(offer_text(pairs), "- "@ + pairs[i].0 + " | "@ + pairs[i].1),
{
    let lines = pair_lines(pairs);
    let t = "- "@ + pairs[i].0 + " | "@ + pairs[i].1;
    lemma_joined_has(lines, "\n"@, i);
    assert(lines[i] == t);
    lemma_has_text_add("Candidate pairs:\n"@, joined(lines, "\n"@), t);
    lemma_has_text_add("Candidate pairs:\n"@ + joined(lines, "\n"@), "\n\nLines only:"@, t);
}

// --------------------------------------------------------------------- reports

/// Law: a report has a line for each escalation, up to three, and for each line
/// that was dropped, up to five: the line, cut after eighty characters, and why.
/// How many more there were is said.
pub proof fn report_complete(rep: ReportV, ds: Seq<(Seq<char>, Seq<char>)>)
    ensures
        forall|i: int|
            0 <= i < rep.escalations.len() && i < 3 ==> has_text(observe_text(rep, ds), "\nescalation: "@ + #[trigger] rep.escalations[i]),
        rep.escalations.len() > 3 ==> has_text(
            observe_text(rep, ds),
            "\n(+"@ + nat_text((rep.escalations.len() - 3) as nat) + " more escalations)"@,
        ),
        forall|i: int|
            0 <= i < ds.len() && i < 5 ==> has_text(observe_text(rep, ds), "\n"@ + drop_line(#[trigger] ds[i], 80)),
        ds.len() > 0 ==> has_text(observe_text(rep, ds), "\ndropped "@ + nat_text(ds.len()) + " line(s) \u{2014} NOT asserted:"@),
        ds.len() > 5 ==> has_text(observe_text(rep, ds), "\n  (+"@ + nat_text((ds.len() - 5) as nat) + " more)"@),
{
    let es = rep.escalations;
    let head = "added="@ + nat_text(rep.added) + " updated="@ + nat_text(rep.updated) + " noop="@ + nat_text(rep.noop) + " escalations="@
        + nat_text(es.len());
    let ep = escalation_part(es);
    let dp = drop_part(ds);
    let el = escalation_lines(es, at_most(es.len(), 3));
    let dh = "\ndropped "@ + nat_text(ds.len()) + " line(s) \u{2014} NOT asserted:"@;
    let dl = drop_lines(ds, at_most(ds.len(), 5));
    let em = if es.len() > 3 {
        "\n(+"@ + nat_text((es.len() - 3) as nat) + " more escalations)"@
    } else {
        Seq::empty()
    };
    let dm = if ds.len() > 5 {
        "\n  (+"@ + nat_text((ds.len() - 5) as nat) + " more)"@
    } else {
        Seq::empty()
    };
    assert(observe_text(rep, ds) == head + ep + dp);
    assert(ep == el + em);
    assert(ds.len() > 0 ==> dp == dh + dl + dm);
    assert forall|i: int| 0 <= i < es.len() && i < 3 implies has_text(observe_text(rep, ds), "\nescalation: "@ + #[trigger] es[i]) by {
        let t = "\nescalation: "@ + es[i];
        lemma_escalation_lines(es, at_most(es.len(), 3), i);
        lemma_has_text_add(el, em, t);
        lemma_has_text_add(head, ep, t);
        lemma_has_text_add(head + ep, dp, t);
    }
    if es.len() > 3 {
        lemma_has_itself(em);
        lemma_has_text_add(el, em, em);
        lemma_has_text_add(head, ep, em);
        lemma_has_text_add(head + ep, dp, em);
    }
    assert forall|i: int| 0 <= i < ds.len() && i < 5 implies has_text(observe_text(rep, ds), "\n"@ + drop_line(#[trigger] ds[i], 80)) by {
        let t = "\n"@ + drop_line(ds[i], 80);
        lemma_drop_lines(ds, at_most(ds.len(), 5), i);
        lemma_has_text_add(dh, dl, t);
        lemma_has_text_add(dh + dl, dm, t);
        lemma_has_text_add(head + ep, dp, t);
    }
    if ds.len() > 0 {
        lemma_has_itself(dh);
        lemma_has_text_add(dh, dl, dh);
        lemma_has_text_add(dh + dl, dm, dh);
        lemma_has_text_add(head + ep, dp, dh);
    }
    if ds.len() > 5 {
        lemma_has_itself(dm);
        lemma_has_text_add(dh + dl, dm, dm);
        lemma_has_text_add(head + ep, dp, dm);
    }
}

proof fn lemma_escalation_lines(es: Seq<Seq<char>>, n: int, i: int)
    requires
        0 <= i < n <= es.len(),
    ensures
        has_text(escalation_lines(es, n), "\nescalation: "@ + es[i]),
    decreases n,
{
    let t = "\nescalation: "@ + es[i];
    let last = "\nescalation: "@ + es[n - 1];
    assert(escalation_lines(es, n) =~= escalation_lines(es, n - 1) + last);
    if i < n - 1 {
        lemma_escalation_lines(es, n - 1, i);
    } else {
        lemma_has_itself(t);
    }
    lemma_has_text_add(escalation_lines(es, n - 1), last, t);
}

proof fn lemma_drop_lines(ds: Seq<(Seq<char>, Seq<char>)>, n: int, i: int)
    requires
        0 <= i < n <= ds.len(),
    ensures
        has_text(drop_lines(ds, n), "\n"@ + drop_line(ds[i], 80)),
    decreases n,
{
    let t = "\n"@ + drop_line(ds[i], 80);
    let last = "\n"@ + drop_line(ds[n - 1], 80);
    assert(drop_lines(ds, n) =~= drop_lines(ds, n - 1) + last);
    if i < n - 1 {
        lemma_drop_lines(ds, n - 1, i);
    } else {
        lemma_has_itself(t);
    }
    lemma_has_text_add(drop_lines(ds, n - 1), last, t);
}

// ----------------------------------------------------------------------- dumps

/// Law: a dump has a line for every stored fact of the predicate that is asked
/// for, or of all where none is, with its text, its confidence and its sources.
pub proof fn dump_complete(m: MemoryV, pred: Seq<char>, k: KeyV)
    requires
        m.engine.st.rels.dom().finite(),
        rels_wf(m.engine.st.rels),
        holds(m.engine.st.rels, k),
        pred.len() == 0 || pred == k.0,
    ensures
        ({
            let st = m.engine.st;
            has_text(dump_tool(m, pred).text, fact_line(Seq::empty(), fact_text(st.names, k.0, k.1), fact_at(st.rels, k)))
        }),
        !dump_tool(m, pred).is_error,
{
    let st = m.engine.st;
    let ps = enumerate::<String>(st.rels.dom());
    let r = st.rels[k.0];
    let id = row_of(r, k.1);
    let t = fact_line(Seq::empty(), fact_text(st.names, k.0, k.1), fact_at(st.rels, k));
    crate::sorted_set::lemma_enumerable::<String>(st.rels.dom());
    assert(ps.to_set().contains(k.0));
    let x = choose|x: int| 0 <= x < ps.len() && ps[x] == k.0;
    assert(has_key(r, k.1));
    lemma_relation_dump(st.names, k.0, r, r.rows.len() as int, id);
    lemma_dump(m.engine, pred, ps, ps.len() as int, x, t);
    reveal_strlit("(");
    assert(fact_text(st.names, k.0, k.1).len() > 0);
    assert(t.len() > 0);
}

/// The stored fact.
pub open spec fn fact_at(rels: RelsV, k: KeyV) -> FactV {
    FactV { ann: note(rels, k), supports: witnesses(rels, k) }
}

proof fn lemma_relation_dump(names: Seq<Seq<char>>, pred: Seq<char>, r: RelV, n: int, i: int)
    requires
        0 <= i < n <= r.rows.len(),
    ensures
        has_text(relation_dump(names, pred, r, n), fact_line(Seq::empty(), fact_text(names, pred, r.rows[i].key), r.rows[i].fact)),
    decreases n,
{
    let t = fact_line(Seq::empty(), fact_text(names, pred, r.rows[i].key), r.rows[i].fact);
    let last = fact_line(Seq::empty(), fact_text(names, pred, r.rows[n - 1].key), r.rows[n - 1].fact);
    if i < n - 1 {
        lemma_relation_dump(names, pred, r, n - 1, i);
    } else {
        lemma_has_itself(t);
    }
    lemma_has_text_add(relation_dump(names, pred, r, n - 1), last, t);
}

proof fn lemma_dump(e: EngineV, pred: Seq<char>, ps: Seq<Seq<char>>, n: int, x: int, t: Seq<char>)
    requires
        0 <= x < n <= ps.len(),
        pred.len() == 0 || pred == ps[x],
        has_text(relation_dump(e.st.names, ps[x], e.st.rels[ps[x]], e.st.rels[ps[x]].rows.len() as int), t),
    ensures
        has_text(dump_upto(e, pred, ps, n), t),
    decreases n,
{
    let before = dump_upto(e, pred, ps, n - 1);
    let r = e.st.rels[ps[n - 1]];
    if x < n - 1 {
        lemma_dump(e, pred, ps, n - 1, x, t);
    }
    lemma_has_text_add(before, relation_dump(e.st.names, ps[n - 1], r, r.rows.len() as int), t);
}

// ------------------------------------------------------------------- summaries

/// Law: the summary of a store names every relation, with the number of its
/// values and of its rows, and lists its first facts, up to three.
pub proof fn summary_complete(st: StoreV, p: Seq<char>)
    requires
        st.rels.dom().finite(),
        st.rels.contains_key(p),
    ensures
        ({
            let r = st.rels[p];
            &&& r.rows.len() > 0 ==> has_text(
                summary_of(st),
                p + "/"@ + nat_text(r.rows[0].key.len()) + ": "@ + nat_text(r.rows.len()) + " rows\n"@,
            )
            &&& forall|i: int|
                0 <= i < r.rows.len() && i < 3 ==> has_text(summary_of(st), "  "@ + fact_text(st.names, p, (#[trigger] r.rows[i]).key) + "\n"@)
        }),
{
    let ps = enumerate::<String>(st.rels.dom());
    let r = st.rels[p];
    crate::sorted_set::lemma_enumerable::<String>(st.rels.dom());
    assert(ps.to_set().contains(p));
    let x = choose|x: int| 0 <= x < ps.len() && ps[x] == p;
    let head = p + "/"@ + nat_text(r.rows[0].key.len()) + ": "@ + nat_text(r.rows.len()) + " rows\n"@;
    let n = if r.rows.len() < 3 {
        r.rows.len() as int
    } else {
        3
    };
    if r.rows.len() > 0 {
        assert(relation_summary(st.names, p, r) == head + samples(st.names, p, r, n));
        lemma_has_itself(head);
        lemma_has_text_add(head, samples(st.names, p, r, n), head);
        lemma_summaries(st, ps, x, head);
    }
    assert forall|i: int| 0 <= i < r.rows.len() && i < 3 implies has_text(
        summary_of(st),
        "  "@ + fact_text(st.names, p, (#[trigger] r.rows[i]).key) + "\n"@,
    ) by {
        let t = "  "@ + fact_text(st.names, p, r.rows[i].key) + "\n"@;
        lemma_samples(st.names, p, r, n, i);
        lemma_has_text_add(head, samples(st.names, p, r, n), t);
        lemma_summaries(st, ps, x, t);
    }
}

proof fn lemma_samples(names: Seq<Seq<char>>, p: Seq<char>, r: RelV, n: int, i: int)
    requires
        0 <= i < n <= r.rows.len(),
    ensures
        has_text(samples(names, p, r, n), "  "@ + fact_text(names, p, r.rows[i].key) + "\n"@),
    decreases n,
{
    let t = "  "@ + fact_text(names, p, r.rows[i].key) + "\n"@;
    let last = "  "@ + fact_text(names, p, r.rows[n - 1].key) + "\n"@;
    assert(samples(names, p, r, n) =~= samples(names, p, r, n - 1) + last);
    if i < n - 1 {
        lemma_samples(names, p, r, n - 1, i);
    } else {
        lemma_has_itself(t);
    }
    lemma_has_text_add(samples(names, p, r, n - 1), last, t);
}

proof fn lemma_summaries(st: StoreV, ps: Seq<Seq<char>>, x: int, t: Seq<char>)
    requires
        0 <= x < ps.len(),
        has_text(relation_summary(st.names, ps[x], st.rels[ps[x]]), t),
    ensures
        has_text(summaries(st, ps), t),
    decreases ps.len(),
{
    if x < ps.len() - 1 {
        assert(ps.drop_last()[x] == ps[x]);
        lemma_summaries(st, ps.drop_last(), x, t);
    }
    lemma_has_text_add(summaries(st, ps.drop_last()), relation_summary(st.names, ps.last(), st.rels[ps.last()]), t);
}

// --------------------------------------------------------------------- aliases

/// A candidate is an alias, and stands at a position or after it.
pub open spec fn is_alias_from(fs: Seq<CandV>, i: int) -> spec_fn(int) -> bool {
    |j: int| i <= j && fs[j].pred == "alias_of"@
}

/// An alias fact reads as the names of a candidate.
pub open spec fn alias_named(names: Seq<Seq<char>>, c: CandV, k: KeyV) -> bool {
    &&& k.0 == "alias"@
    &&& k.1.len() == 2
    &&& k.1[0] is Sym && k.1[0]->Sym_0.0 < names.len() && names[k.1[0]->Sym_0.0 as int] == c.subj
    &&& k.1[1] is Sym && k.1[1]->Sym_0.0 < names.len() && names[k.1[1]->Sym_0.0 as int] == c.obj
}

/// A candidate is stored as an alias, at least as confident as it is.
pub open spec fn has_alias(st: StoreV, c: CandV) -> bool {
    exists|k: KeyV| #[trigger]
        alias_named(st.names, c, k) && holds(st.rels, k) && covers_note(
            note(st.rels, k),
            (AnnV { conf: clamp(c.confidence), prov: set!["reconcile"@] }),
        )
}

/// Some candidate is the alias.
pub open spec fn is_of_some(names: Seq<Seq<char>>, fs: Seq<CandV>, k: KeyV) -> bool {
    exists|j: int| 0 <= j < fs.len() && fs[j].pred == "alias_of"@ && #[trigger] alias_named(names, fs[j], k)
}

proof fn lemma_selection_first(at: Seq<int>, fs: Seq<CandV>, i: int)
    requires
        0 <= i < fs.len(),
        is_selection(at, fs.len() as int, is_alias_from(fs, i + 1)),
    ensures
        fs[i].pred == "alias_of"@ ==> is_selection(seq![i] + at, fs.len() as int, is_alias_from(fs, i)),
        fs[i].pred != "alias_of"@ ==> is_selection(at, fs.len() as int, is_alias_from(fs, i)),
{
    let n = fs.len() as int;
    if fs[i].pred == "alias_of"@ {
        let more = seq![i] + at;
        assert forall|j: int| #[trigger] more.contains(j) <==> 0 <= j < n && is_alias_from(fs, i)(j) by {
            if j == i {
                assert(more[0] == i);
            }
            if at.contains(j) {
                let x = choose|x: int| 0 <= x < at.len() && at[x] == j;
                assert(more[x + 1] == j);
            }
            if more.contains(j) {
                let x = choose|x: int| 0 <= x < more.len() && more[x] == j;
                if x > 0 {
                    assert(at[x - 1] == j);
                    assert(at.contains(j));
                }
            }
        }
        assert forall|x: int, y: int| 0 <= x < y < more.len() implies (#[trigger] more[x]) < (#[trigger] more[y]) by {
            assert(more[y] == at[y - 1]);
            if x == 0 {
                assert(at.contains(at[y - 1]));
            } else {
                assert(more[x] == at[x - 1]);
            }
        }
    } else {
        assert forall|j: int| #[trigger] at.contains(j) <==> 0 <= j < n && is_alias_from(fs, i)(j) by {}
    }
}

proof fn lemma_alias(e: EngineV, c: CandV)
    requires
        rels_wf(e.st.rels),
        with_alias(e, c.subj, c.obj, c.confidence).st.names.len() < usize::MAX,
    ensures
        ({
            let r = with_alias(e, c.subj, c.obj, c.confidence).st;
            let k = alias_key(e, c.subj, c.obj);
            &&& rels_wf(r.rels)
            &&& e.st.names.is_prefix_of(r.names)
            &&& alias_named(r.names, c, k)
            &&& holds(r.rels, k)
            &&& covers_note(note(r.rels, k), (AnnV { conf: clamp(c.confidence), prov: set!["reconcile"@] }))
            &&& forall|j: KeyV| j != k ==> (#[trigger] holds(r.rels, j) <==> holds(e.st.rels, j))
            &&& forall|j: KeyV| j != k && holds(e.st.rels, j) ==> #[trigger] note(r.rels, j) == note(e.st.rels, j)
            &&& holds(e.st.rels, k) ==> covers_note(note(r.rels, k), note(e.st.rels, k))
        }),
{
    let e1 = with_symbol(e, c.subj);
    let e2 = with_symbol(e1, c.obj);
    let k = alias_key(e, c.subj, c.obj);
    let ann = AnnV { conf: clamp(c.confidence), prov: set!["reconcile"@] };
    intern_reads_back(e.st.names, c.subj);
    intern_reads_back(e1.st.names, c.obj);
    declaring_notes(e2.st, k, ann);
    lemma_assert_notes(e2.st, k, FactV { ann, supports: seq![SupportV::Base] });
    let r = with_alias(e, c.subj, c.obj, c.confidence).st;
    assert(r == declared(e2.st, k, ann));
    assert(r.names == e2.st.names);
    assert forall|p: Seq<char>| #[trigger] ann.prov.contains(p) implies note(r.rels, k).prov.contains(p) by {}
    assert forall|i: int| 0 <= i < e.st.names.len() implies e.st.names[i] == r.names[i] by {
        assert(e1.st.names[i] == e.st.names[i]);
    }
    assert(e.st.names =~= r.names.subrange(0, e.st.names.len() as int));
}

/// Law: every alias among candidates is stored, under its two names and with at
/// least its confidence, and listed. Nothing else is: the other facts stay, with
/// their notes, and each alias that is new is one of the candidates.
pub proof fn aliases_asserted(e: EngineV, fs: Seq<CandV>, i: int)
    requires
        0 <= i <= fs.len(),
        rels_wf(e.st.rels),
        with_aliases(e, fs, i).0.st.names.len() < usize::MAX,
    ensures
        ({
            let r = with_aliases(e, fs, i).0.st;
            &&& e.st.names.is_prefix_of(r.names)
            &&& forall|j: int| i <= j < fs.len() && (#[trigger] fs[j]).pred == "alias_of"@ ==> has_alias(r, fs[j])
            &&& forall|k: KeyV| #[trigger] holds(r.rels, k) && !holds(e.st.rels, k) ==> is_of_some(r.names, fs, k)
            &&& forall|k: KeyV| #[trigger] holds(e.st.rels, k) ==> holds(r.rels, k) && covers_note(note(r.rels, k), note(e.st.rels, k))
            &&& forall|k: KeyV| k.0 != "alias"@ && #[trigger] holds(e.st.rels, k) ==> note(r.rels, k) == note(e.st.rels, k)
            &&& exists|at: Seq<int>| #[trigger]
                is_selection(at, fs.len() as int, is_alias_from(fs, i)) && with_aliases(e, fs, i).1 == Seq::new(
                    at.len(),
                    |x: int| (fs[at[x]].subj, fs[at[x]].obj, fs[at[x]].confidence),
                )
        }),
    decreases fs.len() - i,
{
    let n = fs.len() as int;
    let r = with_aliases(e, fs, i).0.st;
    if i >= n {
        let at = Seq::<int>::empty();
        assert(is_selection(at, n, is_alias_from(fs, i)));
        assert(with_aliases(e, fs, i).1 =~= Seq::new(at.len(), |x: int| (fs[at[x]].subj, fs[at[x]].obj, fs[at[x]].confidence)));
        assert(e.st.names =~= e.st.names.subrange(0, e.st.names.len() as int));
    } else {
        let c = fs[i];
        let next = if c.pred == "alias_of"@ {
            with_alias(e, c.subj, c.obj, c.confidence)
        } else {
            e
        };
        lemma_aliases_names(next, fs, i + 1);
        if c.pred == "alias_of"@ {
            lemma_alias(e, c);
        }
        aliases_asserted(next, fs, i + 1);
        let k0 = alias_key(e, c.subj, c.obj);
        let at = choose|at: Seq<int>| #[trigger]
            is_selection(at, n, is_alias_from(fs, i + 1)) && with_aliases(next, fs, i + 1).1 == Seq::new(
                at.len(),
                |x: int| (fs[at[x]].subj, fs[at[x]].obj, fs[at[x]].confidence),
            );
        lemma_selection_first(at, fs, i);
        if c.pred == "alias_of"@ {
            let more = seq![i] + at;
            assert(with_aliases(e, fs, i).1 =~= Seq::new(more.len(), |x: int| (fs[more[x]].subj, fs[more[x]].obj, fs[more[x]].confidence)));
            assert(is_selection(more, n, is_alias_from(fs, i)));
            assert(alias_named(r.names, c, k0));
            let want = AnnV { conf: clamp(c.confidence), prov: set!["reconcile"@] };
            assert(holds(next.st.rels, k0));
            assert(covers_note(note(r.rels, k0), want));
            assert(has_alias(r, c));
            assert forall|j: int| i <= j < fs.len() && (#[trigger] fs[j]).pred == "alias_of"@ implies has_alias(r, fs[j]) by {}
            assert forall|k: KeyV| #[trigger] holds(r.rels, k) && !holds(e.st.rels, k) implies is_of_some(r.names, fs, k) by {
                if k == k0 {
                    assert(alias_named(r.names, fs[i], k));
                }
            }
            assert forall|k: KeyV| #[trigger] holds(e.st.rels, k) implies holds(r.rels, k) && covers_note(
                note(r.rels, k),
                note(e.st.rels, k),
            ) by {
                assert(holds(next.st.rels, k));
                assert(k != k0 ==> note(next.st.rels, k) == note(e.st.rels, k));
            }
            assert forall|k: KeyV| k.0 != "alias"@ && #[trigger] holds(e.st.rels, k) implies note(r.rels, k) == note(e.st.rels, k) by {
                assert(holds(next.st.rels, k));
                assert(note(next.st.rels, k) == note(e.st.rels, k));
            }
            assert(e.st.names.is_prefix_of(r.names)) by {
                lemma_prefix_trans(e.st.names, next.st.names, r.names);
            }
        } else {
            assert(is_selection(at, n, is_alias_from(fs, i)));
        }
    }
}

// ----------------------------------------------------------------------- facts

/// Law: a line for a stored fact has its text, its confidence with three places
/// and each of its sources; a line of a context window has the fact as an edge,
/// its confidence with two places and each of its sources.
pub proof fn lines_noted(names: Seq<Seq<char>>, pad: Seq<char>, text: Seq<char>, f: FactV, h: HitV, p: Seq<char>)
    requires
        f.ann.prov.finite(),
        h.1.prov.finite(),
    ensures
        has_text(fact_line(pad, text, f), text + "  (conf "@ + fixed_text(f.ann.conf, 3) + ", prov "@),
        f.ann.prov.contains(p) ==> has_text(fact_line(pad, text, f), debug_form(p)),
        has_text(
            hit_line(names, h),
            shown(names, h.0[0]) + " --"@ + shown(names, h.0[1]) + "--> "@ + shown(names, h.0[2]) + "   [conf "@ + fixed_text(h.1.conf, 2)
                + ", prov "@,
        ),
        h.1.prov.contains(p) ==> has_text(hit_line(names, h), p),
{
    let a = text + "  (conf "@ + fixed_text(f.ann.conf, 3) + ", prov "@;
    let src = sources_text(f.ann.prov);
    assert(fact_line(pad, text, f) =~= pad + (a + (src + ")\n"@)));
    lemma_has_itself(a);
    lemma_has_text_add(a, src + ")\n"@, a);
    lemma_has_text_add(pad, a + (src + ")\n"@), a);
    if f.ann.prov.contains(p) {
        facts_written(names, (text, Seq::empty()), f.ann.prov, p);
        lemma_has_text_add(src, ")\n"@, debug_form(p));
        lemma_has_text_add(a, src + ")\n"@, debug_form(p));
        lemma_has_text_add(pad, a + (src + ")\n"@), debug_form(p));
    }
    let b = shown(names, h.0[0]) + " --"@ + shown(names, h.0[1]) + "--> "@ + shown(names, h.0[2]) + "   [conf "@ + fixed_text(h.1.conf, 2)
        + ", prov "@;
    let ps = enumerate::<String>(h.1.prov);
    let all = joined(ps, ","@);
    assert(hit_line(names, h) =~= b + (all + "]\n"@));
    lemma_has_itself(b);
    lemma_has_text_add(b, all + "]\n"@, b);
    if h.1.prov.contains(p) {
        crate::sorted_set::lemma_enumerable::<String>(h.1.prov);
        assert(ps.to_set().contains(p));
        let x = choose|x: int| 0 <= x < ps.len() && ps[x] == p;
        lemma_joined_has(ps, ","@, x);
        lemma_has_text_add(all, "]\n"@, p);
        lemma_has_text_add(b, all + "]\n"@, p);
    }
}

/// Law: the views that canonicalization installs have the rule of every predicate
/// that has facts.
pub proof fn views_complete(e: EngineV, preds: Seq<Seq<char>>, n: int, j: int)
    requires
        0 <= j < n <= preds.len(),
        keys_of(e, preds[j]).len() > 0,
    ensures
        has_text(views_upto(e, preds, n), view_rule(preds[j], keys_of(e, preds[j])[0].len())),
    decreases n,
{
    let t = view_rule(preds[j], keys_of(e, preds[j])[0].len());
    let last = if keys_of(e, preds[n - 1]).len() > 0 {
        view_rule(preds[n - 1], keys_of(e, preds[n - 1])[0].len())
    } else {
        Seq::empty()
    };
    if j < n - 1 {
        views_complete(e, preds, n - 1, j);
    } else {
        lemma_has_itself(t);
    }
    lemma_has_text_add(views_upto(e, preds, n - 1), last, t);
}

/// Law: the text of a fact has its predicate and all its values, in order; and
/// the text of sources has each of them.
pub proof fn facts_written(names: Seq<Seq<char>>, k: KeyV, prov: Set<Seq<char>>, p: Seq<char>)
    ensures
        fact_text(names, k.0, k.1) == k.0 + "("@ + joined(Seq::new(k.1.len(), |i: int| shown(names, k.1[i])), ", "@) + ")"@,
        prov.finite() && prov.contains(p) ==> has_text(sources_text(prov), debug_form(p)),
{
    assert(crate::query::shown_all(names, k.1) =~= Seq::new(k.1.len(), |i: int| shown(names, k.1[i])));
    if prov.finite() && prov.contains(p) {
        let ps = enumerate::<String>(prov);
        let parts = ps.map_values(|s: Seq<char>| debug_form(s));
        crate::sorted_set::lemma_enumerable::<String>(prov);
        assert(ps.to_set().contains(p));
        let x = choose|x: int| 0 <= x < ps.len() && ps[x] == p;
        assert(parts[x] == debug_form(p));
        lemma_joined_has(parts, ", "@, x);
        lemma_has_text_add("["@, joined(parts, ", "@), debug_form(p));
        lemma_has_text_add("["@ + joined(parts, ", "@), "]"@, debug_form(p));
    }
}

} // verus!
