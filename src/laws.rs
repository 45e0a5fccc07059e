//! Properties of the group builder that relate its stages to each other and
//! to the input as a whole.
use vstd::prelude::*;
use vstd::multiset::Multiset;
use vstd::seq_lib::{lemma_multiset_commutative, to_multiset_build};
use crate::builder::{
    built_dlq, built_groups, class_metas, class_of, classes, components, duplicate_entries,
    group_outcome, has_key, joined, keys_unique, lemma_classes_range, outcomes, pass_dropped,
    pass_kept, prune_dropped_n, prune_n, pruned_dropped, rejected, seen_before, survivors,
    unique_configs, ExtractedView, GroupView,
};
use crate::graph::{has_cycle, is_walk};
use crate::model::{ConfigView, DlqView, KeyView, MetaView};

verus! {

broadcast use vstd::seq_lib::group_to_multiset_ensures, vstd::multiset::group_multiset_axioms;

pub open spec fn config_metas(cs: Seq<ConfigView>) -> Seq<MetaView> {
    cs.map_values(|c: ConfigView| c.meta())
}

pub open spec fn extracted_metas(s: Seq<ExtractedView>) -> Seq<MetaView> {
    s.map_values(|e: ExtractedView| e.meta)
}

pub open spec fn dlq_metas(d: Seq<DlqView>) -> Seq<MetaView> {
    d.map_values(|x: DlqView| x.meta)
}

/// The metadata of all members of all groups, counted with multiplicity.
pub open spec fn group_metas(gs: Seq<GroupView>) -> Multiset<MetaView>
    decreases gs.len(),
{
    if gs.len() == 0 {
        Multiset::empty()
    } else {
        group_metas(gs.drop_last()).add(gs.last().metas.to_multiset())
    }
}

/// The metadata of the members of the classes `cl`, counted with multiplicity.
pub open spec fn class_metas_all(s: Seq<ExtractedView>, cl: Seq<Seq<usize>>) -> Multiset<MetaView>
    decreases cl.len(),
{
    if cl.len() == 0 {
        Multiset::empty()
    } else {
        class_metas_all(s, cl.drop_last()).add(class_metas(s, cl.last()).to_multiset())
    }
}

proof fn lemma_dlq_metas_add(a: Seq<DlqView>, b: Seq<DlqView>)
    ensures
        dlq_metas(a + b).to_multiset() == dlq_metas(a).to_multiset().add(dlq_metas(b).to_multiset()),
{
    assert(dlq_metas(a + b) == dlq_metas(a) + dlq_metas(b));
    lemma_multiset_commutative(dlq_metas(a), dlq_metas(b));
}

proof fn lemma_dlq_metas_push(a: Seq<DlqView>, x: DlqView)
    ensures
        dlq_metas(a.push(x)).to_multiset() == dlq_metas(a).to_multiset().insert(x.meta),
{
    assert(dlq_metas(a.push(x)) == dlq_metas(a).push(x.meta));
    to_multiset_build(dlq_metas(a), x.meta);
}

proof fn lemma_extracted_metas_push(a: Seq<ExtractedView>, x: ExtractedView)
    ensures
        extracted_metas(a.push(x)).to_multiset() == extracted_metas(a).to_multiset().insert(x.meta),
{
    assert(extracted_metas(a.push(x)) == extracted_metas(a).push(x.meta));
    to_multiset_build(extracted_metas(a), x.meta);
}

/// The uniqueness stage keeps or rejects each config exactly once.
proof fn lemma_unique_split(cs: Seq<ConfigView>)
    ensures
        config_metas(cs).to_multiset() == extracted_metas(unique_configs(cs)).to_multiset().add(
            dlq_metas(duplicate_entries(cs)).to_multiset(),
        ),
    decreases cs.len(),
{
    if cs.len() == 0 {
        assert(config_metas(cs) == Seq::<MetaView>::empty());
        assert(extracted_metas(unique_configs(cs)) == Seq::<MetaView>::empty());
        assert(dlq_metas(duplicate_entries(cs)) == Seq::<MetaView>::empty());
        assert(Multiset::<MetaView>::empty().add(Multiset::empty()) =~= Multiset::empty());
    } else {
        let init = cs.drop_last();
        let m = cs.last().meta();
        lemma_unique_split(init);
        assert(config_metas(cs) == config_metas(init).push(m));
        to_multiset_build(config_metas(init), m);
        let u = extracted_metas(unique_configs(init)).to_multiset();
        let d = dlq_metas(duplicate_entries(init)).to_multiset();
        if seen_before(cs, cs.len() - 1) {
            lemma_dlq_metas_push(
                duplicate_entries(init),
                crate::model::dlq_entry(m, crate::builder::not_unique_reason(cs.last().key())),
            );
            assert(u.add(d).insert(m) =~= u.add(d.insert(m)));
        } else {
            lemma_extracted_metas_push(unique_configs(init), cs.last().extracted());
            assert(u.add(d).insert(m) =~= u.insert(m).add(d));
        }
    }
}

/// One pruning pass keeps or drops each service exactly once.
proof fn lemma_pass_split(s: Seq<ExtractedView>, all: Seq<ExtractedView>)
    ensures
        extracted_metas(s).to_multiset() == extracted_metas(pass_kept(s, all)).to_multiset().add(
            dlq_metas(pass_dropped(s, all)).to_multiset(),
        ),
    decreases s.len(),
{
    if s.len() == 0 {
        assert(extracted_metas(s) == Seq::<MetaView>::empty());
        assert(extracted_metas(pass_kept(s, all)) == Seq::<MetaView>::empty());
        assert(dlq_metas(pass_dropped(s, all)) == Seq::<MetaView>::empty());
        assert(Multiset::<MetaView>::empty().add(Multiset::empty()) =~= Multiset::empty());
    } else {
        let init = s.drop_last();
        let m = s.last().meta;
        lemma_pass_split(init, all);
        lemma_extracted_metas_push(init, s.last());
        assert(s == init.push(s.last()));
        let k = extracted_metas(pass_kept(init, all)).to_multiset();
        let d = dlq_metas(pass_dropped(init, all)).to_multiset();
        if crate::builder::deps_resolved(all, s.last()) {
            lemma_extracted_metas_push(pass_kept(init, all), s.last());
            assert(k.add(d).insert(m) =~= k.insert(m).add(d));
        } else {
            lemma_dlq_metas_push(pass_dropped(init, all), crate::builder::missing_entry(all, s.last()));
            assert(k.add(d).insert(m) =~= k.add(d.insert(m)));
        }
    }
}

/// Pruning to a fixed point keeps or drops each service exactly once.
proof fn lemma_prune_split(s: Seq<ExtractedView>, n: nat)
    ensures
        extracted_metas(s).to_multiset() == extracted_metas(prune_n(s, n)).to_multiset().add(
            dlq_metas(prune_dropped_n(s, n)).to_multiset(),
        ),
    decreases n,
{
    let e = extracted_metas(s).to_multiset();
    if n == 0 || pass_kept(s, s).len() == s.len() {
        assert(dlq_metas(Seq::<DlqView>::empty()) == Seq::<MetaView>::empty());
        assert(e.add(Multiset::empty()) =~= e);
    } else {
        let k = pass_kept(s, s);
        lemma_pass_split(s, s);
        lemma_prune_split(k, (n - 1) as nat);
        lemma_dlq_metas_add(pass_dropped(s, s), prune_dropped_n(k, (n - 1) as nat));
        let a = extracted_metas(prune_n(k, (n - 1) as nat)).to_multiset();
        let b = dlq_metas(prune_dropped_n(k, (n - 1) as nat)).to_multiset();
        let c = dlq_metas(pass_dropped(s, s)).to_multiset();
        assert(a.add(b).add(c) =~= a.add(c.add(b)));
    }
}

proof fn lemma_class_metas_push(s: Seq<ExtractedView>, cls: Seq<usize>, v: usize)
    ensures
        class_metas(s, cls.push(v)).to_multiset() == class_metas(s, cls).to_multiset().insert(
            s[v as int].meta,
        ),
{
    assert(class_metas(s, cls.push(v)) == class_metas(s, cls).push(s[v as int].meta));
    to_multiset_build(class_metas(s, cls), s[v as int].meta);
}

proof fn lemma_class_metas_all_update(s: Seq<ExtractedView>, cl: Seq<Seq<usize>>, g: int, v: usize)
    requires
        0 <= g < cl.len(),
    ensures
        class_metas_all(s, cl.update(g, cl[g].push(v))) == class_metas_all(s, cl).insert(s[v as int].meta),
    decreases cl.len(),
{
    let nl = cl.update(g, cl[g].push(v));
    let m = s[v as int].meta;
    if g == cl.len() - 1 {
        assert(nl.drop_last() == cl.drop_last());
        lemma_class_metas_push(s, cl[g], v);
        let a = class_metas_all(s, cl.drop_last());
        let b = class_metas(s, cl[g]).to_multiset();
        assert(a.add(b.insert(m)) =~= a.add(b).insert(m));
    } else {
        assert(nl.drop_last() == cl.drop_last().update(g, cl[g].push(v)));
        lemma_class_metas_all_update(s, cl.drop_last(), g, v);
        let a = class_metas_all(s, cl.drop_last());
        let b = class_metas(s, cl.last()).to_multiset();
        assert(a.insert(m).add(b) =~= a.add(b).insert(m));
    }
}

/// The classes of `0..n` hold each of the first `n` services exactly once.
proof fn lemma_classes_split(s: Seq<ExtractedView>, pairs: Seq<(int, int)>, n: nat)
    requires
        n <= s.len(),
        s.len() <= usize::MAX,
    ensures
        class_metas_all(s, classes(pairs, n)) == extracted_metas(s.take(n as int)).to_multiset(),
    decreases n,
{
    if n == 0 {
        assert(extracted_metas(s.take(0)) == Seq::<MetaView>::empty());
    } else {
        lemma_classes_split(s, pairs, (n - 1) as nat);
        let c = classes(pairs, (n - 1) as nat);
        let g = class_of(c, pairs, n - 1, 0);
        let v = (n - 1) as usize;
        assert(s.take(n as int) == s.take(n - 1).push(s[n - 1]));
        lemma_extracted_metas_push(s.take(n - 1), s[n - 1]);
        crate::builder::lemma_class_of_range(c, pairs, n - 1, 0);
        if g < c.len() {
            lemma_class_metas_all_update(s, c, g, v);
        } else {
            let nc = c.push(seq![v]);
            assert(nc.drop_last() == c);
            assert(class_metas(s, seq![v])[0] == s[n - 1].meta);
            assert(class_metas(s, seq![v]) == seq![s[n - 1].meta]);
            assert(seq![s[n - 1].meta] == Seq::<MetaView>::empty().push(s[n - 1].meta));
            to_multiset_build(Seq::<MetaView>::empty(), s[n - 1].meta);
            let a = class_metas_all(s, c);
            assert(a.add(Multiset::<MetaView>::empty().insert(s[n - 1].meta)) =~= a.insert(
                s[n - 1].meta,
            ));
        }
    }
}

/// Each class becomes a group or a dead-letter record for each member.
proof fn lemma_outcomes_split(s: Seq<ExtractedView>, cl: Seq<Seq<usize>>)
    ensures
        class_metas_all(s, cl) == group_metas(outcomes(s, cl).0).add(
            dlq_metas(outcomes(s, cl).1).to_multiset(),
        ),
    decreases cl.len(),
{
    if cl.len() == 0 {
        assert(dlq_metas(Seq::<DlqView>::empty()) == Seq::<MetaView>::empty());
        assert(Multiset::<MetaView>::empty().add(Multiset::empty()) =~= Multiset::empty());
    } else {
        let init = cl.drop_last();
        lemma_outcomes_split(s, init);
        let (gs, ds) = outcomes(s, init);
        let (o, d) = group_outcome(s, cl.last());
        let ms = class_metas(s, cl.last());
        lemma_dlq_metas_add(ds, d);
        let a = group_metas(gs);
        let b = dlq_metas(ds).to_multiset();
        let c = ms.to_multiset();
        match o {
            Some(v) => {
                assert(gs.push(v).drop_last() == gs);
                assert(dlq_metas(d) == Seq::<MetaView>::empty());
                assert(a.add(b).add(c) =~= a.add(c).add(b.add(Multiset::empty())));
            },
            None => {
                assert(dlq_metas(d) == ms) by {
                    let r2 = rejected(ms, crate::builder::cyclic_reason());
                    assert(dlq_metas(r2) == ms);
                }
                assert(a.add(b).add(c) =~= a.add(b.add(c)));
            },
        }
    }
}

proof fn lemma_unique_len(cs: Seq<ConfigView>)
    ensures
        unique_configs(cs).len() <= cs.len(),
    decreases cs.len(),
{
    if cs.len() > 0 {
        lemma_unique_len(cs.drop_last());
    }
}

proof fn lemma_prune_len(s: Seq<ExtractedView>, n: nat)
    ensures
        prune_n(s, n).len() <= s.len(),
    decreases n,
{
    crate::builder::lemma_pass_lens(s, s);
    if n > 0 && pass_kept(s, s).len() != s.len() {
        lemma_prune_len(pass_kept(s, s), (n - 1) as nat);
    }
}

/// Every config of the input is accounted for exactly once: the metadata of
/// the input configs, counted with multiplicity, is that of the members of
/// the built groups together with that of the dead-letter records.
pub proof fn lemma_every_config_accounted_once(cs: Seq<ConfigView>)
    requires
        cs.len() <= usize::MAX,
    ensures
        config_metas(cs).to_multiset() == group_metas(built_groups(cs)).add(
            dlq_metas(built_dlq(cs)).to_multiset(),
        ),
{
    let u = unique_configs(cs);
    let s = survivors(cs);
    let cl = components(s);
    lemma_unique_split(cs);
    lemma_prune_split(u, u.len());
    lemma_unique_len(cs);
    lemma_prune_len(u, u.len());
    lemma_classes_split(s, crate::builder::dep_pairs(s), s.len());
    assert(s.take(s.len() as int) == s);
    lemma_outcomes_split(s, cl);
    let d1 = duplicate_entries(cs);
    let d2 = pruned_dropped(u);
    let d3 = outcomes(s, cl).1;
    lemma_dlq_metas_add(d1, d2);
    lemma_dlq_metas_add(d1 + d2, d3);
    let g = group_metas(outcomes(s, cl).0);
    let m1 = dlq_metas(d1).to_multiset();
    let m2 = dlq_metas(d2).to_multiset();
    let m3 = dlq_metas(d3).to_multiset();
    assert(m1.add(g.add(m3).add(m2)) =~= g.add(m1.add(m2).add(m3)));
}


proof fn lemma_outcomes_acyclic(s: Seq<ExtractedView>, cl: Seq<Seq<usize>>)
    ensures
        forall|g: int|
            0 <= g < outcomes(s, cl).0.len() ==> !has_cycle(#[trigger] outcomes(s, cl).0[g].edges),
    decreases cl.len(),
{
    if cl.len() > 0 {
        lemma_outcomes_acyclic(s, cl.drop_last());
        let gs = outcomes(s, cl.drop_last()).0;
        assert forall|g: int| 0 <= g < outcomes(s, cl).0.len() implies !has_cycle(
            #[trigger] outcomes(s, cl).0[g].edges,
        ) by {
            if g < gs.len() {
                assert(outcomes(s, cl).0[g] == gs[g]);
            }
        }
    }
}

/// Every built group's dependency graph is acyclic; in particular no
/// service of a group depends on itself.
pub proof fn lemma_built_groups_acyclic(cs: Seq<ConfigView>)
    ensures
        forall|g: int| 0 <= g < built_groups(cs).len() ==> !has_cycle(#[trigger] built_groups(cs)[g].edges),
        forall|g: int, e: int|
            0 <= g < built_groups(cs).len() && 0 <= e < built_groups(cs)[g].edges.len()
                ==> #[trigger] built_groups(cs)[g].edges[e].0 != built_groups(cs)[g].edges[e].1,
{
    let s = survivors(cs);
    lemma_outcomes_acyclic(s, components(s));
    assert forall|g: int, e: int|
        0 <= g < built_groups(cs).len() && 0 <= e < built_groups(cs)[g].edges.len()
            implies #[trigger] built_groups(cs)[g].edges[e].0 != built_groups(cs)[g].edges[e].1 by {
        let edges = built_groups(cs)[g].edges;
        if edges[e].0 == edges[e].1 {
            let p = seq![edges[e].0, edges[e].1];
            assert(edges.contains((p[0], p[1])));
            assert(is_walk(edges, p));
            assert(has_cycle(edges));
        }
    }
}

/// Building is a function of the input: equal inputs give equal groups
/// (same members, same order) and equal dead-letter records.
pub proof fn lemma_build_deterministic(a: Seq<ConfigView>, b: Seq<ConfigView>)
    requires
        a == b,
    ensures
        built_groups(a) == built_groups(b),
        built_dlq(a) == built_dlq(b),
{
}

proof fn lemma_unique_contains(cs: Seq<ConfigView>, i: int)
    requires
        0 <= i < cs.len(),
        !seen_before(cs, i),
    ensures
        unique_configs(cs).contains(cs[i].extracted()),
    decreases cs.len(),
{
    let init = cs.drop_last();
    if i < cs.len() - 1 {
        assert(!seen_before(init, i)) by {
            if seen_before(init, i) {
                let j = choose|j: int| 0 <= j < i && #[trigger] init[j].key() == init[i].key();
                assert(cs[j].key() == cs[i].key());
            }
        }
        lemma_unique_contains(init, i);
        let u0 = unique_configs(init);
        let m = choose|m: int| 0 <= m < u0.len() && u0[m] == cs[i].extracted();
        if !seen_before(cs, cs.len() - 1) {
            assert(unique_configs(cs)[m] == u0[m]);
        }
    } else {
        let u = unique_configs(cs);
        assert(u[u.len() - 1] == cs[i].extracted());
    }
}

proof fn lemma_pass_dropped_contains(s: Seq<ExtractedView>, all: Seq<ExtractedView>, x: ExtractedView)
    requires
        s.contains(x),
        !crate::builder::deps_resolved(all, x),
    ensures
        pass_dropped(s, all).contains(crate::builder::missing_entry(all, x)),
    decreases s.len(),
{
    let init = s.drop_last();
    if s.last() == x {
        let d = pass_dropped(s, all);
        assert(d[d.len() - 1] == crate::builder::missing_entry(all, x));
    } else {
        let m = choose|m: int| 0 <= m < s.len() && s[m] == x;
        assert(init[m] == x);
        lemma_pass_dropped_contains(init, all, x);
        let d0 = pass_dropped(init, all);
        let j = choose|j: int| 0 <= j < d0.len() && d0[j] == crate::builder::missing_entry(all, x);
        assert(pass_dropped(s, all)[j] == d0[j]);
    }
}

/// A service whose only dependency is the key of no config is rejected
/// with the "not found" reason naming that dependency.
pub proof fn lemma_lone_missing_dependency(cs: Seq<ConfigView>, i: int)
    requires
        0 <= i < cs.len(),
        !seen_before(cs, i),
        cs[i].deps.len() == 1,
        forall|j: int| 0 <= j < cs.len() ==> #[trigger] cs[j].key() != cs[i].deps[0],
    ensures
        built_dlq(cs).contains(
            crate::model::dlq_entry(cs[i].meta(), crate::builder::missing_reason(cs[i].deps[0])),
        ),
{
    let u = unique_configs(cs);
    let x = cs[i].extracted();
    let d = cs[i].deps[0];
    lemma_unique_contains(cs, i);
    crate::builder::lemma_unique_configs(cs);
    assert(!crate::builder::has_key(u, d));
    assert(!crate::builder::deps_resolved(u, x)) by {
        assert(x.deps[0] == d);
    }
    assert(crate::builder::first_missing_from(u, x.deps, 0) == 0);
    lemma_pass_dropped_contains(u, u, x);
    let entry = crate::builder::missing_entry(u, x);
    assert(entry == crate::model::dlq_entry(cs[i].meta(), crate::builder::missing_reason(d)));
    crate::builder::lemma_pass_lens(u, u);
    let pd = pass_dropped(u, u);
    assert(pd.len() > 0) by {
        let j = choose|j: int| 0 <= j < pd.len() && pd[j] == entry;
    }
    let rest = prune_dropped_n(pass_kept(u, u), (u.len() - 1) as nat);
    assert(pruned_dropped(u) == pd + rest);
    let j = choose|j: int| 0 <= j < pd.len() && pd[j] == entry;
    let all = built_dlq(cs);
    let dup = duplicate_entries(cs);
    assert(all[dup.len() + j] == entry);
}


/// `p` steps from each element to the next across one of `pairs`, in
/// either direction.
pub open spec fn is_undirected_walk(pairs: Seq<(int, int)>, p: Seq<int>) -> bool {
    &&& p.len() >= 1
    &&& forall|k: int|
        0 <= k < p.len() - 1 ==> #[trigger] pairs.contains((p[k], p[k + 1])) || pairs.contains(
            (p[k + 1], p[k]),
        )
}

/// Some undirected walk over `pairs` leads from `i` to `j`.
pub open spec fn linked(pairs: Seq<(int, int)>, i: int, j: int) -> bool {
    exists|p: Seq<int>| #[trigger] is_undirected_walk(pairs, p) && p[0] == i && p[p.len() - 1] == j
}

proof fn lemma_joined_refl(pairs: Seq<(int, int)>, i: int)
    ensures
        joined(pairs, i, i),
    decreases pairs.len(),
{
    if pairs.len() > 0 {
        lemma_joined_refl(pairs.drop_last(), i);
    }
}

proof fn lemma_joined_sym(pairs: Seq<(int, int)>, i: int, j: int)
    requires
        joined(pairs, i, j),
    ensures
        joined(pairs, j, i),
    decreases pairs.len(),
{
    if pairs.len() > 0 {
        let p = pairs.drop_last();
        let (x, y) = pairs.last();
        if joined(p, i, j) {
            lemma_joined_sym(p, i, j);
        } else if joined(p, i, x) && joined(p, j, y) {
        } else {
        }
    }
}

proof fn lemma_joined_trans(pairs: Seq<(int, int)>, a: int, b: int, c: int)
    requires
        joined(pairs, a, b),
        joined(pairs, b, c),
    ensures
        joined(pairs, a, c),
    decreases pairs.len(),
{
    if pairs.len() > 0 {
        let p = pairs.drop_last();
        let (x, y) = pairs.last();
        if joined(p, a, b) {
            if joined(p, b, c) {
                lemma_joined_trans(p, a, b, c);
            } else if joined(p, b, x) && joined(p, c, y) {
                lemma_joined_trans(p, a, b, x);
            } else {
                lemma_joined_trans(p, a, b, y);
            }
        } else if joined(p, a, x) && joined(p, b, y) {
            if joined(p, b, c) {
                lemma_joined_sym(p, b, c);
                lemma_joined_trans(p, c, b, y);
            } else if joined(p, b, x) && joined(p, c, y) {
            } else {
                lemma_joined_sym(p, c, x);
                lemma_joined_trans(p, a, x, c);
            }
        } else {
            if joined(p, b, c) {
                lemma_joined_sym(p, b, c);
                lemma_joined_trans(p, c, b, x);
            } else if joined(p, b, x) && joined(p, c, y) {
                lemma_joined_sym(p, c, y);
                lemma_joined_trans(p, a, y, c);
            } else {
            }
        }
    }
}

proof fn lemma_joined_pair(pairs: Seq<(int, int)>, x: int, y: int)
    requires
        pairs.contains((x, y)),
    ensures
        joined(pairs, x, y),
    decreases pairs.len(),
{
    let p = pairs.drop_last();
    if pairs.last() == (x, y) {
        lemma_joined_refl(p, x);
        lemma_joined_refl(p, y);
    } else {
        let k = choose|k: int| 0 <= k < pairs.len() && pairs[k] == (x, y);
        assert(p[k] == (x, y));
        lemma_joined_pair(p, x, y);
    }
}

proof fn lemma_linked_joined(pairs: Seq<(int, int)>, w: Seq<int>)
    requires
        is_undirected_walk(pairs, w),
    ensures
        joined(pairs, w[0], w[w.len() - 1]),
    decreases w.len(),
{
    if w.len() == 1 {
        lemma_joined_refl(pairs, w[0]);
    } else {
        let v = w.drop_last();
        assert(is_undirected_walk(pairs, v)) by {
            assert forall|k: int| 0 <= k < v.len() - 1 implies #[trigger] pairs.contains((v[k], v[k + 1]))
                || pairs.contains((v[k + 1], v[k])) by {
                assert(pairs.contains((w[k], w[k + 1])) || pairs.contains((w[k + 1], w[k])));
            }
        }
        lemma_linked_joined(pairs, v);
        let n = w.len() - 2;
        assert(pairs.contains((w[n], w[n + 1])) || pairs.contains((w[n + 1], w[n])));
        if pairs.contains((w[n], w[n + 1])) {
            lemma_joined_pair(pairs, w[n], w[n + 1]);
        } else {
            lemma_joined_pair(pairs, w[n + 1], w[n]);
            lemma_joined_sym(pairs, w[n + 1], w[n]);
        }
        lemma_joined_trans(pairs, w[0], w[n], w[n + 1]);
    }
}

proof fn lemma_walk_grow(pairs: Seq<(int, int)>, e: (int, int), w: Seq<int>)
    requires
        is_undirected_walk(pairs, w),
    ensures
        is_undirected_walk(pairs.push(e), w),
{
    assert forall|k: int| 0 <= k < w.len() - 1 implies #[trigger] pairs.push(e).contains((w[k], w[k + 1]))
        || pairs.push(e).contains((w[k + 1], w[k])) by {
        if pairs.contains((w[k], w[k + 1])) {
            let m = choose|m: int| 0 <= m < pairs.len() && pairs[m] == (w[k], w[k + 1]);
            assert(pairs.push(e)[m] == (w[k], w[k + 1]));
        } else {
            assert(pairs.contains((w[k + 1], w[k])));
            let m = choose|m: int| 0 <= m < pairs.len() && pairs[m] == (w[k + 1], w[k]);
            assert(pairs.push(e)[m] == (w[k + 1], w[k]));
        }
    }
}

proof fn lemma_walk_reverse(pairs: Seq<(int, int)>, w: Seq<int>)
    requires
        is_undirected_walk(pairs, w),
    ensures
        is_undirected_walk(pairs, w.reverse()),
        w.reverse()[0] == w[w.len() - 1],
        w.reverse()[w.len() - 1] == w[0],
{
    let r = w.reverse();
    assert forall|k: int| 0 <= k < r.len() - 1 implies #[trigger] pairs.contains((r[k], r[k + 1]))
        || pairs.contains((r[k + 1], r[k])) by {
        let j = w.len() - 2 - k;
        assert(r[k] == w[j + 1] && r[k + 1] == w[j]);
        assert(pairs.contains((w[j], w[j + 1])) || pairs.contains((w[j + 1], w[j])));
    }
}

proof fn lemma_walk_join(pairs: Seq<(int, int)>, a: Seq<int>, b: Seq<int>)
    requires
        is_undirected_walk(pairs, a),
        is_undirected_walk(pairs, b),
        pairs.contains((a[a.len() - 1], b[0])) || pairs.contains((b[0], a[a.len() - 1])),
    ensures
        is_undirected_walk(pairs, a + b),
        (a + b)[0] == a[0],
        (a + b)[a.len() + b.len() - 1] == b[b.len() - 1],
{
    let c = a + b;
    assert forall|k: int| 0 <= k < c.len() - 1 implies #[trigger] pairs.contains((c[k], c[k + 1]))
        || pairs.contains((c[k + 1], c[k])) by {
        if k < a.len() - 1 {
            assert(c[k] == a[k] && c[k + 1] == a[k + 1]);
            assert(pairs.contains((a[k], a[k + 1])) || pairs.contains((a[k + 1], a[k])));
        } else if k == a.len() - 1 {
            assert(c[k] == a[a.len() - 1] && c[k + 1] == b[0]);
        } else {
            let j = k - a.len();
            assert(c[k] == b[j] && c[k + 1] == b[j + 1]);
            assert(pairs.contains((b[j], b[j + 1])) || pairs.contains((b[j + 1], b[j])));
        }
    }
}

proof fn lemma_joined_linked(pairs: Seq<(int, int)>, i: int, j: int)
    requires
        joined(pairs, i, j),
    ensures
        linked(pairs, i, j),
    decreases pairs.len(),
{
    if pairs.len() == 0 {
        let w = seq![i];
        assert(is_undirected_walk(pairs, w));
    } else {
        let p = pairs.drop_last();
        let e = pairs.last();
        let (x, y) = e;
        assert(pairs == p.push(e));
        assert(pairs.contains((x, y))) by {
            assert(pairs[pairs.len() - 1] == (x, y));
        }
        if joined(p, i, j) {
            lemma_joined_linked(p, i, j);
            let w = choose|w: Seq<int>| #[trigger] is_undirected_walk(p, w) && w[0] == i && w[w.len() - 1] == j;
            lemma_walk_grow(p, e, w);
        } else {
            let (u, v) = if joined(p, i, x) && joined(p, j, y) {
                (x, y)
            } else {
                (y, x)
            };
            assert(pairs.contains((u, v)) || pairs.contains((v, u)));
            lemma_joined_linked(p, i, u);
            lemma_joined_linked(p, j, v);
            let a = choose|w: Seq<int>| #[trigger] is_undirected_walk(p, w) && w[0] == i && w[w.len() - 1] == u;
            let b = choose|w: Seq<int>| #[trigger] is_undirected_walk(p, w) && w[0] == j && w[w.len() - 1] == v;
            lemma_walk_grow(p, e, a);
            lemma_walk_grow(p, e, b);
            lemma_walk_reverse(pairs, b);
            lemma_walk_join(pairs, a, b.reverse());
            assert(is_undirected_walk(pairs, a + b.reverse()));
        }
    }
}

/// The classes that the builder forms are those of undirected connectivity:
/// two services are joined exactly when a chain of dependencies, followed in
/// either direction, links them. So each group is a weakly connected component.
pub proof fn lemma_joined_is_connectivity(pairs: Seq<(int, int)>, i: int, j: int)
    ensures
        joined(pairs, i, j) <==> linked(pairs, i, j),
{
    if joined(pairs, i, j) {
        lemma_joined_linked(pairs, i, j);
    }
    if linked(pairs, i, j) {
        let w = choose|w: Seq<int>| #[trigger] is_undirected_walk(pairs, w) && w[0] == i && w[w.len() - 1] == j;
        lemma_linked_joined(pairs, w);
    }
}


/// No two services of the groups `gs` share a key.
pub open spec fn group_keys_unique(gs: Seq<GroupView>) -> bool {
    forall|g1: int, k1: int, g2: int, k2: int|
        0 <= g1 < gs.len() && 0 <= k1 < gs[g1].metas.len() && 0 <= g2 < gs.len() && 0 <= k2
            < gs[g2].metas.len() && #[trigger] gs[g1].metas[k1].key() == #[trigger] gs[g2].metas[k2].key()
            ==> g1 == g2 && k1 == k2
}

proof fn lemma_pass_kept_keys(s: Seq<ExtractedView>, all: Seq<ExtractedView>)
    ensures
        forall|k: KeyView| #[trigger] has_key(pass_kept(s, all), k) ==> has_key(s, k),
        keys_unique(s) ==> keys_unique(pass_kept(s, all)),
    decreases s.len(),
{
    if s.len() > 0 {
        let init = s.drop_last();
        lemma_pass_kept_keys(init, all);
        let r = pass_kept(init, all);
        let kr = pass_kept(s, all);
        assert forall|k: KeyView| #[trigger] has_key(kr, k) implies has_key(s, k) by {
            let m = choose|m: int| 0 <= m < kr.len() && #[trigger] kr[m].meta.key() == k;
            if m < r.len() {
                assert(kr[m] == r[m]);
                assert(has_key(r, k));
                let j = choose|j: int| 0 <= j < init.len() && #[trigger] init[j].meta.key() == k;
                assert(s[j] == init[j]);
            } else {
                assert(s[s.len() - 1].meta.key() == k);
            }
        }
        if keys_unique(s) {
            assert(keys_unique(init)) by {
                assert forall|a: int, b: int|
                    0 <= a < init.len() && 0 <= b < init.len() && #[trigger] init[a].meta.key()
                        == #[trigger] init[b].meta.key() implies a == b by {
                    assert(s[a] == init[a] && s[b] == init[b]);
                }
            }
            if crate::builder::deps_resolved(all, s.last()) {
                assert forall|a: int, b: int|
                    0 <= a < kr.len() && 0 <= b < kr.len() && #[trigger] kr[a].meta.key()
                        == #[trigger] kr[b].meta.key() implies a == b by {
                    if a < r.len() && b < r.len() {
                        assert(kr[a] == r[a] && kr[b] == r[b]);
                    } else if a < r.len() {
                        assert(kr[a] == r[a]);
                        assert(has_key(r, kr[a].meta.key()));
                        let j = choose|j: int| 0 <= j < init.len() && #[trigger] init[j].meta.key() == kr[a].meta.key();
                        assert(s[j] == init[j]);
                        assert(s[j].meta.key() == s[s.len() - 1].meta.key());
                    } else if b < r.len() {
                        assert(kr[b] == r[b]);
                        assert(has_key(r, kr[b].meta.key()));
                        let j = choose|j: int| 0 <= j < init.len() && #[trigger] init[j].meta.key() == kr[b].meta.key();
                        assert(s[j] == init[j]);
                        assert(s[j].meta.key() == s[s.len() - 1].meta.key());
                    }
                }
            }
        }
    }
}

proof fn lemma_prune_keys_unique(s: Seq<ExtractedView>, n: nat)
    requires
        keys_unique(s),
    ensures
        keys_unique(prune_n(s, n)),
    decreases n,
{
    if n > 0 && pass_kept(s, s).len() != s.len() {
        lemma_pass_kept_keys(s, s);
        lemma_prune_keys_unique(pass_kept(s, s), (n - 1) as nat);
    }
}

/// Each position appears at one place only among the classes.
proof fn lemma_classes_injective(pairs: Seq<(int, int)>, n: nat)
    requires
        n <= usize::MAX,
    ensures
        forall|g1: int, k1: int, g2: int, k2: int|
            0 <= g1 < classes(pairs, n).len() && 0 <= k1 < classes(pairs, n)[g1].len() && 0 <= g2
                < classes(pairs, n).len() && 0 <= k2 < classes(pairs, n)[g2].len()
                && #[trigger] classes(pairs, n)[g1][k1] == #[trigger] classes(pairs, n)[g2][k2] ==> g1
                == g2 && k1 == k2,
    decreases n,
{
    if n > 0 {
        let c = classes(pairs, (n - 1) as nat);
        let nc = classes(pairs, n);
        lemma_classes_injective(pairs, (n - 1) as nat);
        lemma_classes_range(pairs, (n - 1) as nat);
        crate::builder::lemma_class_of_range(c, pairs, n - 1, 0);
        let g = class_of(c, pairs, n - 1, 0);
        let x = (n - 1) as usize;
        assert(x == n - 1);
        assert forall|g1: int, k1: int|
            0 <= g1 < nc.len() && 0 <= k1 < nc[g1].len() implies (g1 < c.len() && k1 < c[g1].len()
                && #[trigger] nc[g1][k1] == c[g1][k1] && c[g1][k1] < n - 1) || (nc[g1][k1] == x && (
            if g < c.len() {
                g1 == g && k1 == c[g].len()
            } else {
                g1 == c.len() && k1 == 0
            })) by {
            if g < c.len() {
                if g1 == g && k1 == c[g].len() {
                } else {
                    assert(nc[g1][k1] == c[g1][k1]);
                }
            } else {
                if g1 < c.len() {
                    assert(nc[g1][k1] == c[g1][k1]);
                }
            }
        }
    }
}

/// The positions in `cl` of the classes that became groups, in order.
pub open spec fn kept_classes(s: Seq<ExtractedView>, cl: Seq<Seq<usize>>) -> Seq<int>
    decreases cl.len(),
{
    if cl.len() == 0 {
        Seq::empty()
    } else {
        let r = kept_classes(s, cl.drop_last());
        if group_outcome(s, cl.last()).0 is Some {
            r.push(cl.len() - 1)
        } else {
            r
        }
    }
}

proof fn lemma_kept_classes(s: Seq<ExtractedView>, cl: Seq<Seq<usize>>)
    ensures
        kept_classes(s, cl).len() == outcomes(s, cl).0.len(),
        forall|g: int|
            0 <= g < kept_classes(s, cl).len() ==> 0 <= #[trigger] kept_classes(s, cl)[g] < cl.len()
                && outcomes(s, cl).0[g].metas == class_metas(s, cl[kept_classes(s, cl)[g]]),
        forall|g1: int, g2: int|
            0 <= g1 < g2 < kept_classes(s, cl).len() ==> #[trigger] kept_classes(s, cl)[g1]
                < #[trigger] kept_classes(s, cl)[g2],
    decreases cl.len(),
{
    if cl.len() > 0 {
        let init = cl.drop_last();
        lemma_kept_classes(s, init);
        let r = kept_classes(s, init);
        let gs = outcomes(s, init).0;
        let kc = kept_classes(s, cl);
        let ngs = outcomes(s, cl).0;
        assert forall|g: int| 0 <= g < kc.len() implies 0 <= #[trigger] kc[g] < cl.len()
            && ngs[g].metas == class_metas(s, cl[kc[g]]) by {
            if g < r.len() {
                assert(kc[g] == r[g]);
                assert(ngs[g] == gs[g]);
                assert(cl[r[g]] == init[r[g]]);
            }
        }
    }
}

/// No two services of the built groups share a key, across all groups.
pub proof fn lemma_built_keys_unique(cs: Seq<ConfigView>)
    requires
        cs.len() <= usize::MAX,
    ensures
        group_keys_unique(built_groups(cs)),
{
    let u = unique_configs(cs);
    let s = survivors(cs);
    let pairs = crate::builder::dep_pairs(s);
    let cl = components(s);
    let gs = built_groups(cs);
    crate::builder::lemma_unique_configs(cs);
    lemma_prune_keys_unique(u, u.len());
    lemma_unique_len(cs);
    lemma_prune_len(u, u.len());
    lemma_classes_injective(pairs, s.len());
    lemma_classes_range(pairs, s.len());
    lemma_kept_classes(s, cl);
    let kc = kept_classes(s, cl);
    assert forall|g1: int, k1: int, g2: int, k2: int|
        0 <= g1 < gs.len() && 0 <= k1 < gs[g1].metas.len() && 0 <= g2 < gs.len() && 0 <= k2
            < gs[g2].metas.len() && #[trigger] gs[g1].metas[k1].key() == #[trigger] gs[g2].metas[k2].key()
            implies g1 == g2 && k1 == k2 by {
        let c1 = kc[g1];
        let c2 = kc[g2];
        let p1 = cl[c1][k1];
        let p2 = cl[c2][k2];
        assert(gs[g1].metas == class_metas(s, cl[c1]));
        assert(gs[g2].metas == class_metas(s, cl[c2]));
        assert(gs[g1].metas[k1] == s[p1 as int].meta);
        assert(gs[g2].metas[k2] == s[p2 as int].meta);
        assert(p1 < s.len() && p2 < s.len());
        assert(s[p1 as int].meta.key() == s[p2 as int].meta.key());
        assert(p1 == p2);
        assert(c1 == c2 && k1 == k2);
        if g1 < g2 {
            assert(kc[g1] < kc[g2]);
        } else if g2 < g1 {
            assert(kc[g2] < kc[g1]);
        }
    }
}


/// Two services with distinct keys and no dependencies form two groups of
/// one service each, and nothing is rejected.
pub proof fn lemma_two_independent_services(cs: Seq<ConfigView>)
    requires
        cs.len() == 2,
        cs[0].key() != cs[1].key(),
        cs[0].deps.len() == 0,
        cs[1].deps.len() == 0,
    ensures
        built_groups(cs).len() == 2,
        built_groups(cs)[0].metas == seq![cs[0].meta()],
        built_groups(cs)[1].metas == seq![cs[1].meta()],
        built_dlq(cs).len() == 0,
{
    let c0 = cs.drop_last();
    assert(c0.drop_last().len() == 0);
    assert(!seen_before(c0, 0));
    assert(!seen_before(cs, 1)) by {
        if seen_before(cs, 1) {
            let j = choose|j: int| 0 <= j < 1 && #[trigger] cs[j].key() == cs[1].key();
            assert(j == 0);
        }
    }
    let u = unique_configs(cs);
    assert(unique_configs(c0.drop_last()) == Seq::<ExtractedView>::empty());
    assert(duplicate_entries(c0.drop_last()) == Seq::<DlqView>::empty());
    assert(c0.last() == cs[0]);
    assert(unique_configs(c0) == seq![cs[0].extracted()]);
    assert(u == seq![cs[0].extracted(), cs[1].extracted()]);
    assert(duplicate_entries(c0) == Seq::<DlqView>::empty());
    assert(duplicate_entries(cs) == Seq::<DlqView>::empty());
    let u0 = u.drop_last();
    assert(u0.drop_last().len() == 0);
    assert(crate::builder::deps_resolved(u, u[0]));
    assert(crate::builder::deps_resolved(u, u[1]));
    assert(pass_kept(u0.drop_last(), u) == Seq::<ExtractedView>::empty());
    assert(u0.last() == u[0]);
    assert(pass_kept(u0, u) == seq![u[0]]);
    assert(pass_kept(u, u) == u);
    let s = survivors(cs);
    assert(s == u);
    assert(pruned_dropped(u) == Seq::<DlqView>::empty());
    let pairs = crate::builder::dep_pairs(s);
    assert(crate::builder::dep_pairs_of(s, 0) == Seq::<(int, int)>::empty());
    assert(crate::builder::dep_pairs_of(s, 1) == Seq::<(int, int)>::empty());
    assert(crate::builder::dep_pairs_upto(s, 0) == Seq::<(int, int)>::empty());
    assert(crate::builder::dep_pairs_upto(s, 1) == Seq::<(int, int)>::empty());
    assert(pairs == Seq::<(int, int)>::empty());
    let c1 = classes(pairs, 1);
    assert(classes(pairs, 0) == Seq::<Seq<usize>>::empty());
    assert(class_of(Seq::<Seq<usize>>::empty(), pairs, 0, 0) == 0);
    assert(((1 - 1) as nat) == 0nat);
    assert(c1 == Seq::<Seq<usize>>::empty().push(seq![0usize]));
    assert(c1 == seq![seq![0usize]]);
    assert(!joined(pairs, 0, 1));
    assert(class_of(c1, pairs, 1, 1) == 1);
    assert(class_of(c1, pairs, 1, 0) == 1);
    let cl = components(s);
    assert(cl == seq![seq![0usize], seq![1usize]]);
    let e = Seq::<(usize, usize)>::empty();
    assert(!has_cycle(e)) by {
        if has_cycle(e) {
            let p = choose|p: Seq<usize>| #[trigger] is_walk(e, p) && p.len() >= 2 && p[0] == p[p.len() - 1];
            assert(e.contains((p[0], p[1])));
        }
    }
    assert forall|k: int| 0 <= k < 2 implies #[trigger] crate::builder::class_edges_upto(s, cl[k], 1)
        == e by {
        assert(crate::builder::class_edges_upto(s, cl[k], 0) == e);
        assert(s[cl[k][0] as int].deps.len() == 0);
        assert(crate::builder::member_edges(class_metas(s, cl[k]), s[cl[k][0] as int].deps, 0) == e);
        assert(e + e == e);
    }
    assert(class_metas(s, cl[0]) == seq![cs[0].meta()]);
    assert(class_metas(s, cl[1]) == seq![cs[1].meta()]);
    assert(cl.drop_last() == seq![seq![0usize]]);
    assert(cl.drop_last().drop_last().len() == 0);
    let o = outcomes(s, cl);
    assert(outcomes(s, cl.drop_last().drop_last()).0 == Seq::<GroupView>::empty());
    assert(outcomes(s, cl.drop_last().drop_last()).1 == Seq::<DlqView>::empty());
    assert(cl.drop_last().last() == cl[0]);
    assert(group_outcome(s, cl[0]).0 == Some(GroupView { metas: seq![cs[0].meta()], edges: e }));
    assert(group_outcome(s, cl[1]).0 == Some(GroupView { metas: seq![cs[1].meta()], edges: e }));
    assert(outcomes(s, cl.drop_last()).0 == seq![GroupView { metas: seq![cs[0].meta()], edges: e }]);
    assert(o.0 == seq![
        GroupView { metas: seq![cs[0].meta()], edges: e },
        GroupView { metas: seq![cs[1].meta()], edges: e },
    ]);
    assert(o.1.len() == 0);
}


/// Mapping two sequences with equal multisets gives sequences with equal multisets.
proof fn lemma_multiset_map<A, B>(a: Seq<A>, b: Seq<A>, f: spec_fn(A) -> B)
    requires
        a.to_multiset() == b.to_multiset(),
    ensures
        a.map_values(f).to_multiset() == b.map_values(f).to_multiset(),
    decreases a.len(),
{
    if a.len() == 0 {
        assert(b.to_multiset().len() == 0);
        assert(b.len() == 0);
        assert(a.map_values(f) == b.map_values(f));
    } else {
        let x = a.last();
        let a2 = a.drop_last();
        assert(a == a2.push(x));
        to_multiset_build(a2, x);
        assert(b.to_multiset().count(x) > 0);
        assert(b.contains(x));
        let i = choose|i: int| 0 <= i < b.len() && b[i] == x;
        let b2 = b.remove(i);
        vstd::seq_lib::to_multiset_remove(b, i);
        assert(a2.to_multiset() =~= a.to_multiset().remove(x));
        lemma_multiset_map(a2, b2, f);
        assert(a.map_values(f) == a2.map_values(f).push(f(x)));
        to_multiset_build(a2.map_values(f), f(x));
        assert(b2.insert(i, x) == b);
        assert(b.map_values(f) == b2.map_values(f).insert(i, f(x)));
        vstd::seq_lib::to_multiset_insert(b2.map_values(f), i, f(x));
    }
}

/// The members of all groups, group after group.
pub open spec fn all_group_metas(gs: Seq<GroupView>) -> Seq<MetaView>
    decreases gs.len(),
{
    if gs.len() == 0 {
        Seq::empty()
    } else {
        all_group_metas(gs.drop_last()) + gs.last().metas
    }
}

proof fn lemma_all_group_metas(gs: Seq<GroupView>)
    ensures
        all_group_metas(gs).to_multiset() == group_metas(gs),
    decreases gs.len(),
{
    if gs.len() == 0 {
        assert(all_group_metas(gs).to_multiset().len() == 0);
        assert(all_group_metas(gs).to_multiset() =~= Multiset::empty());
    } else {
        lemma_all_group_metas(gs.drop_last());
        lemma_multiset_commutative(all_group_metas(gs.drop_last()), gs.last().metas);
    }
}

pub open spec fn meta_keys(ms: Seq<MetaView>) -> Seq<KeyView> {
    ms.map_values(|m: MetaView| m.key())
}

/// Every config's key is accounted for exactly once: the keys of the input
/// configs, counted with multiplicity, are those of the members of the built
/// groups together with those of the dead-letter records; and no key is in
/// two places among the groups.
pub proof fn lemma_every_key_accounted_once(cs: Seq<ConfigView>)
    requires
        cs.len() <= usize::MAX,
    ensures
        cs.map_values(|c: ConfigView| c.key()).to_multiset() == (meta_keys(
            all_group_metas(built_groups(cs)),
        ) + built_dlq(cs).map_values(|d: DlqView| d.key)).to_multiset(),
        group_keys_unique(built_groups(cs)),
{
    lemma_every_config_accounted_once(cs);
    lemma_built_keys_unique(cs);
    let gm = all_group_metas(built_groups(cs));
    let dm = dlq_metas(built_dlq(cs));
    lemma_all_group_metas(built_groups(cs));
    lemma_multiset_commutative(gm, dm);
    let f = |m: MetaView| m.key();
    lemma_multiset_map(config_metas(cs), gm + dm, f);
    assert(config_metas(cs).map_values(f) == cs.map_values(|c: ConfigView| c.key()));
    assert((gm + dm).map_values(f) == meta_keys(gm) + built_dlq(cs).map_values(|d: DlqView| d.key)) by {
        assert forall|i: int| 0 <= i < built_dlq(cs).len() implies #[trigger] built_dlq(cs)[i].key
            == built_dlq(cs)[i].meta.key() by {
            lemma_built_dlq_keyed(cs);
        }
    }
}


/// Each dead-letter record carries the key of its metadata.
pub open spec fn keyed(d: Seq<DlqView>) -> bool {
    forall|i: int| 0 <= i < d.len() ==> #[trigger] d[i].key == d[i].meta.key()
}

proof fn lemma_keyed_add(a: Seq<DlqView>, b: Seq<DlqView>)
    requires
        keyed(a),
        keyed(b),
    ensures
        keyed(a + b),
{
    assert forall|i: int| 0 <= i < (a + b).len() implies #[trigger] (a + b)[i].key == (a + b)[i].meta.key() by {
        if i < a.len() {
            assert((a + b)[i] == a[i]);
        } else {
            assert((a + b)[i] == b[i - a.len()]);
        }
    }
}

proof fn lemma_duplicates_keyed(cs: Seq<ConfigView>)
    ensures
        keyed(duplicate_entries(cs)),
    decreases cs.len(),
{
    if cs.len() > 0 {
        lemma_duplicates_keyed(cs.drop_last());
    }
}

proof fn lemma_pass_dropped_keyed(s: Seq<ExtractedView>, all: Seq<ExtractedView>)
    ensures
        keyed(pass_dropped(s, all)),
    decreases s.len(),
{
    if s.len() > 0 {
        lemma_pass_dropped_keyed(s.drop_last(), all);
    }
}

proof fn lemma_prune_dropped_keyed(s: Seq<ExtractedView>, n: nat)
    ensures
        keyed(prune_dropped_n(s, n)),
    decreases n,
{
    if n > 0 && pass_kept(s, s).len() != s.len() {
        lemma_pass_dropped_keyed(s, s);
        lemma_prune_dropped_keyed(pass_kept(s, s), (n - 1) as nat);
        lemma_keyed_add(pass_dropped(s, s), prune_dropped_n(pass_kept(s, s), (n - 1) as nat));
    }
}

proof fn lemma_outcomes_keyed(s: Seq<ExtractedView>, cl: Seq<Seq<usize>>)
    ensures
        keyed(outcomes(s, cl).1),
    decreases cl.len(),
{
    if cl.len() > 0 {
        lemma_outcomes_keyed(s, cl.drop_last());
        let d = group_outcome(s, cl.last()).1;
        assert(keyed(d));
        lemma_keyed_add(outcomes(s, cl.drop_last()).1, d);
    }
}

proof fn lemma_built_dlq_keyed(cs: Seq<ConfigView>)
    ensures
        keyed(built_dlq(cs)),
{
    let u = unique_configs(cs);
    let s = survivors(cs);
    lemma_duplicates_keyed(cs);
    lemma_prune_dropped_keyed(u, u.len());
    lemma_outcomes_keyed(s, components(s));
    lemma_keyed_add(duplicate_entries(cs), pruned_dropped(u));
    lemma_keyed_add(duplicate_entries(cs) + pruned_dropped(u), outcomes(s, components(s)).1);
}


/// Every built group has at least one service.
pub proof fn lemma_built_groups_nonempty(cs: Seq<ConfigView>)
    ensures
        forall|g: int| 0 <= g < built_groups(cs).len() ==> #[trigger] built_groups(cs)[g].metas.len() > 0,
{
    let s = survivors(cs);
    let cl = components(s);
    crate::builder::lemma_classes_nonempty(crate::builder::dep_pairs(s), s.len());
    lemma_kept_classes(s, cl);
    let kc = kept_classes(s, cl);
    assert forall|g: int| 0 <= g < built_groups(cs).len() implies #[trigger] built_groups(cs)[g].metas.len() > 0 by {
        assert(built_groups(cs)[g].metas == class_metas(s, cl[kc[g]]));
        assert(cl[kc[g]].len() > 0);
    }
}

} // verus!
