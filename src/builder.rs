//! Building dependency groups from service configs: duplicate keys and
//! services with unresolvable dependencies go to the dead-letter queue, the
//! rest are partitioned into connected groups, and cyclic groups are rejected.
use vstd::prelude::*;
use vstd::string::StringExecFns;
use petgraph::graph::DiGraph;
use crate::graph::{
    graph_add_edge, graph_add_node, graph_edges, graph_is_cyclic, graph_new, graph_nodes, has_cycle,
    uf_find, uf_new, uf_reps, uf_same, uf_union,
};
use crate::model::{
    dlq_entry, pairs_view, ConfigView, DeadLetterQueueItem, DlqView, KeyView, MetaView, ServiceConfig,
    ServiceMeta,
};

verus! {

/// A service accepted so far, with the keys of the services it depends on.
pub struct ExtractedService {
    pub meta: ServiceMeta,
    pub deps: Vec<(String, String)>,
}

pub struct ExtractedView {
    pub meta: MetaView,
    pub deps: Seq<KeyView>,
}

impl View for ExtractedService {
    type V = ExtractedView;

    open spec fn view(&self) -> ExtractedView {
        ExtractedView { meta: self.meta@, deps: pairs_view(self.deps@) }
    }
}

impl ConfigView {
    pub open spec fn extracted(self) -> ExtractedView {
        ExtractedView { meta: self.meta(), deps: self.deps }
    }
}

pub open spec fn configs_view(s: Seq<ServiceConfig>) -> Seq<ConfigView> {
    s.map_values(|c: ServiceConfig| c@)
}

pub open spec fn extracted_view(s: Seq<ExtractedService>) -> Seq<ExtractedView> {
    s.map_values(|e: ExtractedService| e@)
}

pub open spec fn dlq_view(s: Seq<DeadLetterQueueItem>) -> Seq<DlqView> {
    s.map_values(|d: DeadLetterQueueItem| d@)
}

/// Some config before position `i` has the key of the one at `i`.
pub open spec fn seen_before(cs: Seq<ConfigView>, i: int) -> bool {
    exists|j: int| 0 <= j < i && #[trigger] cs[j].key() == cs[i].key()
}

pub open spec fn not_unique_reason(k: KeyView) -> Seq<char> {
    "Service "@ + k.0 + ":v"@ + k.1 + " is not unique"@
}

/// The first config of each key, in input order.
pub open spec fn unique_configs(cs: Seq<ConfigView>) -> Seq<ExtractedView>
    decreases cs.len(),
{
    if cs.len() == 0 {
        Seq::empty()
    } else {
        let rest = unique_configs(cs.drop_last());
        if seen_before(cs, cs.len() - 1) {
            rest
        } else {
            rest.push(cs.last().extracted())
        }
    }
}

/// A dead-letter record for each config whose key appeared earlier, in input order.
pub open spec fn duplicate_entries(cs: Seq<ConfigView>) -> Seq<DlqView>
    decreases cs.len(),
{
    if cs.len() == 0 {
        Seq::empty()
    } else {
        let rest = duplicate_entries(cs.drop_last());
        if seen_before(cs, cs.len() - 1) {
            rest.push(dlq_entry(cs.last().meta(), not_unique_reason(cs.last().key())))
        } else {
            rest
        }
    }
}

/// Some service of `s` has key `k`.
pub open spec fn has_key(s: Seq<ExtractedView>, k: KeyView) -> bool {
    exists|m: int| 0 <= m < s.len() && #[trigger] s[m].meta.key() == k
}

/// No two services of `s` share a key.
pub open spec fn keys_unique(s: Seq<ExtractedView>) -> bool {
    forall|a: int, b: int|
        0 <= a < s.len() && 0 <= b < s.len() && #[trigger] s[a].meta.key() == #[trigger] s[b].meta.key()
            ==> a == b
}

pub proof fn lemma_unique_configs(cs: Seq<ConfigView>)
    ensures
        forall|k: KeyView|
            #![trigger has_key(unique_configs(cs), k)]
            has_key(unique_configs(cs), k) <==> exists|j: int| 0 <= j < cs.len() && #[trigger] cs[j].key() == k,
        keys_unique(unique_configs(cs)),
    decreases cs.len(),
{
    if cs.len() > 0 {
        let init = cs.drop_last();
        lemma_unique_configs(init);
        let u = unique_configs(cs);
        let ui = unique_configs(init);
        assert forall|k: KeyView| has_key(u, k) <==> exists|j: int| 0 <= j < cs.len() && #[trigger] cs[j].key() == k by {
            if has_key(u, k) {
                let m = choose|m: int| 0 <= m < u.len() && #[trigger] u[m].meta.key() == k;
                if m < ui.len() {
                    assert(u[m] == ui[m]);
                    assert(has_key(ui, k));
                    let j = choose|j: int| 0 <= j < init.len() && #[trigger] init[j].key() == k;
                    assert(cs[j].key() == k);
                } else {
                    assert(cs[cs.len() - 1].key() == k);
                }
            }
            if exists|j: int| 0 <= j < cs.len() && #[trigger] cs[j].key() == k {
                let j = choose|j: int| 0 <= j < cs.len() && #[trigger] cs[j].key() == k;
                if j < cs.len() - 1 {
                    assert(init[j].key() == k);
                    assert(has_key(ui, k));
                    let m = choose|m: int| 0 <= m < ui.len() && #[trigger] ui[m].meta.key() == k;
                    assert(u[m] == ui[m]);
                } else if seen_before(cs, cs.len() - 1) {
                    let j2 = choose|j2: int| 0 <= j2 < cs.len() - 1 && #[trigger] cs[j2].key() == cs[cs.len() - 1].key();
                    assert(init[j2].key() == k);
                    assert(has_key(ui, k));
                    let m = choose|m: int| 0 <= m < ui.len() && #[trigger] ui[m].meta.key() == k;
                    assert(u[m] == ui[m]);
                } else {
                    assert(u[u.len() - 1].meta.key() == k);
                }
            }
        }
        if !seen_before(cs, cs.len() - 1) {
            assert forall|a: int, b: int|
                0 <= a < u.len() && 0 <= b < u.len() && #[trigger] u[a].meta.key() == #[trigger] u[b].meta.key()
                implies a == b by {
                if a < ui.len() && b == ui.len() {
                    assert(u[a] == ui[a]);
                    assert(has_key(ui, u[a].meta.key()));
                    let j = choose|j: int| 0 <= j < init.len() && #[trigger] init[j].key() == u[a].meta.key();
                    assert(cs[j].key() == cs[cs.len() - 1].key());
                } else if b < ui.len() && a == ui.len() {
                    assert(u[b] == ui[b]);
                    assert(has_key(ui, u[b].meta.key()));
                    let j = choose|j: int| 0 <= j < init.len() && #[trigger] init[j].key() == u[b].meta.key();
                    assert(cs[j].key() == cs[cs.len() - 1].key());
                } else if a < ui.len() && b < ui.len() {
                    assert(u[a] == ui[a]);
                    assert(u[b] == ui[b]);
                }
            }
        }
    }
}

/// The position of the service of `s` with key `(name, version)`, if any.
pub fn find_key(s: &Vec<ExtractedService>, name: &String, version: &String) -> (r: Option<usize>)
    ensures
        r matches Some(m) ==> m < s@.len() && s@[m as int]@.meta.key() == (name@, version@) && forall|
            j: int,
        | 0 <= j < m ==> #[trigger] s@[j]@.meta.key() != (name@, version@),
        r is None ==> !has_key(extracted_view(s@), (name@, version@)),
{
    let mut m: usize = 0;
    while m < s.len()
        invariant
            m <= s@.len(),
            forall|j: int| 0 <= j < m ==> #[trigger] s@[j]@.meta.key() != (name@, version@),
        decreases s.len() - m,
    {
        if s[m].meta.name == *name && s[m].meta.version == *version {
            return Some(m);
        }
        m = m + 1;
    }
    proof {
        if has_key(extracted_view(s@), (name@, version@)) {
            let j = choose|j: int|
                0 <= j < s@.len() && #[trigger] extracted_view(s@)[j].meta.key() == (name@, version@);
            assert(s@[j]@.meta.key() == (name@, version@));
        }
    }
    None
}

pub fn copy_pairs(v: &Vec<(String, String)>) -> (r: Vec<(String, String)>)
    ensures
        r@ == v@,
{
    let mut r: Vec<(String, String)> = Vec::new();
    let mut i: usize = 0;
    while i < v.len()
        invariant
            i <= v.len(),
            r@ == v@.take(i as int),
        decreases v.len() - i,
    {
        let p = (v[i].0.clone(), v[i].1.clone());
        r.push(p);
        i = i + 1;
        proof {
            assert(r@ == v@.take(i as int));
        }
    }
    r
}

fn not_unique_text(name: &String, version: &String) -> (r: String)
    ensures
        r@ == not_unique_reason((name@, version@)),
{
    String::from_str("Service ").concat(name.as_str()).concat(":v").concat(version.as_str()).concat(
        " is not unique",
    )
}

/// Keeps the first config of each key, in input order; each later config
/// with a key already kept is appended to `dlq` as not unique.
pub fn validate_service_name_unique(
    service_configs: Vec<ServiceConfig>,
    dlq: &mut Vec<DeadLetterQueueItem>,
) -> (r: Vec<ExtractedService>)
    ensures
        extracted_view(r@) == unique_configs(configs_view(service_configs@)),
        dlq_view(final(dlq)@) == dlq_view(old(dlq)@) + duplicate_entries(
            configs_view(service_configs@),
        ),
{
    let ghost cs = configs_view(service_configs@);
    let ghost dlq0 = dlq_view(dlq@);
    let mut ret: Vec<ExtractedService> = Vec::new();
    let mut i: usize = 0;
    while i < service_configs.len()
        invariant
            i <= service_configs@.len(),
            cs == configs_view(service_configs@),
            extracted_view(ret@) == unique_configs(cs.take(i as int)),
            dlq_view(dlq@) == dlq0 + duplicate_entries(cs.take(i as int)),
        decreases service_configs.len() - i,
    {
        let config = &service_configs[i];
        let meta = ServiceMeta::from_config(config);
        let ghost pre = cs.take(i as int + 1);
        proof {
            assert(pre.drop_last() == cs.take(i as int));
            assert(pre.last() == config@);
            lemma_unique_configs(cs.take(i as int));
        }
        let found = find_key(&ret, &config.name, &config.version);
        let ghost old_ret = ret@;
        let ghost old_dlq = dlq@;
        if found.is_some() {
            proof {
                let m = found.unwrap() as int;
                assert(extracted_view(ret@)[m].meta.key() == config@.key());
                assert(has_key(unique_configs(cs.take(i as int)), config@.key()));
                let j = choose|j: int|
                    0 <= j < cs.take(i as int).len() && #[trigger] cs.take(i as int)[j].key()
                        == config@.key();
                assert(pre[j].key() == pre[i as int].key());
            }
            let reason = not_unique_text(&config.name, &config.version);
            dlq.push(DeadLetterQueueItem::new(meta, reason));
            proof {
                assert(dlq_view(dlq@) == dlq_view(old_dlq).push(dlq@[dlq@.len() - 1]@));
            }
        } else {
            proof {
                if seen_before(pre, i as int) {
                    let j = choose|j: int| 0 <= j < i && #[trigger] pre[j].key() == pre[i as int].key();
                    assert(cs.take(i as int)[j].key() == config@.key());
                }
            }
            let deps = copy_pairs(&config.dependencies);
            ret.push(ExtractedService { meta, deps });
            proof {
                assert(extracted_view(ret@) == extracted_view(old_ret).push(ret@[ret@.len() - 1]@));
            }
        }
        i = i + 1;
    }
    proof {
        assert(cs.take(service_configs@.len() as int) == cs);
    }
    ret
}


pub open spec fn missing_reason(k: KeyView) -> Seq<char> {
    "Dependency service "@ + k.0 + "/"@ + k.1 + " not found"@
}

/// Every dependency of `e` is the key of a service of `all`.
pub open spec fn deps_resolved(all: Seq<ExtractedView>, e: ExtractedView) -> bool {
    forall|d: int| 0 <= d < e.deps.len() ==> #[trigger] has_key(all, e.deps[d])
}

/// The position of the first dependency at or after `d` that no service of
/// `all` provides, or the number of dependencies when there is none.
pub open spec fn first_missing_from(all: Seq<ExtractedView>, deps: Seq<KeyView>, d: int) -> int
    decreases deps.len() - d,
{
    if d < 0 || d >= deps.len() {
        deps.len() as int
    } else if !has_key(all, deps[d]) {
        d
    } else {
        first_missing_from(all, deps, d + 1)
    }
}

/// The dead-letter record of a service dropped for a missing dependency:
/// the reason names the first dependency that is missing.
pub open spec fn missing_entry(all: Seq<ExtractedView>, e: ExtractedView) -> DlqView {
    dlq_entry(e.meta, missing_reason(e.deps[first_missing_from(all, e.deps, 0)]))
}

/// The services of `s` whose dependencies all resolve in `all`, in order.
pub open spec fn pass_kept(s: Seq<ExtractedView>, all: Seq<ExtractedView>) -> Seq<ExtractedView>
    decreases s.len(),
{
    if s.len() == 0 {
        Seq::empty()
    } else {
        let r = pass_kept(s.drop_last(), all);
        if deps_resolved(all, s.last()) {
            r.push(s.last())
        } else {
            r
        }
    }
}

/// The dead-letter records of the services of `s` with a dependency missing from `all`.
pub open spec fn pass_dropped(s: Seq<ExtractedView>, all: Seq<ExtractedView>) -> Seq<DlqView>
    decreases s.len(),
{
    if s.len() == 0 {
        Seq::empty()
    } else {
        let r = pass_dropped(s.drop_last(), all);
        if deps_resolved(all, s.last()) {
            r
        } else {
            r.push(missing_entry(all, s.last()))
        }
    }
}

/// Repeats passes that drop every service with a dependency missing from the
/// services at the start of the pass, at most `n` times or until a pass drops none.
pub open spec fn prune_n(s: Seq<ExtractedView>, n: nat) -> Seq<ExtractedView>
    decreases n,
{
    if n == 0 {
        s
    } else {
        let k = pass_kept(s, s);
        if k.len() == s.len() {
            s
        } else {
            prune_n(k, (n - 1) as nat)
        }
    }
}

pub open spec fn prune_dropped_n(s: Seq<ExtractedView>, n: nat) -> Seq<DlqView>
    decreases n,
{
    if n == 0 {
        Seq::empty()
    } else {
        let k = pass_kept(s, s);
        if k.len() == s.len() {
            Seq::empty()
        } else {
            pass_dropped(s, s) + prune_dropped_n(k, (n - 1) as nat)
        }
    }
}

/// The services left when passes are repeated to a fixed point (each pass
/// that changes anything drops at least one, so `s.len()` passes suffice).
pub open spec fn pruned(s: Seq<ExtractedView>) -> Seq<ExtractedView> {
    prune_n(s, s.len())
}

/// The dead-letter records of all passes, in order.
pub open spec fn pruned_dropped(s: Seq<ExtractedView>) -> Seq<DlqView> {
    prune_dropped_n(s, s.len())
}

pub proof fn lemma_pass_lens(s: Seq<ExtractedView>, all: Seq<ExtractedView>)
    ensures
        pass_kept(s, all).len() + pass_dropped(s, all).len() == s.len(),
        pass_kept(s, all).len() == s.len() ==> forall|i: int|
            0 <= i < s.len() ==> #[trigger] deps_resolved(all, s[i]),
    decreases s.len(),
{
    if s.len() > 0 {
        lemma_pass_lens(s.drop_last(), all);
        let k = pass_kept(s, all);
        if k.len() == s.len() {
            assert forall|i: int| 0 <= i < s.len() implies #[trigger] deps_resolved(all, s[i]) by {
                if i < s.len() - 1 {
                    assert(s[i] == s.drop_last()[i]);
                }
            }
        }
    }
}

proof fn lemma_prune_fuel(s: Seq<ExtractedView>, m: nat)
    requires
        m >= s.len(),
    ensures
        prune_n(s, m) == pruned(s),
        prune_dropped_n(s, m) == pruned_dropped(s),
    decreases s.len(),
{
    lemma_pass_lens(s, s);
    let k = pass_kept(s, s);
    if s.len() > 0 && k.len() != s.len() {
        lemma_prune_fuel(k, (m - 1) as nat);
        lemma_prune_fuel(k, (s.len() - 1) as nat);
    }
}

proof fn lemma_first_missing_skip(all: Seq<ExtractedView>, deps: Seq<KeyView>, d: int)
    requires
        0 <= d <= deps.len(),
        forall|j: int| 0 <= j < d ==> #[trigger] has_key(all, deps[j]),
    ensures
        first_missing_from(all, deps, 0) == first_missing_from(all, deps, d),
    decreases d,
{
    if d > 0 {
        lemma_first_missing_skip(all, deps, d - 1);
    }
}

/// The position of the first of `deps` that no service of `all` provides,
/// or the number of dependencies when all are provided.
fn first_missing_dep(all: &Vec<ExtractedService>, deps: &Vec<(String, String)>) -> (r: usize)
    ensures
        r <= deps@.len(),
        r == first_missing_from(extracted_view(all@), pairs_view(deps@), 0),
        r == deps@.len() <==> forall|d: int|
            0 <= d < deps@.len() ==> #[trigger] has_key(extracted_view(all@), pairs_view(deps@)[d]),
        r < deps@.len() ==> !has_key(extracted_view(all@), pairs_view(deps@)[r as int]),
{
    let ghost av = extracted_view(all@);
    let ghost dv = pairs_view(deps@);
    let mut d: usize = 0;
    while d < deps.len()
        invariant
            d <= deps@.len(),
            av == extracted_view(all@),
            dv == pairs_view(deps@),
            forall|j: int| 0 <= j < d ==> #[trigger] has_key(av, dv[j]),
        decreases deps.len() - d,
    {
        assert(dv[d as int] == (deps@[d as int].0@, deps@[d as int].1@));
        let found = find_key(all, &deps[d].0, &deps[d].1);
        if found.is_none() {
            proof {
                lemma_first_missing_skip(av, dv, d as int);
            }
            return d;
        }
        proof {
            let m = found.unwrap() as int;
            assert(av[m].meta.key() == dv[d as int]);
        }
        d = d + 1;
    }
    proof {
        lemma_first_missing_skip(av, dv, d as int);
    }
    d
}

fn missing_text(name: &String, version: &String) -> (r: String)
    ensures
        r@ == missing_reason((name@, version@)),
{
    String::from_str("Dependency service ").concat(name.as_str()).concat("/").concat(
        version.as_str(),
    ).concat(" not found")
}

impl ExtractedService {
    /// An equal copy.
    pub fn duplicate(&self) -> (r: ExtractedService)
        ensures
            r@ == self@,
    {
        ExtractedService { meta: self.meta.duplicate(), deps: copy_pairs(&self.deps) }
    }
}

/// One pass: the services of `infos` whose dependencies all resolve among
/// `infos`, in order; each other one is appended to `dlq`, naming its first
/// missing dependency.
fn prune_pass(infos: &Vec<ExtractedService>, dlq: &mut Vec<DeadLetterQueueItem>) -> (r: Vec<
    ExtractedService,
>)
    ensures
        extracted_view(r@) == pass_kept(extracted_view(infos@), extracted_view(infos@)),
        dlq_view(final(dlq)@) == dlq_view(old(dlq)@) + pass_dropped(
            extracted_view(infos@),
            extracted_view(infos@),
        ),
{
    let ghost all = extracted_view(infos@);
    let ghost dlq0 = dlq_view(dlq@);
    let mut kept: Vec<ExtractedService> = Vec::new();
    let mut i: usize = 0;
    while i < infos.len()
        invariant
            i <= infos@.len(),
            all == extracted_view(infos@),
            extracted_view(kept@) == pass_kept(all.take(i as int), all),
            dlq_view(dlq@) == dlq0 + pass_dropped(all.take(i as int), all),
        decreases infos.len() - i,
    {
        let ghost pre = all.take(i as int + 1);
        proof {
            assert(pre.drop_last() == all.take(i as int));
            assert(pre.last() == infos@[i as int]@);
        }
        let e = &infos[i];
        let miss = first_missing_dep(infos, &e.deps);
        if miss == e.deps.len() {
            let ghost old_kept = kept@;
            kept.push(e.duplicate());
            proof {
                assert(extracted_view(kept@) == extracted_view(old_kept).push(e@));
            }
        } else {
            let ghost old_dlq = dlq@;
            let reason = missing_text(&e.deps[miss].0, &e.deps[miss].1);
            dlq.push(DeadLetterQueueItem::new(e.meta.duplicate(), reason));
            proof {
                assert(dlq_view(dlq@) == dlq_view(old_dlq).push(missing_entry(all, e@)));
            }
        }
        i = i + 1;
    }
    proof {
        assert(all.take(infos@.len() as int) == all);
    }
    kept
}

/// Drops, pass after pass until a pass drops none, every service with a
/// dependency that is not the key of a service left at the start of the
/// pass; each dropped service is appended to `dlq`.
pub fn validate_service_dependencies(
    service_infos: &mut Vec<ExtractedService>,
    dlq: &mut Vec<DeadLetterQueueItem>,
)
    ensures
        extracted_view(final(service_infos)@) == pruned(extracted_view(old(service_infos)@)),
        dlq_view(final(dlq)@) == dlq_view(old(dlq)@) + pruned_dropped(
            extracted_view(old(service_infos)@),
        ),
{
    let ghost s0 = extracted_view(service_infos@);
    let ghost dlq0 = dlq_view(dlq@);
    let mut is_changed = true;
    while is_changed
        invariant
            pruned(extracted_view(service_infos@)) == pruned(s0),
            dlq_view(dlq@) + pruned_dropped(extracted_view(service_infos@)) == dlq0 + pruned_dropped(
                s0,
            ),
            !is_changed ==> pass_kept(extracted_view(service_infos@), extracted_view(service_infos@)).len()
                == service_infos@.len(),
        decreases service_infos@.len() + if is_changed { 1int } else { 0int },
    {
        let ghost cur = extracted_view(service_infos@);
        let ghost old_dlq = dlq_view(dlq@);
        let kept = prune_pass(service_infos, dlq);
        proof {
            lemma_pass_lens(cur, cur);
        }
        if kept.len() < service_infos.len() {
            proof {
                let k = extracted_view(kept@);
                lemma_prune_fuel(k, (cur.len() - 1) as nat);
                assert(pruned_dropped(cur) == pass_dropped(cur, cur) + pruned_dropped(k));
                assert(dlq_view(dlq@) + pruned_dropped(k) == old_dlq + pruned_dropped(cur));
            }
            *service_infos = kept;
        } else {
            is_changed = false;
        }
    }
    proof {
        let cur = extracted_view(service_infos@);
        assert(pruned(cur) == cur);
        assert(pruned_dropped(cur) == Seq::<DlqView>::empty());
        assert(dlq_view(dlq@) + Seq::<DlqView>::empty() == dlq_view(dlq@));
    }
}


/// The position of the first service of `s` with key `k`.
pub open spec fn key_pos(s: Seq<ExtractedView>, k: KeyView) -> int {
    choose|m: int|
        0 <= m < s.len() && #[trigger] s[m].meta.key() == k && forall|j: int|
            0 <= j < m ==> #[trigger] s[j].meta.key() != k
}

/// For each dependency of service `i`, the pair (position of the dependency, `i`).
pub open spec fn dep_pairs_of(s: Seq<ExtractedView>, i: int) -> Seq<(int, int)> {
    s[i].deps.map_values(|d: KeyView| (key_pos(s, d), i))
}

/// The dependency pairs of the first `n` services, service by service.
pub open spec fn dep_pairs_upto(s: Seq<ExtractedView>, n: int) -> Seq<(int, int)>
    decreases n,
{
    if n <= 0 {
        Seq::empty()
    } else {
        dep_pairs_upto(s, n - 1) + dep_pairs_of(s, n - 1)
    }
}

pub open spec fn dep_pairs(s: Seq<ExtractedView>) -> Seq<(int, int)> {
    dep_pairs_upto(s, s.len() as int)
}

/// The equivalence that joining the two ends of each pair, in order,
/// produces: `i` and `j` are linked through the pairs taken as undirected edges.
pub open spec fn joined(pairs: Seq<(int, int)>, i: int, j: int) -> bool
    decreases pairs.len(),
{
    if pairs.len() == 0 {
        i == j
    } else {
        let p = pairs.drop_last();
        let (x, y) = pairs.last();
        joined(p, i, j) || (joined(p, i, x) && joined(p, j, y)) || (joined(p, i, y) && joined(p, j, x))
    }
}

/// The first class at or after `g` whose first member is joined with `x`,
/// or the number of classes.
pub open spec fn class_of(c: Seq<Seq<usize>>, pairs: Seq<(int, int)>, x: int, g: int) -> int
    decreases c.len() - g,
{
    if g < 0 || g >= c.len() {
        c.len() as int
    } else if joined(pairs, c[g][0] as int, x) {
        g
    } else {
        class_of(c, pairs, x, g + 1)
    }
}

/// The classes of `0..n` under `joined(pairs, ..)`, ordered by their least
/// member, each listing its members in increasing order.
pub open spec fn classes(pairs: Seq<(int, int)>, n: nat) -> Seq<Seq<usize>>
    decreases n,
{
    if n == 0 {
        Seq::empty()
    } else {
        let c = classes(pairs, (n - 1) as nat);
        let g = class_of(c, pairs, n - 1, 0);
        if g < c.len() {
            c.update(g, c[g].push((n - 1) as usize))
        } else {
            c.push(seq![(n - 1) as usize])
        }
    }
}

/// The weakly connected components of the services of `s` under their
/// dependency relation, as classes of positions (`joined` is undirected
/// connectivity: see `lemma_joined_is_connectivity`).
pub open spec fn components(s: Seq<ExtractedView>) -> Seq<Seq<usize>> {
    classes(dep_pairs(s), s.len())
}

proof fn lemma_class_of_skip(c: Seq<Seq<usize>>, pairs: Seq<(int, int)>, x: int, g: int)
    requires
        0 <= g <= c.len(),
        forall|h: int| 0 <= h < g ==> !#[trigger] joined(pairs, c[h][0] as int, x),
    ensures
        class_of(c, pairs, x, 0) == class_of(c, pairs, x, g),
    decreases g,
{
    if g > 0 {
        lemma_class_of_skip(c, pairs, x, g - 1);
    }
}

pub proof fn lemma_classes_nonempty(pairs: Seq<(int, int)>, n: nat)
    ensures
        forall|g: int| 0 <= g < classes(pairs, n).len() ==> #[trigger] classes(pairs, n)[g].len() > 0,
    decreases n,
{
    if n > 0 {
        lemma_classes_nonempty(pairs, (n - 1) as nat);
        let c = classes(pairs, (n - 1) as nat);
        let g = class_of(c, pairs, n - 1, 0);
        lemma_class_of_range(c, pairs, n - 1, 0);
    }
}

pub proof fn lemma_class_of_range(c: Seq<Seq<usize>>, pairs: Seq<(int, int)>, x: int, g: int)
    ensures
        0 <= g <= c.len() ==> g <= class_of(c, pairs, x, g) <= c.len(),
    decreases c.len() - g,
{
    if 0 <= g < c.len() {
        lemma_class_of_range(c, pairs, x, g + 1);
    }
}

proof fn lemma_joined_push(p: Seq<(int, int)>, e: (int, int), a: int, b: int)
    ensures
        joined(p.push(e), a, b) == (joined(p, a, b) || (joined(p, a, e.0) && joined(p, b, e.1)) || (
        joined(p, a, e.1) && joined(p, b, e.0))),
{
    assert(p.push(e).drop_last() == p);
}

proof fn lemma_key_pos(s: Seq<ExtractedView>, j: int, k: KeyView)
    requires
        0 <= j < s.len(),
        s[j].meta.key() == k,
        forall|j2: int| 0 <= j2 < j ==> #[trigger] s[j2].meta.key() != k,
    ensures
        key_pos(s, k) == j,
{
    let m = key_pos(s, k);
    assert(0 <= m < s.len() && s[m].meta.key() == k && forall|j2: int|
        0 <= j2 < m ==> #[trigger] s[j2].meta.key() != k);
    if m < j {
        assert(s[m].meta.key() != k);
    } else if j < m {
        assert(s[j].meta.key() != k);
    }
}

fn copy_positions(v: &Vec<usize>) -> (r: Vec<usize>)
    ensures
        r@ == v@,
{
    let mut r: Vec<usize> = Vec::new();
    let mut i: usize = 0;
    while i < v.len()
        invariant
            i <= v.len(),
            r@ == v@.take(i as int),
        decreases v.len() - i,
    {
        r.push(v[i]);
        i = i + 1;
    }
    r
}

pub open spec fn positions_view(v: Seq<Vec<usize>>) -> Seq<Seq<usize>> {
    v.map_values(|p: Vec<usize>| p@)
}

/// Partitions the services into the weakly connected components of the
/// dependency relation, by joining each service with each of its
/// dependencies in a disjoint-set forest.
fn split_services(service_infos: &Vec<ExtractedService>) -> (r: Vec<Vec<usize>>)
    requires
        forall|i: int|
            0 <= i < service_infos@.len() ==> #[trigger] deps_resolved(
                extracted_view(service_infos@),
                service_infos@[i]@,
            ),
    ensures
        positions_view(r@) == components(extracted_view(service_infos@)),
{
    let ghost s = extracted_view(service_infos@);
    let n = service_infos.len();
    let mut uf = uf_new(n);
    let mut i: usize = 0;
    while i < n
        invariant
            n == service_infos@.len(),
            s == extracted_view(service_infos@),
            forall|k: int| 0 <= k < n ==> #[trigger] deps_resolved(s, s[k]),
            i <= n,
            uf_reps(uf).len() == n,
            forall|a: int, b: int|
                0 <= a < n && 0 <= b < n ==> (#[trigger] uf_same(uf_reps(uf), a, b) <==> joined(
                    dep_pairs_upto(s, i as int),
                    a,
                    b,
                )),
        decreases n - i,
    {
        let deps = &service_infos[i].deps;
        let ghost base = dep_pairs_upto(s, i as int);
        let ghost own = dep_pairs_of(s, i as int);
        let mut d: usize = 0;
        while d < deps.len()
            invariant
                n == service_infos@.len(),
                s == extracted_view(service_infos@),
                forall|k: int| 0 <= k < n ==> #[trigger] deps_resolved(s, s[k]),
                i < n,
                deps == &service_infos@[i as int].deps,
                base == dep_pairs_upto(s, i as int),
                own == dep_pairs_of(s, i as int),
                own.len() == deps@.len(),
                d <= deps@.len(),
                uf_reps(uf).len() == n,
                forall|a: int, b: int|
                    0 <= a < n && 0 <= b < n ==> (#[trigger] uf_same(uf_reps(uf), a, b) <==> joined(
                        base + own.take(d as int),
                        a,
                        b,
                    )),
            decreases deps.len() - d,
        {
            let ghost dk = pairs_view(deps@)[d as int];
            proof {
                assert(dk == s[i as int].deps[d as int]);
                assert(deps_resolved(s, s[i as int]));
                assert(has_key(s, s[i as int].deps[d as int]));
            }
            let found = find_key(service_infos, &deps[d].0, &deps[d].1);
            if found.is_none() {
                proof {
                    assert(false);
                }
            }
            let j = found.unwrap();
            let ghost pd = base + own.take(d as int);
            proof {
                lemma_key_pos(s, j as int, dk);
                assert(own[d as int] == (j as int, i as int));
                assert(base + own.take(d as int + 1) == pd.push((j as int, i as int)));
            }
            let ghost before = uf_reps(uf);
            uf_union(&mut uf, j, i);
            proof {
                assert forall|a: int, b: int| 0 <= a < n && 0 <= b < n implies (#[trigger] uf_same(
                    uf_reps(uf),
                    a,
                    b,
                ) <==> joined(pd.push((j as int, i as int)), a, b)) by {
                    lemma_joined_push(pd, (j as int, i as int), a, b);
                    assert(uf_same(before, a, j as int) <==> joined(pd, a, j as int));
                    assert(uf_same(before, b, i as int) <==> joined(pd, b, i as int));
                    assert(uf_same(before, a, i as int) <==> joined(pd, a, i as int));
                    assert(uf_same(before, b, j as int) <==> joined(pd, b, j as int));
                    assert(uf_same(before, a, b) <==> joined(pd, a, b));
                }
            }
            d = d + 1;
        }
        proof {
            assert(own.take(deps@.len() as int) == own);
        }
        i = i + 1;
    }
    let ghost pairs = dep_pairs(s);
    let mut heads: Vec<usize> = Vec::new();
    let mut members: Vec<Vec<usize>> = Vec::new();
    let mut x: usize = 0;
    while x < n
        invariant
            n == s.len(),
            pairs == dep_pairs(s),
            x <= n,
            uf_reps(uf).len() == n,
            forall|a: int, b: int|
                0 <= a < n && 0 <= b < n ==> (#[trigger] uf_same(uf_reps(uf), a, b) <==> joined(
                    pairs,
                    a,
                    b,
                )),
            positions_view(members@) == classes(pairs, x as nat),
            heads@.len() == members@.len(),
            forall|g: int|
                0 <= g < members@.len() ==> #[trigger] members@[g]@.len() > 0
                    && members@[g]@[0] < x && heads@[g] == uf_reps(uf)[members@[g]@[0] as int],
        decreases n - x,
    {
        let r = uf_find(&uf, x);
        let ghost c = classes(pairs, x as nat);
        let mut g: usize = 0;
        while g < heads.len() && heads[g] != r
            invariant
                g <= heads@.len(),
                heads@.len() == members@.len(),
                c == positions_view(members@),
                x < n,
                uf_reps(uf).len() == n,
                r == uf_reps(uf)[x as int],
                forall|a: int, b: int|
                    0 <= a < n && 0 <= b < n ==> (#[trigger] uf_same(uf_reps(uf), a, b) <==> joined(
                        pairs,
                        a,
                        b,
                    )),
                forall|h: int|
                    0 <= h < members@.len() ==> #[trigger] members@[h]@.len() > 0
                        && members@[h]@[0] < x && heads@[h] == uf_reps(uf)[members@[h]@[0] as int],
                forall|h: int| 0 <= h < g ==> !#[trigger] joined(pairs, c[h][0] as int, x as int),
            decreases heads@.len() - g,
        {
            proof {
                assert(c[g as int] == members@[g as int]@);
                assert(!uf_same(uf_reps(uf), members@[g as int]@[0] as int, x as int));
            }
            g = g + 1;
        }
        proof {
            lemma_class_of_skip(c, pairs, x as int, g as int);
            let nc = classes(pairs, x as nat + 1);
            assert((x as nat + 1 - 1) as nat == x as nat);
            if g < heads.len() {
                assert(c[g as int] == members@[g as int]@);
                assert(uf_same(uf_reps(uf), members@[g as int]@[0] as int, x as int));
                assert(class_of(c, pairs, x as int, g as int) == g);
            } else {
                assert(class_of(c, pairs, x as int, g as int) == c.len());
            }
        }
        let ghost old_members = members@;
        if g < heads.len() {
            let mut m = copy_positions(&members[g]);
            m.push(x);
            members.set(g, m);
            proof {
                assert(positions_view(members@) == c.update(g as int, c[g as int].push(x)));
            }
        } else {
            heads.push(r);
            let mut m: Vec<usize> = Vec::new();
            m.push(x);
            members.push(m);
            proof {
                assert(positions_view(members@) == c.push(seq![x]));
            }
        }
        proof {
            assert forall|h: int|
                0 <= h < members@.len() implies #[trigger] members@[h]@.len() > 0 && members@[h]@[0] < x + 1
                    && heads@[h] == uf_reps(uf)[members@[h]@[0] as int] by {
                if h < old_members.len() {
                    assert(old_members[h]@.len() > 0);
                    if h == g {
                        assert(members@[h]@[0] == old_members[h]@[0]);
                    } else {
                        assert(members@[h] == old_members[h]);
                    }
                }
            }
        }
        x = x + 1;
    }
    members
}


pub proof fn lemma_classes_range(pairs: Seq<(int, int)>, n: nat)
    ensures
        forall|g: int, k: int|
            0 <= g < classes(pairs, n).len() && 0 <= k < classes(pairs, n)[g].len() ==> #[trigger] classes(
                pairs,
                n,
            )[g][k] < n,
    decreases n,
{
    if n > 0 {
        lemma_classes_range(pairs, (n - 1) as nat);
        let c = classes(pairs, (n - 1) as nat);
        lemma_class_of_range(c, pairs, n - 1, 0);
        let nc = classes(pairs, n);
        assert forall|g: int, k: int| 0 <= g < nc.len() && 0 <= k < nc[g].len() implies #[trigger] nc[g][k] < n by {
            if g < c.len() && k < c[g].len() {
                assert(c[g][k] < n - 1);
            }
        }
    }
}

proof fn lemma_pruned_fixed(s: Seq<ExtractedView>, n: nat)
    requires
        n >= s.len(),
    ensures
        pass_kept(prune_n(s, n), prune_n(s, n)).len() == prune_n(s, n).len(),
    decreases n,
{
    lemma_pass_lens(s, s);
    if n > 0 {
        let k = pass_kept(s, s);
        if k.len() != s.len() {
            lemma_pruned_fixed(k, (n - 1) as nat);
        }
    }
}

/// The group of services connected through their dependencies: node `i` of
/// `graph` stands for `metas[i]`, and each edge runs from a dependency to a
/// service that depends on it.
pub struct ServiceGroup {
    pub metas: Vec<ServiceMeta>,
    pub graph: DiGraph<usize, (), usize>,
}

pub struct GroupView {
    pub metas: Seq<MetaView>,
    pub edges: Seq<(usize, usize)>,
}

pub open spec fn metas_view(s: Seq<ServiceMeta>) -> Seq<MetaView> {
    s.map_values(|m: ServiceMeta| m@)
}

impl View for ServiceGroup {
    type V = GroupView;

    open spec fn view(&self) -> GroupView {
        GroupView { metas: metas_view(self.metas@), edges: graph_edges(self.graph) }
    }
}

/// The edges stay among the nodes and form no cycle.
pub open spec fn group_view_wf(g: GroupView) -> bool {
    &&& forall|e: int|
        0 <= e < g.edges.len() ==> #[trigger] g.edges[e].0 < g.metas.len() && g.edges[e].1
            < g.metas.len()
    &&& !has_cycle(g.edges)
}

impl ServiceGroup {
    pub open spec fn wf(&self) -> bool {
        &&& graph_nodes(self.graph) == Seq::new(self.metas@.len(), |i: int| i as usize)
        &&& group_view_wf(self@)
    }
}

pub open spec fn groups_view(s: Seq<ServiceGroup>) -> Seq<GroupView> {
    s.map_values(|g: ServiceGroup| g@)
}

/// The metadata of the services at positions `cls`.
pub open spec fn class_metas(s: Seq<ExtractedView>, cls: Seq<usize>) -> Seq<MetaView> {
    cls.map_values(|k: usize| s[k as int].meta)
}

/// The first position at or after `i` of `ms` with key `k`, or `ms.len()`.
pub open spec fn meta_pos_from(ms: Seq<MetaView>, k: KeyView, i: int) -> int
    decreases ms.len() - i,
{
    if i < 0 || i >= ms.len() {
        ms.len() as int
    } else if ms[i].key() == k {
        i
    } else {
        meta_pos_from(ms, k, i + 1)
    }
}

/// The edges from each of `deps` that is among `ms` to node `k`; a
/// dependency outside `ms` is skipped.
pub open spec fn member_edges(ms: Seq<MetaView>, deps: Seq<KeyView>, k: int) -> Seq<(usize, usize)>
    decreases deps.len(),
{
    if deps.len() == 0 {
        Seq::empty()
    } else {
        let es = member_edges(ms, deps.drop_last(), k);
        let p = meta_pos_from(ms, deps.last(), 0);
        if p < ms.len() {
            es.push((p as usize, k as usize))
        } else {
            es
        }
    }
}

/// The edges of the first `k` members of class `cls`, member by member.
pub open spec fn class_edges_upto(s: Seq<ExtractedView>, cls: Seq<usize>, k: int) -> Seq<(usize, usize)>
    decreases k,
{
    if k <= 0 {
        Seq::empty()
    } else {
        class_edges_upto(s, cls, k - 1) + member_edges(class_metas(s, cls), s[cls[k - 1] as int].deps, k - 1)
    }
}

pub open spec fn cyclic_reason() -> Seq<char> {
    "Service group dependency is cyclic"@
}

/// A dead-letter record with `reason` for each of `ms`, in order.
pub open spec fn rejected(ms: Seq<MetaView>, reason: Seq<char>) -> Seq<DlqView> {
    ms.map_values(|m: MetaView| dlq_entry(m, reason))
}

/// What becomes of class `cls`: a group, or, when its edges form a cycle, a
/// dead-letter record for each member.
pub open spec fn group_outcome(s: Seq<ExtractedView>, cls: Seq<usize>) -> (Option<GroupView>, Seq<
    DlqView,
>) {
    let ms = class_metas(s, cls);
    let es = class_edges_upto(s, cls, cls.len() as int);
    if has_cycle(es) {
        (None, rejected(ms, cyclic_reason()))
    } else {
        (Some(GroupView { metas: ms, edges: es }), Seq::empty())
    }
}

/// The groups and dead-letter records of the classes `cl`, in order.
pub open spec fn outcomes(s: Seq<ExtractedView>, cl: Seq<Seq<usize>>) -> (Seq<GroupView>, Seq<
    DlqView,
>)
    decreases cl.len(),
{
    if cl.len() == 0 {
        (Seq::empty(), Seq::empty())
    } else {
        let (gs, ds) = outcomes(s, cl.drop_last());
        let (o, d) = group_outcome(s, cl.last());
        (
            match o {
                Some(v) => gs.push(v),
                None => gs,
            },
            ds + d,
        )
    }
}

/// The services that survive the uniqueness and dependency checks.
pub open spec fn survivors(cs: Seq<ConfigView>) -> Seq<ExtractedView> {
    pruned(unique_configs(cs))
}

/// The groups built from `cs`.
pub open spec fn built_groups(cs: Seq<ConfigView>) -> Seq<GroupView> {
    outcomes(survivors(cs), components(survivors(cs))).0
}

/// The dead-letter records of building from `cs`: duplicates, then services
/// with missing dependencies, then the members of rejected groups.
pub open spec fn built_dlq(cs: Seq<ConfigView>) -> Seq<DlqView> {
    duplicate_entries(cs) + pruned_dropped(unique_configs(cs)) + outcomes(
        survivors(cs),
        components(survivors(cs)),
    ).1
}

/// The first position of `metas` with key `(name, version)`, or `metas.len()`.
fn find_meta(metas: &Vec<ServiceMeta>, name: &String, version: &String) -> (r: usize)
    ensures
        r == meta_pos_from(metas_view(metas@), (name@, version@), 0),
        r <= metas@.len(),
{
    let ghost ms = metas_view(metas@);
    let mut m: usize = 0;
    while m < metas.len()
        invariant
            m <= metas@.len(),
            ms == metas_view(metas@),
            meta_pos_from(ms, (name@, version@), 0) == meta_pos_from(ms, (name@, version@), m as int),
        decreases metas.len() - m,
    {
        if metas[m].name == *name && metas[m].version == *version {
            return m;
        }
        proof {
            assert(ms[m as int].key() != (name@, version@));
        }
        m = m + 1;
    }
    m
}

/// Appends a record with `reason` for each of `metas` to `dlq`.
fn reject_all(metas: &Vec<ServiceMeta>, reason: &str, dlq: &mut Vec<DeadLetterQueueItem>)
    ensures
        dlq_view(final(dlq)@) == dlq_view(old(dlq)@) + rejected(metas_view(metas@), reason@),
{
    let ghost d0 = dlq_view(dlq@);
    let ghost ms = metas_view(metas@);
    let mut i: usize = 0;
    while i < metas.len()
        invariant
            i <= metas@.len(),
            ms == metas_view(metas@),
            dlq_view(dlq@) == d0 + rejected(ms.take(i as int), reason@),
        decreases metas.len() - i,
    {
        let ghost before = dlq@;
        dlq.push(DeadLetterQueueItem::new(metas[i].duplicate(), String::from_str(reason)));
        proof {
            assert(dlq_view(dlq@) == dlq_view(before).push(dlq_entry(ms[i as int], reason@)));
            assert(rejected(ms.take(i as int + 1), reason@) == rejected(ms.take(i as int), reason@).push(
                dlq_entry(ms[i as int], reason@),
            ));
        }
        i = i + 1;
    }
    proof {
        assert(ms.take(metas@.len() as int) == ms);
    }
}

/// Builds the group of the services at positions `cls`: one node per member,
/// an edge from each dependency that is a member to its dependent (a
/// dependency outside the members is skipped). When the edges form a cycle,
/// every member is appended to `dlq` instead.
fn build_service_group(
    service_infos: &Vec<ExtractedService>,
    cls: &Vec<usize>,
    dlq: &mut Vec<DeadLetterQueueItem>,
) -> (r: Option<ServiceGroup>)
    requires
        forall|k: int| 0 <= k < cls@.len() ==> #[trigger] cls@[k] < service_infos@.len(),
    ensures
        ({
            let (o, d) = group_outcome(extracted_view(service_infos@), cls@);
            &&& dlq_view(final(dlq)@) == dlq_view(old(dlq)@) + d
            &&& match r {
                Some(g) => o == Some(g@) && g.wf(),
                None => o is None,
            }
        }),
{
    let ghost s = extracted_view(service_infos@);
    let ghost ms = class_metas(s, cls@);
    let ghost d0 = dlq@;
    let mut metas: Vec<ServiceMeta> = Vec::new();
    let mut graph = graph_new();
    let mut k: usize = 0;
    while k < cls.len()
        invariant
            k <= cls@.len(),
            s == extracted_view(service_infos@),
            ms == class_metas(s, cls@),
            forall|k2: int| 0 <= k2 < cls@.len() ==> #[trigger] cls@[k2] < service_infos@.len(),
            metas_view(metas@) == ms.take(k as int),
            graph_nodes(graph) == Seq::new(k as nat, |i: int| i as usize),
            graph_edges(graph) == Seq::<(usize, usize)>::empty(),
        decreases cls.len() - k,
    {
        let ghost before = metas@;
        metas.push(service_infos[cls[k]].meta.duplicate());
        graph_add_node(&mut graph, k);
        proof {
            assert(metas_view(metas@) == metas_view(before).push(ms[k as int]));
            assert(graph_nodes(graph) == Seq::new(k as nat + 1, |i: int| i as usize));
        }
        k = k + 1;
    }
    proof {
        assert(ms.take(cls@.len() as int) == ms);
    }
    let n = metas.len();
    let mut k: usize = 0;
    while k < n
        invariant
            k <= n,
            n == cls@.len(),
            s == extracted_view(service_infos@),
            ms == class_metas(s, cls@),
            forall|k2: int| 0 <= k2 < cls@.len() ==> #[trigger] cls@[k2] < service_infos@.len(),
            metas_view(metas@) == ms,
            dlq@ == d0,
            d0 == old(dlq)@,
            graph_nodes(graph) == Seq::new(n as nat, |i: int| i as usize),
            class_edges_upto(s, cls@, k as int) == graph_edges(graph),
            forall|e: int|
                0 <= e < graph_edges(graph).len() ==> #[trigger] graph_edges(graph)[e].0 < n
                    && graph_edges(graph)[e].1 < n,
        decreases n - k,
    {
        let deps = &service_infos[cls[k]].deps;
        let ghost dv = pairs_view(deps@);
        let ghost base = graph_edges(graph);
        let mut d: usize = 0;
        while d < deps.len()
            invariant
                d <= deps@.len(),
                k < n,
                n == cls@.len(),
                s == extracted_view(service_infos@),
                ms == class_metas(s, cls@),
                metas_view(metas@) == ms,
                dlq@ == d0,
                d0 == old(dlq)@,
                deps == &service_infos@[cls@[k as int] as int].deps,
                dv == pairs_view(deps@),
                dv == s[cls@[k as int] as int].deps,
                graph_nodes(graph) == Seq::new(n as nat, |i: int| i as usize),
                graph_edges(graph) == base + member_edges(ms, dv.take(d as int), k as int),
                forall|e: int|
                    0 <= e < graph_edges(graph).len() ==> #[trigger] graph_edges(graph)[e].0 < n
                        && graph_edges(graph)[e].1 < n,
            decreases deps.len() - d,
        {
            let p = find_meta(&metas, &deps[d].0, &deps[d].1);
            let ghost pre = dv.take(d as int + 1);
            proof {
                assert(pre.drop_last() == dv.take(d as int));
                assert(pre.last() == (deps@[d as int].0@, deps@[d as int].1@));
            }
            if p < n {
                graph_add_edge(&mut graph, p, k);
            }
            d = d + 1;
        }
        proof {
            assert(dv.take(deps@.len() as int) == dv);
            assert(class_edges_upto(s, cls@, k as int + 1) == graph_edges(graph));
        }
        k = k + 1;
    }
    if graph_is_cyclic(&graph) {
        reject_all(&metas, "Service group dependency is cyclic", dlq);
        proof {
            assert(group_outcome(s, cls@).1 == rejected(ms, cyclic_reason()));
        }
        return None;
    }
    let group = ServiceGroup { metas, graph };
    proof {
        assert(group_outcome(s, cls@) == (
            Some(GroupView { metas: ms, edges: graph_edges(group.graph) }),
            Seq::<DlqView>::empty(),
        ));
        assert(group@ == GroupView { metas: ms, edges: graph_edges(group.graph) });
        assert(dlq_view(dlq@) == dlq_view(dlq@) + Seq::<DlqView>::empty());
    }
    Some(group)
}

/// Builds the service groups from `service_configs`: drops duplicate keys,
/// then services with unresolvable dependencies, partitions the rest into
/// weakly connected components and keeps each component whose dependency
/// graph is acyclic. Every rejected service is appended to `dlq`.
pub fn build_groups_from_configs(
    service_configs: Vec<ServiceConfig>,
    dlq: &mut Vec<DeadLetterQueueItem>,
) -> (r: Vec<ServiceGroup>)
    ensures
        groups_view(r@) == built_groups(configs_view(service_configs@)),
        dlq_view(final(dlq)@) == dlq_view(old(dlq)@) + built_dlq(configs_view(service_configs@)),
        forall|g: int| 0 <= g < r@.len() ==> #[trigger] r@[g].wf(),
{
    let ghost cs = configs_view(service_configs@);
    let ghost dlq0 = dlq_view(dlq@);
    let mut service_infos = validate_service_name_unique(service_configs, dlq);
    let ghost u = extracted_view(service_infos@);
    validate_service_dependencies(&mut service_infos, dlq);
    let ghost s = extracted_view(service_infos@);
    proof {
        lemma_pruned_fixed(u, u.len());
        lemma_pass_lens(s, s);
        lemma_classes_range(dep_pairs(s), s.len());
        assert forall|i: int| 0 <= i < service_infos@.len() implies #[trigger] deps_resolved(
            extracted_view(service_infos@),
            service_infos@[i]@,
        ) by {
            assert(s[i] == service_infos@[i]@);
        }
    }
    let service_key_groups = split_services(&service_infos);
    let ghost cl = components(s);
    let ghost dlq1 = dlq_view(dlq@);
    let mut ret: Vec<ServiceGroup> = Vec::new();
    let mut g: usize = 0;
    while g < service_key_groups.len()
        invariant
            g <= service_key_groups@.len(),
            s == extracted_view(service_infos@),
            cl == positions_view(service_key_groups@),
            forall|g2: int, k: int|
                0 <= g2 < cl.len() && 0 <= k < cl[g2].len() ==> #[trigger] cl[g2][k] < s.len(),
            groups_view(ret@) == outcomes(s, cl.take(g as int)).0,
            dlq_view(dlq@) == dlq1 + outcomes(s, cl.take(g as int)).1,
            forall|h: int| 0 <= h < ret@.len() ==> #[trigger] ret@[h].wf(),
        decreases service_key_groups.len() - g,
    {
        let cls = &service_key_groups[g];
        proof {
            assert(cl[g as int] == cls@);
            assert forall|k: int| 0 <= k < cls@.len() implies #[trigger] cls@[k] < service_infos@.len() by {
                assert(cl[g as int][k] < s.len());
            }
            assert(cl.take(g as int + 1).drop_last() == cl.take(g as int));
        }
        let ghost before = ret@;
        let ghost dbefore = dlq_view(dlq@);
        let built = build_service_group(&service_infos, cls, dlq);
        match built {
            Some(group) => {
                ret.push(group);
                proof {
                    assert(groups_view(ret@) == groups_view(before).push(ret@[ret@.len() - 1]@));
                }
            },
            None => {},
        }
        g = g + 1;
    }
    proof {
        assert(cl.take(cl.len() as int) == cl);
    }
    ret
}

} // verus!
