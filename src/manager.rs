//! The supervisor's decisions: the state of each service in each group, the
//! gates of launching and stopping, and the reaction to runner events. The
//! runtime that spawns processes and delivers events performs what these
//! functions decide.
use vstd::prelude::*;
use vstd::string::StringExecFns;
use crate::builder::{
    build_groups_from_configs, built_dlq, built_groups, configs_view, dlq_view, group_view_wf,
    groups_view, meta_pos_from, metas_view, GroupView, ServiceGroup,
};
use crate::laws::{group_keys_unique, lemma_built_keys_unique};
use crate::graph::{
    graph_edges, graph_neighbors, graph_toposort, has_cycle, is_topo_order, is_walk,
    lemma_out_edge_ids, out_edge_ids,
};
use crate::model::{
    DeadLetterQueueItem, KeyView, MetaView, ServiceConfig, ServiceMeta, ServiceState,
};

verus! {

/// Why a request to the manager was refused.
#[derive(Debug)]
pub enum ManagerError {
    /// No service with the requested key is in a group.
    NotFound,
    /// The service is starting or stopping.
    MidState(ServiceState),
    /// There is no group with the requested index.
    GroupOutOfBounds,
    /// The group's graph has a cycle.
    Cyclic,
}

/// Where the first service with key `k` stands at or after group `g`: its
/// group and its node.
pub open spec fn locate_from(gs: Seq<GroupView>, k: KeyView, g: int) -> Option<(int, int)>
    decreases gs.len() - g,
{
    if g < 0 || g >= gs.len() {
        None
    } else {
        let p = meta_pos_from(gs[g].metas, k, 0);
        if p < gs[g].metas.len() {
            Some((g, p))
        } else {
            locate_from(gs, k, g + 1)
        }
    }
}

pub open spec fn locate(gs: Seq<GroupView>, k: KeyView) -> Option<(int, int)> {
    locate_from(gs, k, 0)
}

pub open spec fn states_view(s: Seq<Vec<ServiceState>>) -> Seq<Seq<ServiceState>> {
    s.map_values(|v: Vec<ServiceState>| v@)
}

/// Keys of the nodes of a group, in node order.
pub open spec fn group_keys(g: GroupView) -> Seq<KeyView> {
    g.metas.map_values(|m: MetaView| m.key())
}

pub open spec fn key_pairs_view(s: Seq<(String, String)>) -> Seq<KeyView> {
    s.map_values(|p: (String, String)| (p.0@, p.1@))
}

/// Node `k` of `g` has no incoming edge.
pub open spec fn is_root(g: GroupView, k: int) -> bool {
    forall|e: int| 0 <= e < g.edges.len() ==> #[trigger] g.edges[e].1 != k
}

/// The keys of the nodes among the first `k` of `g` that have no incoming edge.
pub open spec fn root_keys_upto(g: GroupView, k: int) -> Seq<KeyView>
    decreases k,
{
    if k <= 0 {
        Seq::empty()
    } else if is_root(g, k - 1) {
        root_keys_upto(g, k - 1).push(g.metas[k - 1].key())
    } else {
        root_keys_upto(g, k - 1)
    }
}

/// Manages service groups and the state of each service.
pub struct ServiceManager {
    service_groups: Vec<ServiceGroup>,
    service_states: Vec<Vec<ServiceState>>,
    dlq: Vec<DeadLetterQueueItem>,
}

impl ServiceManager {
    pub closed spec fn groups(&self) -> Seq<GroupView> {
        groups_view(self.service_groups@)
    }

    /// The state of node `k` of group `g` is `states()[g][k]`.
    pub closed spec fn states(&self) -> Seq<Seq<ServiceState>> {
        states_view(self.service_states@)
    }

    pub closed spec fn dlq(&self) -> Seq<crate::model::DlqView> {
        dlq_view(self.dlq@)
    }

    /// Every group is acyclic with edges among its nodes, no two services
    /// share a key, and each service has a state.
    pub closed spec fn wf(&self) -> bool {
        &&& group_keys_unique(self.groups())
        &&& self.service_states@.len() == self.service_groups@.len()
        &&& forall|g: int|
            0 <= g < self.service_groups@.len() ==> #[trigger] self.service_groups@[g].wf()
                && self.service_states@[g]@.len() == self.service_groups@[g].metas@.len()
    }

    pub proof fn lemma_wf(&self)
        requires
            self.wf(),
        ensures
            group_keys_unique(self.groups()),
            self.states().len() == self.groups().len(),
            forall|g: int|
                0 <= g < self.groups().len() ==> #[trigger] group_view_wf(self.groups()[g])
                    && self.states()[g].len() == self.groups()[g].metas.len(),
    {
        assert forall|g: int| 0 <= g < self.groups().len() implies #[trigger] group_view_wf(
            self.groups()[g],
        ) && self.states()[g].len() == self.groups()[g].metas.len() by {
            assert(self.service_groups@[g].wf());
            assert(self.groups()[g] == self.service_groups@[g]@);
            assert(metas_view(self.service_groups@[g].metas@).len()
                == self.service_groups@[g].metas@.len());
        }
    }

    /// Builds a manager from `service_configs`: the groups and dead-letter
    /// queue of building them, every grouped service `Pending`.
    pub fn from_configs(service_configs: Vec<ServiceConfig>) -> (r: ServiceManager)
        ensures
            r.wf(),
            r.groups() == built_groups(configs_view(service_configs@)),
            r.dlq() == built_dlq(configs_view(service_configs@)),
            forall|g: int, k: int|
                0 <= g < r.states().len() && 0 <= k < r.states()[g].len() ==> #[trigger] r.states()[g][k]
                    == ServiceState::Pending,
    {
        let mut dlq: Vec<DeadLetterQueueItem> = Vec::new();
        let ghost cs = configs_view(service_configs@);
        let n = service_configs.len();
        proof {
            assert(cs.len() == n);
            lemma_built_keys_unique(cs);
        }
        let groups = build_groups_from_configs(service_configs, &mut dlq);
        proof {
            assert(dlq_view(dlq@) == Seq::<crate::model::DlqView>::empty() + built_dlq(
                configs_view(service_configs@),
            ));
        }
        let mut states: Vec<Vec<ServiceState>> = Vec::new();
        let mut g: usize = 0;
        while g < groups.len()
            invariant
                g <= groups@.len(),
                states@.len() == g,
                forall|h: int|
                    0 <= h < g ==> #[trigger] states@[h]@.len() == groups@[h].metas@.len()
                        && forall|k: int| 0 <= k < states@[h]@.len() ==> states@[h]@[k] == ServiceState::Pending,
            decreases groups.len() - g,
        {
            let mut row: Vec<ServiceState> = Vec::new();
            let mut k: usize = 0;
            while k < groups[g].metas.len()
                invariant
                    g < groups@.len(),
                    k <= groups@[g as int].metas@.len(),
                    row@.len() == k,
                    forall|j: int| 0 <= j < k ==> row@[j] == ServiceState::Pending,
                decreases groups@[g as int].metas@.len() - k,
            {
                row.push(ServiceState::Pending);
                k = k + 1;
            }
            states.push(row);
            g = g + 1;
        }
        ServiceManager { service_groups: groups, service_states: states, dlq }
    }

    /// The group and node of the first service with key `(name, version)`.
    fn locate_key(&self, name: &String, version: &String) -> (r: Option<(usize, usize)>)
        requires
            self.wf(),
        ensures
            match r {
                Some((g, k)) => locate(self.groups(), (name@, version@)) == Some((g as int, k as int))
                    && g < self.groups().len() && k < self.groups()[g as int].metas.len(),
                None => locate(self.groups(), (name@, version@)) is None,
            },
    {
        let ghost gs = self.groups();
        let ghost key = (name@, version@);
        let mut g: usize = 0;
        while g < self.service_groups.len()
            invariant
                g <= self.service_groups@.len(),
                gs == self.groups(),
                gs.len() == self.service_groups@.len(),
                key == (name@, version@),
                locate_from(gs, key, 0) == locate_from(gs, key, g as int),
            decreases self.service_groups.len() - g,
        {
            let metas = &self.service_groups[g].metas;
            let mut m: usize = 0;
            let ghost ms = gs[g as int].metas;
            proof {
                assert(ms == metas_view(metas@));
            }
            while m < metas.len()
                invariant
                    m <= metas@.len(),
                    g < gs.len(),
                    ms == gs[g as int].metas,
                    ms == metas_view(metas@),
                    key == (name@, version@),
                    gs == self.groups(),
                    locate_from(gs, key, 0) == locate_from(gs, key, g as int),
                    meta_pos_from(ms, key, 0) == meta_pos_from(ms, key, m as int),
                decreases metas.len() - m,
            {
                if metas[m].name == *name && metas[m].version == *version {
                    proof {
                        assert(ms[m as int].key() == key);
                        assert(meta_pos_from(ms, key, m as int) == m);
                    }
                    return Some((g, m));
                }
                proof {
                    assert(ms[m as int].key() != key);
                }
                m = m + 1;
            }
            g = g + 1;
        }
        None
    }

    /// The current state of the service `(name, version)`, if it is in a group.
    pub fn service_state(&self, name: &str, version: &str) -> (r: Option<ServiceState>)
        requires
            self.wf(),
        ensures
            match locate(self.groups(), (name@, version@)) {
                Some((g, k)) => r == Some(self.states()[g][k]),
                None => r is None,
            },
    {
        let name = String::from_str(name);
        let version = String::from_str(version);
        match self.locate_key(&name, &version) {
            Some((g, k)) => {
                proof {
                    self.lemma_wf();
                    assert(self.groups().len() == self.service_groups@.len());
                    assert(self.states().len() == self.service_states@.len());
                    assert(group_view_wf(self.groups()[g as int]));
                    assert(self.states()[g as int] == self.service_states@[g as int]@);
                    assert(self.states()[g as int].len() == self.service_states@[g as int]@.len());
                }
                Some(self.service_states[g][k].duplicate())
            },
            None => None,
        }
    }

    fn write_state(&mut self, g: usize, k: usize, state: ServiceState)
        requires
            old(self).wf(),
            g < old(self).groups().len(),
            k < old(self).groups()[g as int].metas.len(),
        ensures
            final(self).wf(),
            final(self).groups() == old(self).groups(),
            final(self).dlq() == old(self).dlq(),
            final(self).states() == old(self).states().update(
                g as int,
                old(self).states()[g as int].update(k as int, state),
            ),
    {
        proof {
            self.lemma_wf();
            assert(self.groups().len() == self.service_groups@.len());
            assert(self.states().len() == self.service_states@.len());
            assert(group_view_wf(self.groups()[g as int]));
            assert(self.states()[g as int] == self.service_states@[g as int]@);
        }
        let mut row: Vec<ServiceState> = Vec::new();
        let mut j: usize = 0;
        let n = self.service_states[g].len();
        while j < n
            invariant
                g < self.service_states@.len(),
                n == self.service_states@[g as int]@.len(),
                j <= n,
                row@ == self.service_states@[g as int]@.take(j as int),
            decreases n - j,
        {
            row.push(self.service_states[g][j].duplicate());
            j = j + 1;
        }
        proof {
            assert(row@ == self.service_states@[g as int]@);
        }
        row.set(k, state);
        let ghost before = self.service_states@;
        self.service_states.set(g, row);
        proof {
            assert(self.states() == states_view(before).update(g as int, row@));
            assert forall|h: int| 0 <= h < self.service_groups@.len() implies #[trigger] self.service_groups@[h].wf()
                && self.service_states@[h]@.len() == self.service_groups@[h].metas@.len() by {
                assert(old(self).service_groups@[h].wf());
                if h != g {
                    assert(self.service_states@[h] == before[h]);
                }
            }
        }
    }

    /// Sets the state of the service `(name, version)` when it is in a group.
    pub fn set_service_state(&mut self, name: &str, version: &str, state: ServiceState)
        requires
            old(self).wf(),
        ensures
            final(self).wf(),
            final(self).groups() == old(self).groups(),
            final(self).dlq() == old(self).dlq(),
            match locate(old(self).groups(), (name@, version@)) {
                Some((g, k)) => final(self).states() == old(self).states().update(
                    g,
                    old(self).states()[g].update(k, state),
                ),
                None => final(self).states() == old(self).states(),
            },
    {
        let name = String::from_str(name);
        let version = String::from_str(version);
        match self.locate_key(&name, &version) {
            Some((g, k)) => self.write_state(g, k, state),
            None => {},
        }
    }

    /// The dead-letter queue: the services rejected while building.
    pub fn dead_letter_queue(&self) -> (r: &[DeadLetterQueueItem])
        ensures
            dlq_view(r@) == self.dlq(),
    {
        self.dlq.as_slice()
    }

    /// The metadata of the service `(name, version)`, if it is in a group.
    pub fn service_meta(&self, name: &str, version: &str) -> (r: Option<ServiceMeta>)
        requires
            self.wf(),
        ensures
            match locate(self.groups(), (name@, version@)) {
                Some((g, k)) => r matches Some(m) && m@ == self.groups()[g].metas[k],
                None => r is None,
            },
    {
        let name = String::from_str(name);
        let version = String::from_str(version);
        match self.locate_key(&name, &version) {
            Some((g, k)) => {
                proof {
                    assert(self.groups()[g as int] == self.service_groups@[g as int]@);
                }
                Some(self.service_groups[g].metas[k].duplicate())
            },
            None => None,
        }
    }

    /// The number of groups.
    pub fn group_num(&self) -> (r: usize)
        ensures
            r == self.groups().len(),
    {
        self.service_groups.len()
    }

    /// The keys of the services of group `group_idx`, in node order; empty
    /// when there is no such group.
    pub fn group_service_keys(&self, group_idx: usize) -> (r: Vec<(String, String)>)
        ensures
            group_idx < self.groups().len() ==> key_pairs_view(r@) == group_keys(
                self.groups()[group_idx as int],
            ),
            group_idx >= self.groups().len() ==> r@.len() == 0,
    {
        let mut ret: Vec<(String, String)> = Vec::new();
        if group_idx >= self.service_groups.len() {
            return ret;
        }
        let metas = &self.service_groups[group_idx].metas;
        let ghost ms = metas_view(metas@);
        proof {
            assert(self.groups()[group_idx as int].metas == ms);
        }
        let mut k: usize = 0;
        while k < metas.len()
            invariant
                k <= metas@.len(),
                ms == metas_view(metas@),
                key_pairs_view(ret@) == group_keys(GroupView { metas: ms, edges: Seq::empty() }).take(
                    k as int,
                ),
            decreases metas.len() - k,
        {
            let ghost before = ret@;
            ret.push((metas[k].name.clone(), metas[k].version.clone()));
            proof {
                assert(key_pairs_view(ret@) == key_pairs_view(before).push(ms[k as int].key()));
            }
            k = k + 1;
        }
        proof {
            let gk = group_keys(GroupView { metas: ms, edges: Seq::empty() });
            assert(gk.take(metas@.len() as int) == gk);
            assert(gk == group_keys(self.groups()[group_idx as int]));
        }
        ret
    }

    /// The keys of the services of group `group_idx` that depend on no other
    /// service of the group, in node order; empty when there is no such group.
    /// Stopping these stops the whole group.
    pub fn group_root_service_keys(&self, group_idx: usize) -> (r: Vec<(String, String)>)
        requires
            self.wf(),
        ensures
            group_idx < self.groups().len() ==> key_pairs_view(r@) == root_keys_upto(
                self.groups()[group_idx as int],
                self.groups()[group_idx as int].metas.len() as int,
            ),
            group_idx >= self.groups().len() ==> r@.len() == 0,
    {
        let mut ret: Vec<(String, String)> = Vec::new();
        if group_idx >= self.service_groups.len() {
            return ret;
        }
        let group = &self.service_groups[group_idx];
        let ghost gv = group@;
        proof {
            assert(self.service_groups@[group_idx as int].wf());
            assert(self.groups()[group_idx as int] == gv);
        }
        let mut k: usize = 0;
        while k < group.metas.len()
            invariant
                k <= group.metas@.len(),
                group.wf(),
                gv == group@,
                key_pairs_view(ret@) == root_keys_upto(gv, k as int),
            decreases group.metas.len() - k,
        {
            let incoming = graph_neighbors(&group.graph, k, false);
            let ghost before = ret@;
            if incoming.len() == 0 {
                proof {
                    assert forall|e: int| 0 <= e < gv.edges.len() implies #[trigger] gv.edges[e].1 != k by {
                        if gv.edges[e].1 == k {
                            assert(graph_edges(group.graph).contains((gv.edges[e].0, k)));
                            assert(incoming@.contains(gv.edges[e].0));
                        }
                    }
                }
                ret.push((group.metas[k].name.clone(), group.metas[k].version.clone()));
                proof {
                    assert(key_pairs_view(ret@) == key_pairs_view(before).push(gv.metas[k as int].key()));
                }
            } else {
                proof {
                    let w = incoming@[0];
                    assert(incoming@.contains(w));
                    assert(graph_edges(group.graph).contains((w, k)));
                    let e = choose|e: int| 0 <= e < gv.edges.len() && gv.edges[e] == (w, k);
                    assert(gv.edges[e].1 == k);
                    assert(!is_root(gv, k as int));
                }
            }
            k = k + 1;
        }
        ret
    }
}


/// The lifecycle steps: launching an idle service, its runner reporting it
/// started, stopping a running one, its runner reporting it stopped, and a
/// crash from any state.
pub open spec fn allowed_step(from: ServiceState, to: ServiceState) -> bool {
    ||| from == to
    ||| (from is Pending || from is Stopped || from is Failed || from is Skipped) && to is Starting
    ||| from is Starting && to is Running
    ||| from is Running && to is Stopping
    ||| from is Stopping && to is Stopped
    ||| to is Failed
}

/// Every service moved by an allowed step.
pub open spec fn steps_allowed(s: Seq<Seq<ServiceState>>, t: Seq<Seq<ServiceState>>) -> bool {
    &&& t.len() == s.len()
    &&& forall|g: int| 0 <= g < s.len() ==> #[trigger] t[g].len() == s[g].len()
    &&& forall|g: int, k: int|
        0 <= g < s.len() && 0 <= k < s[g].len() ==> allowed_step(s[g][k], #[trigger] t[g][k])
}

/// Every dependency of node `k` in its group is running.
pub open spec fn deps_running_spec(gv: GroupView, st: Seq<ServiceState>, k: int) -> bool {
    forall|e: int|
        0 <= e < gv.edges.len() && #[trigger] gv.edges[e].1 == k ==> st[gv.edges[e].0 as int] is Running
}

/// A service that is starting or stopping.
pub open spec fn mid_state(s: ServiceState) -> bool {
    s is Starting || s is Stopping
}

impl ServiceManager {
    /// Whether every dependency of node `k` of group `g` is running.
    fn deps_running(&self, g: usize, k: usize) -> (r: bool)
        requires
            self.wf(),
            g < self.groups().len(),
            k < self.groups()[g as int].metas.len(),
        ensures
            r == deps_running_spec(self.groups()[g as int], self.states()[g as int], k as int),
    {
        let group = &self.service_groups[g];
        let ghost gv = group@;
        proof {
            self.lemma_wf();
            assert(self.groups()[g as int] == gv);
            assert(self.service_groups@[g as int].wf());
            assert(group_view_wf(self.groups()[g as int]));
            assert(self.states()[g as int] == self.service_states@[g as int]@);
        }
        let incoming = graph_neighbors(&group.graph, k, false);
        let row = &self.service_states[g];
        let mut i: usize = 0;
        while i < incoming.len()
            invariant
                i <= incoming@.len(),
                group.wf(),
                gv == group@,
                gv == self.groups()[g as int],
                row@ == self.states()[g as int],
                row@.len() == gv.metas.len(),
                k < gv.metas.len(),
                forall|w: usize|
                    #![trigger incoming@.contains(w)]
                    incoming@.contains(w) <==> graph_edges(group.graph).contains((w, k)),
                forall|j: int| 0 <= j < i ==> #[trigger] row@[incoming@[j] as int] is Running,
            decreases incoming.len() - i,
        {
            let w = incoming[i];
            proof {
                assert(incoming@.contains(w));
                let e = choose|e: int| 0 <= e < gv.edges.len() && gv.edges[e] == (w, k);
                assert(gv.edges[e].0 < gv.metas.len());
            }
            match &row[w] {
                ServiceState::Running => {},
                _ => {
                    proof {
                        let e = choose|e: int| 0 <= e < gv.edges.len() && gv.edges[e] == (w, k);
                        assert(gv.edges[e].1 == k);
                        assert(!(row@[gv.edges[e].0 as int] is Running));
                    }
                    return false;
                },
            }
            i = i + 1;
        }
        proof {
            assert forall|e: int|
                0 <= e < gv.edges.len() && #[trigger] gv.edges[e].1 == k implies row@[gv.edges[e].0 as int] is Running by {
                let w = gv.edges[e].0;
                assert(graph_edges(group.graph).contains((w, k)));
                assert(incoming@.contains(w));
                let j = choose|j: int| 0 <= j < incoming@.len() && incoming@[j] == w;
                assert(row@[incoming@[j] as int] is Running);
            }
        }
        true
    }

    /// Decides on launching the service of `meta`. A service in no group is
    /// refused. When a dependency is not running, or it is already running,
    /// nothing happens and the result is `Ok(false)`. When it is pending, stopped,
    /// failed or skipped it becomes `Starting` and the result is `Ok(true)`:
    /// the caller then spawns its runner. A service that is starting or
    /// stopping is refused.
    pub fn launch_service(&mut self, meta: &ServiceMeta) -> (r: Result<bool, ManagerError>)
        requires
            old(self).wf(),
        ensures
            final(self).wf(),
            final(self).groups() == old(self).groups(),
            final(self).dlq() == old(self).dlq(),
            steps_allowed(old(self).states(), final(self).states()),
            match locate(old(self).groups(), meta@.key()) {
                None => r == Err::<bool, ManagerError>(ManagerError::NotFound) && final(self).states()
                    == old(self).states(),
                Some((g, k)) => {
                    let st = old(self).states()[g][k];
                    if !deps_running_spec(old(self).groups()[g], old(self).states()[g], k) {
                        r == Ok::<bool, ManagerError>(false) && final(self).states() == old(self).states()
                    } else if st is Running {
                        r == Ok::<bool, ManagerError>(false) && final(self).states() == old(self).states()
                    } else if mid_state(st) {
                        r == Err::<bool, ManagerError>(ManagerError::MidState(st)) && final(self).states()
                            == old(self).states()
                    } else {
                        r == Ok::<bool, ManagerError>(true) && final(self).states() == old(self).states().update(
                            g,
                            old(self).states()[g].update(k, ServiceState::Starting),
                        )
                    }
                },
            },
    {
        proof {
            self.lemma_wf();
        }
        let loc = self.locate_key(&meta.name, &meta.version);
        let (g, k) = match loc {
            Some(p) => p,
            None => {
                proof {
                    lemma_steps_refl(self.states());
                }
                return Err(ManagerError::NotFound);
            },
        };
        if !self.deps_running(g, k) {
            proof {
                lemma_steps_refl(self.states());
            }
            return Ok(false);
        }
        proof {
            assert(group_view_wf(self.groups()[g as int]));
            assert(self.states()[g as int] == self.service_states@[g as int]@);
        }
        match &self.service_states[g][k] {
            ServiceState::Running => {
                proof {
                    lemma_steps_refl(self.states());
                }
                Ok(false)
            },
            ServiceState::Starting | ServiceState::Stopping => {
                proof {
                    lemma_steps_refl(self.states());
                }
                Err(ManagerError::MidState(self.service_states[g][k].duplicate()))
            },
            _ => {
                let ghost before = self.states();
                self.write_state(g, k, ServiceState::Starting);
                proof {
                    lemma_steps_update(before, g as int, k as int, ServiceState::Starting);
                }
                Ok(true)
            },
        }
    }
}

proof fn lemma_steps_refl(s: Seq<Seq<ServiceState>>)
    ensures
        steps_allowed(s, s),
{
}

proof fn lemma_steps_update(s: Seq<Seq<ServiceState>>, g: int, k: int, v: ServiceState)
    requires
        0 <= g < s.len(),
        0 <= k < s[g].len(),
        allowed_step(s[g][k], v),
    ensures
        steps_allowed(s, s.update(g, s[g].update(k, v))),
{
    let t = s.update(g, s[g].update(k, v));
    assert forall|h: int, j: int| 0 <= h < s.len() && 0 <= j < s[h].len() implies allowed_step(
        s[h][j],
        #[trigger] t[h][j],
    ) by {
        if h == g && j == k {
        } else if h == g {
            assert(t[h][j] == s[h][j]);
        } else {
            assert(t[h] == s[h]);
        }
    }
}


/// The number of running services in `s`.
pub open spec fn count_running(s: Seq<ServiceState>) -> nat
    decreases s.len(),
{
    if s.len() == 0 {
        0
    } else {
        count_running(s.drop_last()) + if s.last() is Running {
            1nat
        } else {
            0nat
        }
    }
}

/// Service `v` was running in `s` and is stopping in `t`.
pub open spec fn became_stopping(s: Seq<ServiceState>, t: Seq<ServiceState>, v: int) -> bool {
    s[v] is Running && t[v] is Stopping
}

/// `t` differs from `s` only where a running service became stopping.
pub open spec fn stop_frame(s: Seq<ServiceState>, t: Seq<ServiceState>) -> bool {
    &&& t.len() == s.len()
    &&& forall|v: int| 0 <= v < s.len() ==> #[trigger] t[v] == s[v] || became_stopping(s, t, v)
}

/// Whenever a service became stopping, so did each of its dependents that was running.
pub open spec fn stop_closed(gv: GroupView, s: Seq<ServiceState>, t: Seq<ServiceState>) -> bool {
    forall|e: int|
        0 <= e < gv.edges.len() && became_stopping(s, t, #[trigger] gv.edges[e].0 as int)
            && s[gv.edges[e].1 as int] is Running ==> t[gv.edges[e].1 as int] is Stopping
}

/// The entries of `c` from position `from` on are services that became stopping.
pub open spec fn cancels_sound(c: Seq<usize>, from: int, s: Seq<ServiceState>, t: Seq<ServiceState>) -> bool {
    forall|i: int| from <= i < c.len() ==> #[trigger] c[i] < s.len() && became_stopping(s, t, c[i] as int)
}

/// Every service that became stopping is among the entries of `c` from position `from` on.
pub open spec fn cancels_complete(c: Seq<usize>, from: int, s: Seq<ServiceState>, t: Seq<ServiceState>) -> bool {
    forall|v: int|
        0 <= v < s.len() && #[trigger] became_stopping(s, t, v) ==> exists|i: int|
            from <= i < c.len() && c[i] == v
}

proof fn lemma_count_running(s: Seq<ServiceState>, t: Seq<ServiceState>, v: int)
    requires
        t.len() == s.len(),
        forall|i: int| 0 <= i < s.len() && #[trigger] t[i] is Running ==> s[i] is Running,
    ensures
        count_running(t) <= count_running(s),
        0 <= v < s.len() && s[v] is Running && !(t[v] is Running) ==> count_running(t) < count_running(s),
    decreases s.len(),
{
    if s.len() > 0 {
        let n = s.len() - 1;
        assert forall|i: int| 0 <= i < n && #[trigger] t.drop_last()[i] is Running implies s.drop_last()[i] is Running by {
            assert(t[i] is Running);
        }
        lemma_count_running(s.drop_last(), t.drop_last(), v);
    }
}

proof fn lemma_stop_frame_trans(a: Seq<ServiceState>, b: Seq<ServiceState>, c: Seq<ServiceState>)
    requires
        stop_frame(a, b),
        stop_frame(b, c),
    ensures
        stop_frame(a, c),
        forall|v: int| 0 <= v < a.len() && #[trigger] became_stopping(a, b, v) ==> became_stopping(a, c, v),
        forall|v: int| 0 <= v < a.len() && #[trigger] became_stopping(b, c, v) ==> became_stopping(a, c, v),
{
    assert forall|v: int| 0 <= v < a.len() implies #[trigger] c[v] == a[v] || became_stopping(a, c, v) by {
        assert(b[v] == a[v] || became_stopping(a, b, v));
        assert(c[v] == b[v] || became_stopping(b, c, v));
    }
    assert forall|v: int| 0 <= v < a.len() && #[trigger] became_stopping(a, b, v) implies became_stopping(a, c, v) by {
        assert(c[v] == b[v] || became_stopping(b, c, v));
    }
    assert forall|v: int| 0 <= v < a.len() && #[trigger] became_stopping(b, c, v) implies became_stopping(a, c, v) by {
        assert(b[v] == a[v] || became_stopping(a, b, v));
    }
}

impl ServiceManager {
    /// The stop gate and cascade for node `u` of group `g`: a running service
    /// becomes `Stopping`, then each of its dependents is stopped in turn,
    /// then `u` is appended to `cancels`. A service that is starting or
    /// stopping is refused, and the first refusal in the cascade ends it; any
    /// other service is left as it is.
    fn stop_node(&mut self, g: usize, u: usize, cancels: &mut Vec<usize>) -> (r: Result<(), ManagerError>)
        requires
            old(self).wf(),
            g < old(self).groups().len(),
            u < old(self).groups()[g as int].metas.len(),
        ensures
            final(self).wf(),
            final(self).groups() == old(self).groups(),
            final(self).dlq() == old(self).dlq(),
            final(self).states().len() == old(self).states().len(),
            forall|h: int|
                0 <= h < old(self).states().len() && h != g ==> #[trigger] final(self).states()[h]
                    == old(self).states()[h],
            stop_frame(old(self).states()[g as int], final(self).states()[g as int]),
            mid_state(old(self).states()[g as int][u as int]) ==> r == Err::<(), ManagerError>(
                ManagerError::MidState(old(self).states()[g as int][u as int]),
            ) && final(self).states() == old(self).states() && final(cancels)@ == old(cancels)@,
            !mid_state(old(self).states()[g as int][u as int])
                && !(old(self).states()[g as int][u as int] is Running)
                ==> r is Ok && final(self).states() == old(self).states()
                && final(cancels)@ == old(cancels)@,
            old(self).states()[g as int][u as int] is Running
                ==> final(self).states()[g as int][u as int] is Stopping,
            r is Ok ==> entered(
                old(self).groups()[g as int],
                old(self).states()[g as int],
                final(self).states()[g as int],
                u as int,
            ),
            r is Ok ==> !hits_mid(
                old(self).groups()[g as int],
                old(self).states()[g as int],
                final(self).states()[g as int],
            ) && !hits_twice(
                old(self).groups()[g as int],
                old(self).states()[g as int],
                final(self).states()[g as int],
            ),
            r is Err ==> (r matches Err(ManagerError::MidState(x)) && mid_state(x)),
            old(self).states()[g as int][u as int] is Running && r is Err ==> hits_mid(
                old(self).groups()[g as int],
                old(self).states()[g as int],
                final(self).states()[g as int],
            ) || hits_twice(
                old(self).groups()[g as int],
                old(self).states()[g as int],
                final(self).states()[g as int],
            ),
            r is Ok ==> stop_closed(
                old(self).groups()[g as int],
                old(self).states()[g as int],
                final(self).states()[g as int],
            ),
            forall|v: int|
                0 <= v < old(self).states()[g as int].len() && #[trigger] became_stopping(
                    old(self).states()[g as int],
                    final(self).states()[g as int],
                    v,
                ) ==> reaches_running(old(self).groups()[g as int], old(self).states()[g as int], u as int, v),
            final(cancels)@.len() >= old(cancels)@.len(),
            forall|i: int| 0 <= i < old(cancels)@.len() ==> #[trigger] final(cancels)@[i] == old(cancels)@[i],
            cancels_sound(
                final(cancels)@,
                old(cancels)@.len() as int,
                old(self).states()[g as int],
                final(self).states()[g as int],
            ),
            r is Ok ==> cancels_complete(
                final(cancels)@,
                old(cancels)@.len() as int,
                old(self).states()[g as int],
                final(self).states()[g as int],
            ),
        decreases count_running(old(self).states()[g as int]),
    {
        proof {
            self.lemma_wf();
            assert(group_view_wf(self.groups()[g as int]));
            assert(self.states()[g as int] == self.service_states@[g as int]@);
        }
        let ghost s0 = self.states()[g as int];
        let ghost all0 = self.states();
        let ghost gv = self.groups()[g as int];
        let ghost c0 = cancels@;
        match &self.service_states[g][u] {
            ServiceState::Running => {},
            ServiceState::Starting | ServiceState::Stopping => {
                return Err(ManagerError::MidState(self.service_states[g][u].duplicate()));
            },
            _ => {
                return Ok(());
            },
        }
        self.write_state(g, u, ServiceState::Stopping);
        proof {
            lemma_count_running(s0, self.states()[g as int], u as int);
        }
        proof {
            assert(self.service_groups@[g as int].wf());
            assert(self.groups()[g as int] == self.service_groups@[g as int]@);
        }
        let outs = graph_neighbors(&self.service_groups[g].graph, u, true);
        let ghost ids = out_edge_ids(gv.edges, u as usize);
        proof {
            let t = self.states()[g as int];
            assert(ids.subrange(ids.len() - 0, ids.len() as int) == Seq::<int>::empty());
            assert forall|x: int| 0 <= x < s0.len() && x != u implies !#[trigger] became_stopping(s0, t, x) by {
                assert(t[x] == s0[x]);
            }
            assert forall|e: int| !#[trigger] followed(gv, s0, t, u as int, ids, 0, e) by {
                if 0 <= e < gv.edges.len() && gv.edges[e].0 as int != u {
                    assert(gv.edges[e].0 < gv.metas.len());
                }
            }
            assert(cascade_inv(gv, s0, t, u as int, ids, 0));
            assert forall|v: int|
                0 <= v < s0.len() && #[trigger] became_stopping(s0, t, v) implies reaches_running(
                gv,
                s0,
                u as int,
                v,
            ) by {
                assert(t[v] == s0[v] || v == u);
                let p = seq![u];
                assert(running_walk(gv, s0, p));
            }
            assert forall|j: int| 0 <= j < outs@.len() implies #[trigger] outs@[j] < s0.len() by {
                let w = outs@[j];
                assert(outs@.contains(w));
                let e = choose|e: int| 0 <= e < gv.edges.len() && gv.edges[e] == (u, w);
                assert(gv.edges[e].0 < gv.metas.len());
            }
        }
        let mut i: usize = 0;
        while i < outs.len()
            invariant
                self.wf(),
                g < self.groups().len(),
                u < gv.metas.len(),
                self.groups() == old(self).groups(),
                self.dlq() == old(self).dlq(),
                gv == self.groups()[g as int],
                group_view_wf(gv),
                s0 == old(self).states()[g as int],
                all0 == old(self).states(),
                c0 == old(cancels)@,
                s0[u as int] is Running,
                s0.len() == gv.metas.len(),
                i <= outs@.len(),
                forall|w: usize|
                    #![trigger outs@.contains(w)]
                    outs@.contains(w) <==> gv.edges.contains((u, w)),
                ids == out_edge_ids(gv.edges, u as usize),
                outs@.len() == ids.len(),
                forall|p: int| 0 <= p < outs@.len() ==> #[trigger] outs@[p] == gv.edges[ids[ids.len() - 1 - p]].1,
                cascade_inv(gv, s0, self.states()[g as int], u as int, ids, i as int),
                forall|j: int| 0 <= j < outs@.len() ==> #[trigger] outs@[j] < s0.len(),
                self.states().len() == all0.len(),
                forall|h: int|
                    0 <= h < all0.len() && h != g ==> #[trigger] self.states()[h] == all0[h],
                stop_frame(s0, self.states()[g as int]),
                self.states()[g as int][u as int] is Stopping,
                count_running(self.states()[g as int]) < count_running(s0),
                forall|j: int|
                    0 <= j < i && s0[#[trigger] outs@[j] as int] is Running ==> self.states()[g as int][outs@[j] as int] is Stopping,
                forall|e: int|
                    0 <= e < gv.edges.len() && gv.edges[e].0 != u && became_stopping(
                        s0,
                        self.states()[g as int],
                        #[trigger] gv.edges[e].0 as int,
                    ) && s0[gv.edges[e].1 as int] is Running ==> self.states()[g as int][gv.edges[e].1 as int] is Stopping,
                cancels@.len() >= c0.len(),
                forall|j: int| 0 <= j < c0.len() ==> #[trigger] cancels@[j] == c0[j],
                cancels_sound(cancels@, c0.len() as int, s0, self.states()[g as int]),
                forall|v: int|
                    0 <= v < s0.len() && #[trigger] became_stopping(s0, self.states()[g as int], v)
                        ==> reaches_running(gv, s0, u as int, v),
                forall|v: int|
                    0 <= v < s0.len() && v != u && #[trigger] became_stopping(s0, self.states()[g as int], v)
                        ==> exists|j: int| c0.len() <= j < cancels@.len() && cancels@[j] == v,
            decreases outs@.len() - i,
        {
            let w = outs[i];
            proof {
                assert(outs@.contains(w));
                let e = choose|e: int| 0 <= e < gv.edges.len() && gv.edges[e] == (u, w);
                assert(gv.edges[e].0 < gv.metas.len());
                assert(gv.edges[e].1 < gv.metas.len());
            }
            let ghost si = self.states()[g as int];
            let ghost alli = self.states();
            let ghost ci = cancels@;
            let res = self.stop_node(g, w, cancels);
            let ghost sf = self.states()[g as int];
            proof {
                lemma_stop_frame_trans(s0, si, sf);
                assert forall|h: int| 0 <= h < all0.len() && h != g implies #[trigger] self.states()[h] == all0[h] by {
                    assert(self.states()[h] == alli[h]);
                }
                assert forall|x: int| 0 <= x < sf.len() && #[trigger] sf[x] is Running implies si[x] is Running by {
                    assert(sf[x] == si[x] || became_stopping(si, sf, x));
                }
                lemma_count_running(si, sf, 0);
                assert forall|j: int| 0 <= j < ci.len() implies #[trigger] cancels@[j] == ci[j] by {}
                assert forall|j: int| 0 <= j < c0.len() implies #[trigger] cancels@[j] == c0[j] by {
                    assert(cancels@[j] == ci[j]);
                }
                assert forall|j: int| c0.len() <= j < cancels@.len() implies #[trigger] cancels@[j] < s0.len()
                    && became_stopping(s0, sf, cancels@[j] as int) by {
                    if j < ci.len() {
                        assert(cancels@[j] == ci[j]);
                        assert(became_stopping(s0, si, ci[j] as int));
                    } else {
                        assert(became_stopping(si, sf, cancels@[j] as int));
                    }
                }
            }
            proof {
                assert forall|v: int|
                    0 <= v < s0.len() && #[trigger] became_stopping(s0, sf, v) implies reaches_running(
                    gv,
                    s0,
                    u as int,
                    v,
                ) by {
                    assert(si[v] == s0[v] || became_stopping(s0, si, v));
                    if !became_stopping(s0, si, v) {
                        assert(became_stopping(si, sf, v));
                        lemma_reach_prepend(gv, s0, si, u as int, w as int, v);
                    }
                }
            }
            proof {
                assert(outs@[i as int] == gv.edges[ids[ids.len() - 1 - i]].1);
                assert(step_frame(gv, s0, si, sf, u as int, ids, i as int));
            }
            if res.is_err() {
                proof {
                    lemma_cascade_err(gv, s0, si, sf, u as int, ids, i as int);
                    assert(sf[u as int] == si[u as int] || became_stopping(si, sf, u as int));
                }
                return res;
            }
            proof {
                lemma_cascade_step(gv, s0, si, sf, u as int, ids, i as int);
            }
            proof {
                assert forall|j: int|
                    0 <= j < i + 1 && s0[#[trigger] outs@[j] as int] is Running implies sf[outs@[j] as int] is Stopping by {
                    let x = outs@[j] as int;
                    assert(si[x] == s0[x] || became_stopping(s0, si, x));
                    assert(sf[x] == si[x] || became_stopping(si, sf, x));
                }
                assert forall|e: int|
                    0 <= e < gv.edges.len() && gv.edges[e].0 != u && became_stopping(
                        s0,
                        sf,
                        #[trigger] gv.edges[e].0 as int,
                    ) && s0[gv.edges[e].1 as int] is Running implies sf[gv.edges[e].1 as int] is Stopping by {
                    let x = gv.edges[e].0 as int;
                    let y = gv.edges[e].1 as int;
                    assert(si[x] == s0[x] || became_stopping(s0, si, x));
                    assert(si[y] == s0[y] || became_stopping(s0, si, y));
                    assert(sf[y] == si[y] || became_stopping(si, sf, y));
                    if became_stopping(s0, si, x) {
                        assert(si[y] is Stopping);
                    } else {
                        assert(became_stopping(si, sf, x));
                    }
                }
                assert forall|v: int|
                    0 <= v < s0.len() && v != u && #[trigger] became_stopping(s0, sf, v) implies exists|j: int|
                        c0.len() <= j < cancels@.len() && cancels@[j] == v by {
                    assert(si[v] == s0[v] || became_stopping(s0, si, v));
                    if became_stopping(s0, si, v) {
                        let j = choose|j: int| c0.len() <= j < ci.len() && ci[j] == v;
                        assert(cancels@[j] == ci[j]);
                    } else {
                        assert(became_stopping(si, sf, v));
                        let j = choose|j: int| ci.len() <= j < cancels@.len() && cancels@[j] == v;
                    }
                }
            }
            i = i + 1;
        }
        let ghost before = cancels@;
        cancels.push(u);
        proof {
            let t = self.states()[g as int];
            lemma_cascade_done(gv, s0, t, u as int, ids);
            assert forall|e: int|
                0 <= e < gv.edges.len() && became_stopping(s0, t, #[trigger] gv.edges[e].0 as int)
                    && s0[gv.edges[e].1 as int] is Running implies t[gv.edges[e].1 as int] is Stopping by {
                if gv.edges[e].0 == u {
                    let w = gv.edges[e].1;
                    assert(gv.edges.contains((u, w)));
                    assert(outs@.contains(w));
                    let j = choose|j: int| 0 <= j < outs@.len() && outs@[j] == w;
                    assert(s0[outs@[j] as int] is Running);
                }
            }
            assert forall|j: int| 0 <= j < c0.len() implies #[trigger] cancels@[j] == c0[j] by {
                assert(cancels@[j] == before[j]);
            }
            assert forall|j: int| c0.len() <= j < cancels@.len() implies #[trigger] cancels@[j] < s0.len()
                && became_stopping(s0, t, cancels@[j] as int) by {
                if j < before.len() {
                    assert(cancels@[j] == before[j]);
                }
            }
            assert forall|v: int| 0 <= v < s0.len() && #[trigger] became_stopping(s0, t, v) implies exists|j: int|
                c0.len() <= j < cancels@.len() && cancels@[j] == v by {
                if v == u {
                    assert(cancels@[before.len() as int] == u);
                } else {
                    let j = choose|j: int| c0.len() <= j < before.len() && before[j] == v;
                    assert(cancels@[j] == before[j]);
                }
            }
        }
        Ok(())
    }
}


/// `p` is a walk along the edges of `gv`, from a service to its dependents,
/// through services that are all running in `st`.
pub open spec fn running_walk(gv: GroupView, st: Seq<ServiceState>, p: Seq<usize>) -> bool {
    &&& p.len() >= 1
    &&& is_walk(gv.edges, p)
    &&& forall|i: int| 0 <= i < p.len() ==> #[trigger] p[i] < st.len() && st[p[i] as int] is Running
}

/// Service `b` is reached from `a` along dependents that are all running in `st`.
pub open spec fn reaches_running(gv: GroupView, st: Seq<ServiceState>, a: int, b: int) -> bool {
    exists|p: Seq<usize>|
        #[trigger] running_walk(gv, st, p) && p[0] == a && p[p.len() - 1] == b
}

proof fn lemma_reach_prepend(
    gv: GroupView,
    s0: Seq<ServiceState>,
    si: Seq<ServiceState>,
    u: int,
    w: int,
    v: int,
)
    requires
        stop_frame(s0, si),
        0 <= u < s0.len(),
        s0[u] is Running,
        0 <= w,
        gv.edges.contains((u as usize, w as usize)),
        u as usize == u,
        w as usize == w,
        reaches_running(gv, si, w, v),
    ensures
        reaches_running(gv, s0, u, v),
{
    let p = choose|p: Seq<usize>| #[trigger] running_walk(gv, si, p) && p[0] == w && p[p.len() - 1] == v;
    let q = seq![u as usize] + p;
    assert forall|i: int| 0 <= i < q.len() implies #[trigger] q[i] < s0.len() && s0[q[i] as int] is Running by {
        if i > 0 {
            assert(q[i] == p[i - 1]);
            assert(p[i - 1] < si.len() && si[p[i - 1] as int] is Running);
            assert(si[p[i - 1] as int] == s0[p[i - 1] as int] || became_stopping(s0, si, p[i - 1] as int));
        }
    }
    assert forall|k: int| 0 <= k < q.len() - 1 implies #[trigger] gv.edges.contains((q[k], q[k + 1])) by {
        if k == 0 {
            assert(q[1] == p[0]);
        } else {
            let j = k - 1;
            assert(q[k] == p[j] && q[k + 1] == p[j + 1]);
            assert(gv.edges.contains((p[j], p[j + 1])));
        }
    }
    assert(running_walk(gv, s0, q));
    assert(q[q.len() - 1] == p[p.len() - 1]);
}

proof fn lemma_closed_reach(gv: GroupView, s: Seq<ServiceState>, t: Seq<ServiceState>, p: Seq<usize>)
    requires
        stop_closed(gv, s, t),
        running_walk(gv, s, p),
        t.len() == s.len(),
        t[p[0] as int] is Stopping,
    ensures
        t[p[p.len() - 1] as int] is Stopping,
    decreases p.len(),
{
    if p.len() > 1 {
        let q = p.drop_last();
        assert(running_walk(gv, s, q)) by {
            assert forall|k: int| 0 <= k < q.len() - 1 implies #[trigger] gv.edges.contains((q[k], q[k + 1])) by {
                assert(gv.edges.contains((p[k], p[k + 1])));
            }
        }
        lemma_closed_reach(gv, s, t, q);
        let n = p.len() - 2;
        assert(gv.edges.contains((p[n], p[n + 1])));
        let e = choose|e: int| 0 <= e < gv.edges.len() && gv.edges[e] == (p[n], p[n + 1]);
        assert(s[p[n] as int] is Running);
        assert(became_stopping(s, t, gv.edges[e].0 as int));
        assert(s[gv.edges[e].1 as int] is Running);
    }
}

proof fn lemma_stop_steps(s: Seq<Seq<ServiceState>>, t: Seq<Seq<ServiceState>>, g: int)
    requires
        0 <= g < s.len(),
        t.len() == s.len(),
        forall|h: int| 0 <= h < s.len() && h != g ==> #[trigger] t[h] == s[h],
        stop_frame(s[g], t[g]),
    ensures
        steps_allowed(s, t),
{
    assert forall|h: int, k: int| 0 <= h < s.len() && 0 <= k < s[h].len() implies allowed_step(
        s[h][k],
        #[trigger] t[h][k],
    ) by {
        if h == g {
            assert(t[h][k] == s[h][k] || became_stopping(s[h], t[h], k));
        } else {
            assert(t[h] == s[h]);
        }
    }
}

/// The states after a runner reports that the service at `loc` started
/// (`started`) or stopped: a starting service becomes running, a stopping one
/// stopped, and any other state is left as it is.
pub open spec fn advanced(st: Seq<Seq<ServiceState>>, loc: Option<(int, int)>, started: bool) -> Seq<
    Seq<ServiceState>,
> {
    match loc {
        Some((g, k)) => if started && st[g][k] is Starting {
            st.update(g, st[g].update(k, ServiceState::Running))
        } else if !started && st[g][k] is Stopping {
            st.update(g, st[g].update(k, ServiceState::Stopped))
        } else {
            st
        },
        None => st,
    }
}

/// The events a runner reports about its service.
pub enum ServiceManagerEvent {
    ServiceStarted { service_key: (String, String) },
    ServiceStopped { service_key: (String, String) },
    ServiceCrashed { service_key: (String, String), reason: String },
}

/// What to do after a state poll while waiting for a service to come up.
#[derive(Debug, PartialEq, Eq, Structural)]
pub enum PollStep {
    /// The service is running.
    Ready,
    /// The service is still starting: poll again.
    Wait,
    /// The service is neither running nor starting (or unknown): stop waiting.
    GiveUp,
}

/// The step that a polled state calls for.
pub fn poll_step(state: &Option<ServiceState>) -> (r: PollStep)
    ensures
        r == (match state {
            Some(ServiceState::Running) => PollStep::Ready,
            Some(ServiceState::Starting) => PollStep::Wait,
            _ => PollStep::GiveUp,
        }),
{
    match state {
        Some(ServiceState::Running) => PollStep::Ready,
        Some(ServiceState::Starting) => PollStep::Wait,
        _ => PollStep::GiveUp,
    }
}

impl ServiceManager {
    /// Decides on stopping the service `(name, version)` and, before it, every
    /// service that depends on it. A running service becomes `Stopping` and
    /// its dependents are stopped in turn; the keys returned are the services
    /// that became `Stopping`, whose runners the caller cancels. A service
    /// that is stopped, failed, pending or skipped is left as it is; one that
    /// is starting or stopping is refused, and a refusal inside the cascade
    /// ends it with that error.
    pub fn stop_service(&mut self, name: &str, version: &str) -> (r: (
        Vec<(String, String)>,
        Result<(), ManagerError>,
    ))
        requires
            old(self).wf(),
        ensures
            final(self).wf(),
            final(self).groups() == old(self).groups(),
            final(self).dlq() == old(self).dlq(),
            steps_allowed(old(self).states(), final(self).states()),
            match locate(old(self).groups(), (name@, version@)) {
                None => r.1 == Err::<(), ManagerError>(ManagerError::NotFound) && r.0@.len() == 0
                    && final(self).states() == old(self).states(),
                Some((g, k)) => {
                    let s = old(self).states()[g];
                    let t = final(self).states()[g];
                    let gv = old(self).groups()[g];
                    &&& forall|h: int|
                        0 <= h < old(self).states().len() && h != g ==> #[trigger] final(self).states()[h]
                            == old(self).states()[h]
                    &&& stop_frame(s, t)
                    &&& mid_state(s[k]) ==> r.1 == Err::<(), ManagerError>(ManagerError::MidState(s[k]))
                        && r.0@.len() == 0 && final(self).states() == old(self).states()
                    &&& !mid_state(s[k]) && !(s[k] is Running) ==> r.1 is Ok && r.0@.len() == 0
                        && final(self).states() == old(self).states()
                    &&& r.1 is Ok ==> forall|v: int|
                        0 <= v < s.len() && #[trigger] reaches_running(gv, s, k, v) ==> t[v] is Stopping
                    &&& forall|v: int|
                        0 <= v < s.len() && #[trigger] became_stopping(s, t, v) ==> reaches_running(gv, s, k, v)
                    &&& s[k] is Running ==> t[k] is Stopping
                    &&& s[k] is Running ==> (r.1 is Ok <==> cascade_clear(gv, s, k))
                    &&& r.1 is Err ==> (r.1 matches Err(ManagerError::MidState(x)) && mid_state(x))
                    &&& forall|i: int|
                        0 <= i < r.0@.len() ==> exists|v: int|
                            0 <= v < s.len() && became_stopping(s, t, v) && (#[trigger] key_pairs_view(
                                r.0@,
                            )[i]) == gv.metas[v].key()
                    &&& r.1 is Ok ==> forall|v: int|
                        0 <= v < s.len() && #[trigger] became_stopping(s, t, v) ==> key_pairs_view(
                            r.0@,
                        ).contains(gv.metas[v].key())
                },
            },
    {
        proof {
            self.lemma_wf();
        }
        let name = String::from_str(name);
        let version = String::from_str(version);
        let (g, k) = match self.locate_key(&name, &version) {
            Some(p) => p,
            None => {
                proof {
                    lemma_steps_refl(self.states());
                }
                return (Vec::new(), Err(ManagerError::NotFound));
            },
        };
        let ghost s = self.states()[g as int];
        let ghost all = self.states();
        let ghost gv = self.groups()[g as int];
        let mut cancels: Vec<usize> = Vec::new();
        let res = self.stop_node(g, k, &mut cancels);
        let ghost t = self.states()[g as int];
        proof {
            lemma_stop_steps(all, self.states(), g as int);
            self.lemma_wf();
            assert(group_view_wf(gv));
            if s[k as int] is Running {
                lemma_clear_iff(gv, s, t, k as int, res is Ok);
            }
            if res is Ok {
                assert forall|v: int| 0 <= v < s.len() && #[trigger] reaches_running(gv, s, k as int, v) implies t[v] is Stopping by {
                    let p = choose|p: Seq<usize>|
                        #[trigger] running_walk(gv, s, p) && p[0] == k && p[p.len() - 1] == v;
                    assert(s[p[0] as int] is Running);
                    lemma_closed_reach(gv, s, t, p);
                }
            }
        }
        let metas = &self.service_groups[g].metas;
        proof {
            assert(self.groups()[g as int] == self.service_groups@[g as int]@);
            assert(gv.metas == metas_view(metas@));
        }
        let mut keys: Vec<(String, String)> = Vec::new();
        let mut i: usize = 0;
        while i < cancels.len()
            invariant
                i <= cancels@.len(),
                gv.metas == metas_view(metas@),
                s.len() == gv.metas.len(),
                cancels_sound(cancels@, 0, s, t),
                key_pairs_view(keys@).len() == i,
                forall|j: int| 0 <= j < i ==> #[trigger] key_pairs_view(keys@)[j] == gv.metas[cancels@[j] as int].key(),
            decreases cancels.len() - i,
        {
            let v = cancels[i];
            let ghost before = keys@;
            keys.push((metas[v].name.clone(), metas[v].version.clone()));
            proof {
                assert(key_pairs_view(keys@) == key_pairs_view(before).push(gv.metas[v as int].key()));
            }
            i = i + 1;
        }
        proof {
            assert forall|j: int| 0 <= j < keys@.len() implies exists|v: int|
                0 <= v < s.len() && became_stopping(s, t, v) && (#[trigger] key_pairs_view(keys@)[j])
                    == gv.metas[v].key() by {
                let v = cancels@[j] as int;
                assert(became_stopping(s, t, v));
            }
            if res is Ok {
                assert forall|v: int| 0 <= v < s.len() && #[trigger] became_stopping(s, t, v) implies key_pairs_view(
                    keys@,
                ).contains(gv.metas[v].key()) by {
                    let j = choose|j: int| 0 <= j < cancels@.len() && cancels@[j] == v;
                    assert(key_pairs_view(keys@)[j] == gv.metas[v].key());
                }
            }
        }
        (keys, res)
    }

    /// A runner reports that its service started (`from_starting`) or
    /// stopped: a starting service becomes running, a stopping one stopped,
    /// and any other state ignores the report.
    fn advance(&mut self, service_key: &(String, String), from_starting: bool)
        requires
            old(self).wf(),
        ensures
            final(self).wf(),
            final(self).groups() == old(self).groups(),
            final(self).dlq() == old(self).dlq(),
            steps_allowed(old(self).states(), final(self).states()),
            final(self).states() == advanced(
                old(self).states(),
                locate(old(self).groups(), (service_key.0@, service_key.1@)),
                from_starting,
            ),
    {
        proof {
            self.lemma_wf();
        }
        if let Some((g, k)) = self.locate_key(&service_key.0, &service_key.1) {
            proof {
                assert(group_view_wf(self.groups()[g as int]));
                assert(self.states()[g as int] == self.service_states@[g as int]@);
            }
            let ghost before = self.states();
            let is_starting = match &self.service_states[g][k] {
                ServiceState::Starting => true,
                _ => false,
            };
            let is_stopping = match &self.service_states[g][k] {
                ServiceState::Stopping => true,
                _ => false,
            };
            if from_starting && is_starting {
                self.write_state(g, k, ServiceState::Running);
                proof {
                    lemma_steps_update(before, g as int, k as int, ServiceState::Running);
                }
                return;
            } else if !from_starting && is_stopping {
                self.write_state(g, k, ServiceState::Stopped);
                proof {
                    lemma_steps_update(before, g as int, k as int, ServiceState::Stopped);
                }
                return;
            }
        }
        proof {
            lemma_steps_refl(self.states());
        }
    }

    /// Applies a runner's event: a started service that was `Starting`
    /// becomes `Running`, a stopped one that was `Stopping` becomes `Stopped`
    /// (other states ignore these), and a crashed one becomes `Failed` with
    /// the reason whatever its state. For a crash, the keys of the services
    /// that depend on the crashed one are returned: the caller stops each.
    pub fn handle_event(&mut self, event: ServiceManagerEvent) -> (r: Vec<(String, String)>)
        requires
            old(self).wf(),
        ensures
            final(self).wf(),
            final(self).groups() == old(self).groups(),
            final(self).dlq() == old(self).dlq(),
            steps_allowed(old(self).states(), final(self).states()),
            match event {
                ServiceManagerEvent::ServiceStarted { service_key } => r@.len() == 0 && final(self).states()
                    == advanced(
                    old(self).states(),
                    locate(old(self).groups(), (service_key.0@, service_key.1@)),
                    true,
                ),
                ServiceManagerEvent::ServiceStopped { service_key } => r@.len() == 0 && final(self).states()
                    == advanced(
                    old(self).states(),
                    locate(old(self).groups(), (service_key.0@, service_key.1@)),
                    false,
                ),
                ServiceManagerEvent::ServiceCrashed { service_key, reason } => match locate(
                    old(self).groups(),
                    (service_key.0@, service_key.1@),
                ) {
                    Some((g, k)) => final(self).states() == old(self).states().update(
                        g,
                        old(self).states()[g].update(k, ServiceState::Failed(reason)),
                    ) && forall|key: KeyView|
                        #![trigger key_pairs_view(r@).contains(key)]
                        key_pairs_view(r@).contains(key) <==> exists|e: int|
                            0 <= e < old(self).groups()[g].edges.len()
                                && #[trigger] old(self).groups()[g].edges[e].0 == k
                                && old(self).groups()[g].metas[old(self).groups()[g].edges[e].1 as int].key()
                                == key,
                    None => r@.len() == 0 && final(self).states() == old(self).states(),
                },
            },
    {
        proof {
            self.lemma_wf();
        }
        match &event {
            ServiceManagerEvent::ServiceStarted { service_key } => {
                self.advance(service_key, true);
                let r: Vec<(String, String)> = Vec::new();
                proof {
                    assert(r@.len() == 0);
                    assert(self.states() == advanced(
                        old(self).states(),
                        locate(old(self).groups(), (service_key.0@, service_key.1@)),
                        true,
                    ));
                }
                r
            },
            ServiceManagerEvent::ServiceStopped { service_key } => {
                self.advance(service_key, false);
                let r: Vec<(String, String)> = Vec::new();
                proof {
                    assert(r@.len() == 0);
                    assert(self.states() == advanced(
                        old(self).states(),
                        locate(old(self).groups(), (service_key.0@, service_key.1@)),
                        false,
                    ));
                }
                r
            },
            ServiceManagerEvent::ServiceCrashed { service_key, reason } => self.on_crash(service_key, reason),
        }
    }

    /// A runner reports a crash: the service becomes `Failed` with the
    /// reason, whatever its state, and the keys of its dependents are
    /// returned for the caller to stop.
    fn on_crash(&mut self, service_key: &(String, String), reason: &String) -> (r: Vec<(String, String)>)
        requires
            old(self).wf(),
        ensures
            final(self).wf(),
            final(self).groups() == old(self).groups(),
            final(self).dlq() == old(self).dlq(),
            steps_allowed(old(self).states(), final(self).states()),
            locate(old(self).groups(), (service_key.0@, service_key.1@)) is None ==> r@.len() == 0
                && final(self).states() == old(self).states(),
            locate(old(self).groups(), (service_key.0@, service_key.1@)) is Some ==> crashed_states(
                old(self).states(),
                locate(old(self).groups(), (service_key.0@, service_key.1@)).unwrap(),
                *reason,
            ) == final(self).states(),
            locate(old(self).groups(), (service_key.0@, service_key.1@)) is Some ==> dependents_listed(
                old(self).groups(),
                locate(old(self).groups(), (service_key.0@, service_key.1@)).unwrap(),
                key_pairs_view(r@),
            ),
    {
        proof {
            self.lemma_wf();
        }
        match self.locate_key(&service_key.0, &service_key.1) {
            Some((g, k)) => {
                let ghost before = self.states();
                let ghost gv = self.groups()[g as int];
                proof {
                    assert(group_view_wf(gv));
                }
                self.write_state(g, k, ServiceState::Failed(reason.clone()));
                proof {
                    lemma_steps_update(before, g as int, k as int, ServiceState::Failed(*reason));
                    assert(self.groups()[g as int] == self.service_groups@[g as int]@);
                    assert(self.service_groups@[g as int].wf());
                }
                let group = &self.service_groups[g];
                let outs = graph_neighbors(&group.graph, k, true);
                let mut ret: Vec<(String, String)> = Vec::new();
                let mut i: usize = 0;
                while i < outs.len()
                    invariant
                        i <= outs@.len(),
                        gv == group@,
                        group_view_wf(gv),
                        k < gv.metas.len(),
                        forall|w: usize|
                            #![trigger outs@.contains(w)]
                            outs@.contains(w) <==> gv.edges.contains((k, w)),
                        key_pairs_view(ret@).len() == i,
                        forall|j: int|
                            0 <= j < i ==> #[trigger] key_pairs_view(ret@)[j] == gv.metas[outs@[j] as int].key(),
                    decreases outs.len() - i,
                {
                    let w = outs[i];
                    proof {
                        assert(outs@.contains(w));
                        let e = choose|e: int| 0 <= e < gv.edges.len() && gv.edges[e] == (k, w);
                        assert(gv.edges[e].0 < gv.metas.len());
                    }
                    let ghost prev = ret@;
                    ret.push((group.metas[w].name.clone(), group.metas[w].version.clone()));
                    proof {
                        assert(key_pairs_view(ret@) == key_pairs_view(prev).push(gv.metas[w as int].key()));
                    }
                    i = i + 1;
                }
                proof {
                    assert forall|key: KeyView| key_pairs_view(ret@).contains(key) <==> exists|e: int|
                        0 <= e < gv.edges.len() && #[trigger] gv.edges[e].0 == k
                            && gv.metas[gv.edges[e].1 as int].key() == key by {
                        if key_pairs_view(ret@).contains(key) {
                            let j = choose|j: int| 0 <= j < key_pairs_view(ret@).len() && key_pairs_view(ret@)[j] == key;
                            let w = outs@[j];
                            assert(outs@.contains(w));
                            let e = choose|e: int| 0 <= e < gv.edges.len() && gv.edges[e] == (k, w);
                            assert(gv.edges[e].0 == k);
                        }
                        if exists|e: int|
                            0 <= e < gv.edges.len() && #[trigger] gv.edges[e].0 == k
                                && gv.metas[gv.edges[e].1 as int].key() == key {
                            let e = choose|e: int|
                                0 <= e < gv.edges.len() && #[trigger] gv.edges[e].0 == k
                                    && gv.metas[gv.edges[e].1 as int].key() == key;
                            let w = gv.edges[e].1;
                            assert(gv.edges[e] == (k, w));
                            assert(gv.edges.contains((k, w)));
                            assert(outs@.contains(w));
                            let j = choose|j: int| 0 <= j < outs@.len() && outs@[j] == w;
                            assert(key_pairs_view(ret@)[j] == key);
                        }
                    }
                }
                proof {
                    assert(gv == old(self).groups()[g as int]);
                    assert(locate(old(self).groups(), (service_key.0@, service_key.1@)) == Some((g as int, k as int)));
                    assert forall|key: KeyView| key_pairs_view(ret@).contains(key) <==> exists|e: int|
                        0 <= e < old(self).groups()[g as int].edges.len()
                            && #[trigger] old(self).groups()[g as int].edges[e].0 == k
                            && old(self).groups()[g as int].metas[old(self).groups()[g as int].edges[e].1 as int].key()
                            == key by {
                        if key_pairs_view(ret@).contains(key) {
                            let e = choose|e: int|
                                0 <= e < gv.edges.len() && #[trigger] gv.edges[e].0 == k
                                    && gv.metas[gv.edges[e].1 as int].key() == key;
                        }
                    }
                }
                ret
            },
            None => {
                proof {
                    lemma_steps_refl(self.states());
                }
                Vec::new()
            },
        }
    }

    /// The services of group `group_idx` in an order that puts every service
    /// after all of its dependencies.
    pub fn launch_order(&self, group_idx: usize) -> (r: Result<Vec<ServiceMeta>, ManagerError>)
        requires
            self.wf(),
        ensures
            group_idx >= self.groups().len() ==> r == Err::<Vec<ServiceMeta>, ManagerError>(
                ManagerError::GroupOutOfBounds,
            ),
            group_idx < self.groups().len() ==> (r matches Ok(ms) && exists|order: Seq<usize>|
                #[trigger] is_topo_order(
                    self.groups()[group_idx as int].metas.len(),
                    self.groups()[group_idx as int].edges,
                    order,
                ) && metas_view(ms@) == order.map_values(
                    |i: usize| self.groups()[group_idx as int].metas[i as int],
                )),
    {
        if group_idx >= self.service_groups.len() {
            return Err(ManagerError::GroupOutOfBounds);
        }
        let group = &self.service_groups[group_idx];
        let ghost gv = group@;
        proof {
            assert(self.service_groups@[group_idx as int].wf());
            assert(self.groups()[group_idx as int] == gv);
        }
        let sorted = match graph_toposort(&group.graph) {
            Some(order) => order,
            None => {
                return Err(ManagerError::Cyclic);
            },
        };
        let ghost ord = sorted@;
        let mut ret: Vec<ServiceMeta> = Vec::new();
        let mut i: usize = 0;
        while i < sorted.len()
            invariant
                i <= sorted@.len(),
                group.wf(),
                gv == group@,
                ord == sorted@,
                is_topo_order(gv.metas.len(), gv.edges, ord),
                metas_view(ret@) == ord.take(i as int).map_values(|j: usize| gv.metas[j as int]),
            decreases sorted.len() - i,
        {
            let v = sorted[i];
            let ghost before = ret@;
            ret.push(group.metas[v].duplicate());
            proof {
                assert(ord.take(i as int + 1) == ord.take(i as int).push(v));
                assert(metas_view(ret@) == metas_view(before).push(gv.metas[v as int]));
            }
            i = i + 1;
        }
        proof {
            assert(ord.take(ord.len() as int) == ord);
        }
        Ok(ret)
    }
}


proof fn lemma_meta_pos_unique(ms: Seq<MetaView>, k: KeyView, v: int, i: int)
    requires
        0 <= i <= v < ms.len(),
        ms[v].key() == k,
        forall|j: int| 0 <= j < ms.len() && j != v ==> #[trigger] ms[j].key() != k,
    ensures
        meta_pos_from(ms, k, i) == v,
    decreases v - i,
{
    if i < v {
        lemma_meta_pos_unique(ms, k, v, i + 1);
    }
}

proof fn lemma_meta_pos_absent(ms: Seq<MetaView>, k: KeyView, i: int)
    requires
        0 <= i <= ms.len(),
        forall|j: int| 0 <= j < ms.len() ==> #[trigger] ms[j].key() != k,
    ensures
        meta_pos_from(ms, k, i) == ms.len(),
    decreases ms.len() - i,
{
    if i < ms.len() {
        lemma_meta_pos_absent(ms, k, i + 1);
    }
}

/// With unique keys, looking up the key of a grouped service finds that service.
pub proof fn lemma_locate_own_key(gs: Seq<GroupView>, g: int, v: int)
    requires
        group_keys_unique(gs),
        0 <= g < gs.len(),
        0 <= v < gs[g].metas.len(),
    ensures
        locate(gs, gs[g].metas[v].key()) == Some((g, v)),
{
    let k = gs[g].metas[v].key();
    lemma_locate_from_own(gs, g, v, 0);
}

proof fn lemma_locate_from_own(gs: Seq<GroupView>, g: int, v: int, h: int)
    requires
        group_keys_unique(gs),
        0 <= h <= g < gs.len(),
        0 <= v < gs[g].metas.len(),
    ensures
        locate_from(gs, gs[g].metas[v].key(), h) == Some((g, v)),
    decreases g - h,
{
    let k = gs[g].metas[v].key();
    if h < g {
        assert forall|j: int| 0 <= j < gs[h].metas.len() implies #[trigger] gs[h].metas[j].key() != k by {
            if gs[h].metas[j].key() == k {
                assert(gs[h].metas[j].key() == gs[g].metas[v].key());
            }
        }
        lemma_meta_pos_absent(gs[h].metas, k, 0);
        lemma_locate_from_own(gs, g, v, h + 1);
    } else {
        assert forall|j: int| 0 <= j < gs[g].metas.len() && j != v implies #[trigger] gs[g].metas[j].key() != k by {
            if gs[g].metas[j].key() == k {
                assert(gs[g].metas[j].key() == gs[g].metas[v].key());
            }
        }
        lemma_meta_pos_unique(gs[g].metas, k, v, 0);
    }
}

/// A service left `Stopping` by a successful stop becomes `Stopped` once its
/// runner reports the stop: with the contract of `stop_service`, every
/// service reached from the stopped one through running dependents ends
/// `Stopped` when all reports are in (or `Failed`, when its runner reports a crash).
pub proof fn lemma_reported_stop_completes(m: &ServiceManager, g: int, v: int)
    requires
        m.wf(),
        0 <= g < m.groups().len(),
        0 <= v < m.groups()[g].metas.len(),
        m.states()[g][v] is Stopping,
    ensures
        advanced(m.states(), locate(m.groups(), m.groups()[g].metas[v].key()), false)[g][v] is Stopped,
{
    m.lemma_wf();
    lemma_locate_own_key(m.groups(), g, v);
    assert(group_view_wf(m.groups()[g]));
}


/// The states after the service at `loc` crashed with `reason`.
pub open spec fn crashed_states(
    st: Seq<Seq<ServiceState>>,
    loc: (int, int),
    reason: String,
) -> Seq<Seq<ServiceState>> {
    st.update(loc.0, st[loc.0].update(loc.1, ServiceState::Failed(reason)))
}

/// `keys` holds exactly the keys of the dependents of the service at `loc`.
pub open spec fn dependents_listed(gs: Seq<GroupView>, loc: (int, int), keys: Seq<KeyView>) -> bool {
    forall|key: KeyView|
        #![trigger keys.contains(key)]
        keys.contains(key) <==> exists|e: int|
            0 <= e < gs[loc.0].edges.len() && #[trigger] gs[loc.0].edges[e].0 as int == loc.1
                && gs[loc.0].metas[gs[loc.0].edges[e].1 as int].key() == key
}

/// Some service that became stopping has a dependent that was starting or stopping.
pub open spec fn hits_mid(gv: GroupView, s: Seq<ServiceState>, t: Seq<ServiceState>) -> bool {
    exists|e: int|
        0 <= e < gv.edges.len() && became_stopping(s, t, #[trigger] gv.edges[e].0 as int) && mid_state(
            s[gv.edges[e].1 as int],
        )
}

/// Two different edges lead from services that became stopping into one
/// service that was running.
pub open spec fn hits_twice(gv: GroupView, s: Seq<ServiceState>, t: Seq<ServiceState>) -> bool {
    exists|e1: int, e2: int|
        0 <= e1 < gv.edges.len() && 0 <= e2 < gv.edges.len() && e1 != e2 && became_stopping(
            s,
            t,
            #[trigger] gv.edges[e1].0 as int,
        ) && became_stopping(s, t, #[trigger] gv.edges[e2].0 as int) && gv.edges[e1].1 == gv.edges[e2].1
            && s[gv.edges[e1].1 as int] is Running
}

/// Every service other than `u` that became stopping was entered by an edge
/// from a service that became stopping.
pub open spec fn entered(gv: GroupView, s: Seq<ServiceState>, t: Seq<ServiceState>, u: int) -> bool {
    forall|x: int|
        0 <= x < s.len() && x != u && #[trigger] became_stopping(s, t, x) ==> exists|e: int|
            0 <= e < gv.edges.len() && gv.edges[e].1 == x && became_stopping(s, t, gv.edges[e].0 as int)
}

/// A stop cascade can run to its end from `k`: no service it reaches has a
/// dependent that is starting or stopping, and no running service is the
/// target of two edges from reached services (the cascade would meet it twice).
pub open spec fn cascade_clear(gv: GroupView, s: Seq<ServiceState>, k: int) -> bool {
    &&& forall|e: int|
        0 <= e < gv.edges.len() && #[trigger] reaches_running(gv, s, k, gv.edges[e].0 as int) ==> !mid_state(
            s[gv.edges[e].1 as int],
        )
    &&& forall|e1: int, e2: int|
        0 <= e1 < gv.edges.len() && 0 <= e2 < gv.edges.len() && e1 != e2 && #[trigger] reaches_running(
            gv,
            s,
            k,
            gv.edges[e1].0 as int,
        ) && #[trigger] reaches_running(gv, s, k, gv.edges[e2].0 as int) && gv.edges[e1].1
            == gv.edges[e2].1 ==> !(s[gv.edges[e1].1 as int] is Running)
}

/// Edge `e` has been followed by the cascade from `u`: it is one of the last
/// `j` edges of `ids` (the edges leaving `u`), or it leaves another service
/// that became stopping.
pub open spec fn followed(
    gv: GroupView,
    s: Seq<ServiceState>,
    t: Seq<ServiceState>,
    u: int,
    ids: Seq<int>,
    j: int,
    e: int,
) -> bool {
    &&& 0 <= e < gv.edges.len()
    &&& (ids.subrange(ids.len() - j, ids.len() as int).contains(e) || (gv.edges[e].0 as int != u
        && became_stopping(s, t, gv.edges[e].0 as int)))
}

/// What the cascade from `u` has established after following `j` of its own edges.
pub open spec fn cascade_inv(
    gv: GroupView,
    s: Seq<ServiceState>,
    t: Seq<ServiceState>,
    u: int,
    ids: Seq<int>,
    j: int,
) -> bool {
    &&& forall|x: int|
        0 <= x < s.len() && x != u && #[trigger] became_stopping(s, t, x) ==> exists|e: int|
            followed(gv, s, t, u, ids, j, e) && gv.edges[e].1 == x
    &&& forall|e: int|
        #[trigger] followed(gv, s, t, u, ids, j, e) ==> !mid_state(s[gv.edges[e].1 as int])
            && (s[gv.edges[e].1 as int] is Running ==> t[gv.edges[e].1 as int] is Stopping)
    &&& forall|e1: int, e2: int|
        #[trigger] followed(gv, s, t, u, ids, j, e1) && #[trigger] followed(gv, s, t, u, ids, j, e2)
            && e1 != e2 && gv.edges[e1].1 == gv.edges[e2].1 ==> !(s[gv.edges[e1].1 as int] is Running)
}

/// A walk that an edge leads back to its start closes a cycle.
proof fn lemma_walk_back(edges: Seq<(usize, usize)>, p: Seq<usize>)
    requires
        p.len() >= 1,
        is_walk(edges, p),
        edges.contains((p[p.len() - 1], p[0])),
    ensures
        has_cycle(edges),
{
    let q = p.push(p[0]);
    assert forall|k: int| 0 <= k < q.len() - 1 implies #[trigger] edges.contains((q[k], q[k + 1])) by {
        if k < p.len() - 1 {
            assert(q[k] == p[k] && q[k + 1] == p[k + 1]);
            assert(edges.contains((p[k], p[k + 1])));
        }
    }
    assert(is_walk(edges, q));
}

/// In an acyclic group, no service reached from `w` has an edge into `w`,
/// nor into a service `u` with an edge to `w`.
proof fn lemma_no_back_edge(gv: GroupView, st: Seq<ServiceState>, u: int, w: int, x: int, e: int)
    requires
        !has_cycle(gv.edges),
        0 <= u,
        0 <= w,
        gv.edges.contains((u as usize, w as usize)),
        u as usize == u,
        w as usize == w,
        reaches_running(gv, st, w, x),
        0 <= e < gv.edges.len(),
        gv.edges[e].0 as int == x,
    ensures
        gv.edges[e].1 as int != w,
        gv.edges[e].1 as int != u,
{
    let p = choose|p: Seq<usize>| #[trigger] running_walk(gv, st, p) && p[0] == w && p[p.len() - 1] == x;
    if gv.edges[e].1 as int == w {
        assert(gv.edges.contains((p[p.len() - 1], p[0])));
        lemma_walk_back(gv.edges, p);
    }
    if gv.edges[e].1 as int == u {
        let q = seq![u as usize] + p;
        assert forall|k: int| 0 <= k < q.len() - 1 implies #[trigger] gv.edges.contains((q[k], q[k + 1])) by {
            if k > 0 {
                let j = k - 1;
                assert(q[k] == p[j] && q[k + 1] == p[j + 1]);
                assert(gv.edges.contains((p[j], p[j + 1])));
            }
        }
        assert(q[q.len() - 1] == p[p.len() - 1]);
        assert(gv.edges.contains((q[q.len() - 1], q[0])));
        lemma_walk_back(gv.edges, q);
    }
}


proof fn lemma_followed_window(ids: Seq<int>, j: int, e: int)
    requires
        0 <= j < ids.len(),
    ensures
        ids.subrange(ids.len() - (j + 1), ids.len() as int).contains(e) <==> (ids.subrange(
            ids.len() - j,
            ids.len() as int,
        ).contains(e) || e == ids[ids.len() - 1 - j]),
{
    let n = ids.len() as int;
    let a = ids.subrange(n - (j + 1), n);
    let b = ids.subrange(n - j, n);
    assert(a == seq![ids[n - 1 - j]] + b);
    if a.contains(e) {
        let q = choose|q: int| 0 <= q < a.len() && #[trigger] a[q] == e;
        if q > 0 {
            assert(b[q - 1] == e);
        }
    }
    if b.contains(e) {
        let q = choose|q: int| 0 <= q < b.len() && #[trigger] b[q] == e;
        assert(a[q + 1] == e);
    }
    if e == ids[n - 1 - j] {
        assert(a[0] == e);
    }
}

/// The shared frame of a step of the cascade from `u` over its `j`-th own edge.
pub open spec fn step_frame(
    gv: GroupView,
    s0: Seq<ServiceState>,
    si: Seq<ServiceState>,
    sf: Seq<ServiceState>,
    u: int,
    ids: Seq<int>,
    j: int,
) -> bool {
    &&& group_view_wf(gv)
    &&& s0.len() == gv.metas.len()
    &&& 0 <= u < s0.len()
    &&& u <= usize::MAX
    &&& s0[u] is Running
    &&& si[u] is Stopping
    &&& stop_frame(s0, si)
    &&& stop_frame(si, sf)
    &&& ids == out_edge_ids(gv.edges, u as usize)
    &&& 0 <= j < ids.len()
    &&& cascade_inv(gv, s0, si, u, ids, j)
    &&& forall|v: int|
        0 <= v < si.len() && #[trigger] became_stopping(si, sf, v) ==> reaches_running(
            gv,
            si,
            gv.edges[ids[ids.len() - 1 - j]].1 as int,
            v,
        )
}

proof fn lemma_step_facts(
    gv: GroupView,
    s0: Seq<ServiceState>,
    si: Seq<ServiceState>,
    sf: Seq<ServiceState>,
    u: int,
    ids: Seq<int>,
    j: int,
)
    requires
        step_frame(gv, s0, si, sf, u, ids, j),
    ensures
        ({
            let ej = ids[ids.len() - 1 - j];
            &&& 0 <= ej < gv.edges.len()
            &&& gv.edges[ej].0 as int == u
            &&& (gv.edges[ej].1 as int) < s0.len()
            &&& gv.edges[ej].1 as int != u
            &&& !followed(gv, s0, si, u, ids, j, ej)
        }),
        forall|e: int|
            #[trigger] followed(gv, s0, si, u, ids, j, e) ==> gv.edges[e].0 as int == u
                || became_stopping(s0, si, gv.edges[e].0 as int),
        forall|x: int|
            0 <= x < s0.len() ==> (#[trigger] became_stopping(s0, sf, x) <==> (became_stopping(s0, si, x)
                || became_stopping(si, sf, x))),
        forall|e: int|
            #[trigger] followed(gv, s0, sf, u, ids, j + 1, e) <==> (followed(gv, s0, si, u, ids, j, e)
                || e == ids[ids.len() - 1 - j] || (0 <= e < gv.edges.len() && gv.edges[e].0 as int != u
                && became_stopping(si, sf, gv.edges[e].0 as int))),
        forall|e: int|
            0 <= e < gv.edges.len() && gv.edges[e].0 as int == u ==> ids.contains(e),
{
    lemma_out_edge_ids(gv.edges, u as usize);
    let n = ids.len() as int;
    let ej = ids[n - 1 - j];
    assert(0 <= out_edge_ids(gv.edges, u as usize)[n - 1 - j] < gv.edges.len());
    assert(gv.edges[ej].0 == u as usize);
    assert(gv.edges[ej].0 < gv.metas.len() && gv.edges[ej].1 < gv.metas.len());
    assert forall|e: int| #[trigger] followed(gv, s0, si, u, ids, j, e) implies gv.edges[e].0 as int == u
        || became_stopping(s0, si, gv.edges[e].0 as int) by {
        if ids.subrange(n - j, n).contains(e) {
            let q = choose|q: int| 0 <= q < j && #[trigger] ids.subrange(n - j, n)[q] == e;
            assert(ids[n - j + q] == e);
            assert(out_edge_ids(gv.edges, u as usize)[n - j + q] == e);
        }
    }
    if gv.edges[ej].1 as int == u {
        let p = seq![u as usize];
        assert(gv.edges.contains((p[0], p[0])));
        lemma_walk_back(gv.edges, p);
    }
    assert forall|x: int| 0 <= x < s0.len() implies (#[trigger] became_stopping(s0, sf, x) <==> (
    became_stopping(s0, si, x) || became_stopping(si, sf, x))) by {
        assert(si[x] == s0[x] || became_stopping(s0, si, x));
        assert(sf[x] == si[x] || became_stopping(si, sf, x));
    }
    if ids.subrange(n - j, n).contains(ej) {
        let q = choose|q: int| 0 <= q < j && #[trigger] ids.subrange(n - j, n)[q] == ej;
        assert(ids[n - j + q] == ej);
    }
    assert forall|e: int| #[trigger] followed(gv, s0, sf, u, ids, j + 1, e) <==> (followed(gv, s0, si, u, ids, j, e)
        || e == ids[n - 1 - j] || (0 <= e < gv.edges.len() && gv.edges[e].0 as int != u
        && became_stopping(si, sf, gv.edges[e].0 as int))) by {
        lemma_followed_window(ids, j, e);
        if 0 <= e < gv.edges.len() {
            let x = gv.edges[e].0 as int;
            assert(x < s0.len());
            assert(became_stopping(s0, sf, x) <==> (became_stopping(s0, si, x) || became_stopping(si, sf, x)));
        }
    }
    assert forall|e: int| 0 <= e < gv.edges.len() && gv.edges[e].0 as int == u implies ids.contains(e) by {
        assert(gv.edges[e].0 == u as usize);
    }
}

/// A step over an own edge whose cascade succeeded keeps the cascade invariant.
proof fn lemma_cascade_step(
    gv: GroupView,
    s0: Seq<ServiceState>,
    si: Seq<ServiceState>,
    sf: Seq<ServiceState>,
    u: int,
    ids: Seq<int>,
    j: int,
)
    requires
        step_frame(gv, s0, si, sf, u, ids, j),
        !mid_state(si[gv.edges[ids[ids.len() - 1 - j]].1 as int]),
        si[gv.edges[ids[ids.len() - 1 - j]].1 as int] is Running ==> sf[gv.edges[ids[ids.len() - 1
            - j]].1 as int] is Stopping,
        !hits_mid(gv, si, sf),
        !hits_twice(gv, si, sf),
        entered(gv, si, sf, gv.edges[ids[ids.len() - 1 - j]].1 as int),
        stop_closed(gv, si, sf),
    ensures
        cascade_inv(gv, s0, sf, u, ids, j + 1),
{
    lemma_step_facts(gv, s0, si, sf, u, ids, j);
    let n = ids.len() as int;
    let ej = ids[n - 1 - j];
    let w = gv.edges[ej].1 as int;
    assert forall|x: int|
        0 <= x < s0.len() && x != u && #[trigger] became_stopping(s0, sf, x) implies exists|e: int|
        followed(gv, s0, sf, u, ids, j + 1, e) && gv.edges[e].1 == x by {
        if became_stopping(s0, si, x) {
            let e = choose|e: int| followed(gv, s0, si, u, ids, j, e) && gv.edges[e].1 == x;
            assert(followed(gv, s0, sf, u, ids, j + 1, e));
        } else if x == w {
            assert(followed(gv, s0, sf, u, ids, j + 1, ej));
        } else {
            assert(became_stopping(si, sf, x));
            let e = choose|e: int|
                0 <= e < gv.edges.len() && gv.edges[e].1 == x && became_stopping(si, sf, gv.edges[e].0 as int);
            assert(gv.edges[e].0 < gv.metas.len());
            assert(followed(gv, s0, sf, u, ids, j + 1, e));
        }
    }
    assert forall|e: int| #[trigger] followed(gv, s0, sf, u, ids, j + 1, e) implies !mid_state(
        s0[gv.edges[e].1 as int],
    ) && (s0[gv.edges[e].1 as int] is Running ==> sf[gv.edges[e].1 as int] is Stopping) by {
        let z = gv.edges[e].1 as int;
        assert(gv.edges[e].0 < gv.metas.len() && gv.edges[e].1 < gv.metas.len());
        assert(si[z] == s0[z] || became_stopping(s0, si, z));
        assert(sf[z] == si[z] || became_stopping(si, sf, z));
        if followed(gv, s0, si, u, ids, j, e) {
        } else if e == ej {
        } else {
            assert(became_stopping(si, sf, gv.edges[e].0 as int));
            assert(!mid_state(si[z]));
        }
    }
    assert forall|e1: int, e2: int|
        #[trigger] followed(gv, s0, sf, u, ids, j + 1, e1) && #[trigger] followed(gv, s0, sf, u, ids, j + 1, e2)
            && e1 != e2 && gv.edges[e1].1 == gv.edges[e2].1 implies !(s0[gv.edges[e1].1 as int] is Running) by {
        let z = gv.edges[e1].1 as int;
        assert(gv.edges[e1].0 < gv.metas.len() && gv.edges[e1].1 < gv.metas.len());
        assert(gv.edges[e2].0 < gv.metas.len() && gv.edges[e2].1 < gv.metas.len());
        assert(si[z] == s0[z] || became_stopping(s0, si, z));
        let o1 = followed(gv, s0, si, u, ids, j, e1);
        let o2 = followed(gv, s0, si, u, ids, j, e2);
        let n1 = !o1 && e1 != ej;
        let n2 = !o2 && e2 != ej;
        if s0[z] is Running {
            if o1 && o2 {
            } else if (o1 && e2 == ej) || (o2 && e1 == ej) {
                assert(si[z] is Stopping);
            } else if o1 || o2 {
                assert(si[z] is Stopping);
                if n1 {
                    assert(became_stopping(si, sf, gv.edges[e1].0 as int));
                } else {
                    assert(became_stopping(si, sf, gv.edges[e2].0 as int));
                }
            } else if e1 == ej || e2 == ej {
                let e = if e1 == ej { e2 } else { e1 };
                let x = gv.edges[e].0 as int;
                assert(became_stopping(si, sf, x));
                assert(reaches_running(gv, si, w, x));
                assert(gv.edges.contains((u as usize, w as usize))) by {
                    assert(gv.edges[ej] == (u as usize, w as usize));
                }
                lemma_no_back_edge(gv, si, u, w, x, e);
            } else {
                assert(became_stopping(si, sf, gv.edges[e1].0 as int));
                assert(became_stopping(si, sf, gv.edges[e2].0 as int));
                if si[z] is Stopping {
                    assert(mid_state(si[z]));
                }
            }
        }
    }
}

/// A step over an own edge whose cascade failed leaves a reason for the failure.
proof fn lemma_cascade_err(
    gv: GroupView,
    s0: Seq<ServiceState>,
    si: Seq<ServiceState>,
    sf: Seq<ServiceState>,
    u: int,
    ids: Seq<int>,
    j: int,
)
    requires
        step_frame(gv, s0, si, sf, u, ids, j),
        mid_state(si[gv.edges[ids[ids.len() - 1 - j]].1 as int]) || (si[gv.edges[ids[ids.len() - 1
            - j]].1 as int] is Running && (hits_mid(gv, si, sf) || hits_twice(gv, si, sf))),
    ensures
        hits_mid(gv, s0, sf) || hits_twice(gv, s0, sf),
{
    lemma_step_facts(gv, s0, si, sf, u, ids, j);
    let n = ids.len() as int;
    let ej = ids[n - 1 - j];
    let w = gv.edges[ej].1 as int;
    assert(became_stopping(s0, sf, u)) by {
        assert(sf[u] == si[u] || became_stopping(si, sf, u));
    }
    assert(gv.edges.contains((u as usize, w as usize))) by {
        assert(gv.edges[ej] == (u as usize, w as usize));
    }
    if mid_state(si[w]) {
        assert(si[w] == s0[w] || became_stopping(s0, si, w));
        if mid_state(s0[w]) {
            assert(became_stopping(s0, sf, gv.edges[ej].0 as int));
        } else {
            let e2 = choose|e: int| followed(gv, s0, si, u, ids, j, e) && gv.edges[e].1 == w;
            assert(gv.edges[e2].0 < gv.metas.len());
            assert(became_stopping(s0, sf, gv.edges[e2].0 as int));
            assert(became_stopping(s0, sf, gv.edges[ej].0 as int));
            assert(e2 != ej);
        }
    } else if hits_mid(gv, si, sf) {
        let e = choose|e: int|
            0 <= e < gv.edges.len() && became_stopping(si, sf, #[trigger] gv.edges[e].0 as int)
                && mid_state(si[gv.edges[e].1 as int]);
        let x = gv.edges[e].0 as int;
        let z = gv.edges[e].1 as int;
        assert(gv.edges[e].0 < gv.metas.len() && gv.edges[e].1 < gv.metas.len());
        assert(became_stopping(s0, sf, x));
        assert(si[z] == s0[z] || became_stopping(s0, si, z));
        if !mid_state(s0[z]) {
            assert(reaches_running(gv, si, w, x));
            lemma_no_back_edge(gv, si, u, w, x, e);
            let e2 = choose|e2: int| followed(gv, s0, si, u, ids, j, e2) && gv.edges[e2].1 == z;
            assert(gv.edges[e2].0 < gv.metas.len());
            assert(became_stopping(s0, sf, gv.edges[e2].0 as int));
            assert(!followed(gv, s0, si, u, ids, j, e)) by {
                if ids.subrange(n - j, n).contains(e) {
                    let q = choose|q: int| 0 <= q < j && #[trigger] ids.subrange(n - j, n)[q] == e;
                    assert(ids[n - j + q] == e);
                }
            }
            assert(e != e2);
        }
    } else {
        let (e1, e2) = choose|e1: int, e2: int|
            0 <= e1 < gv.edges.len() && 0 <= e2 < gv.edges.len() && e1 != e2 && became_stopping(
                si,
                sf,
                #[trigger] gv.edges[e1].0 as int,
            ) && became_stopping(si, sf, #[trigger] gv.edges[e2].0 as int) && gv.edges[e1].1
                == gv.edges[e2].1 && si[gv.edges[e1].1 as int] is Running;
        assert(gv.edges[e1].0 < gv.metas.len() && gv.edges[e1].1 < gv.metas.len());
        assert(gv.edges[e2].0 < gv.metas.len());
        let z = gv.edges[e1].1 as int;
        assert(si[z] == s0[z] || became_stopping(s0, si, z));
        assert(became_stopping(s0, sf, gv.edges[e1].0 as int));
        assert(became_stopping(s0, sf, gv.edges[e2].0 as int));
    }
}

/// Once all own edges are followed, the cascade's record gives its outcome.
proof fn lemma_cascade_done(gv: GroupView, s0: Seq<ServiceState>, t: Seq<ServiceState>, u: int, ids: Seq<int>)
    requires
        group_view_wf(gv),
        s0.len() == gv.metas.len(),
        t.len() == s0.len(),
        0 <= u < s0.len(),
        u <= usize::MAX,
        s0[u] is Running,
        t[u] is Stopping,
        ids == out_edge_ids(gv.edges, u as usize),
        cascade_inv(gv, s0, t, u, ids, ids.len() as int),
    ensures
        entered(gv, s0, t, u),
        !hits_mid(gv, s0, t),
        !hits_twice(gv, s0, t),
{
    lemma_out_edge_ids(gv.edges, u as usize);
    let n = ids.len() as int;
    assert(ids.subrange(0, n) == ids);
    assert forall|e: int| 0 <= e < gv.edges.len() && became_stopping(s0, t, gv.edges[e].0 as int) implies
        #[trigger] followed(gv, s0, t, u, ids, n, e) by {
        if gv.edges[e].0 as int == u {
            assert(gv.edges[e].0 == u as usize);
            let i = choose|i: int| 0 <= i < ids.len() && ids[i] == e;
            assert(ids.contains(e));
        }
    }
    assert forall|x: int|
        0 <= x < s0.len() && x != u && #[trigger] became_stopping(s0, t, x) implies exists|e: int|
        0 <= e < gv.edges.len() && gv.edges[e].1 == x && became_stopping(s0, t, gv.edges[e].0 as int) by {
        let e = choose|e: int| followed(gv, s0, t, u, ids, n, e) && gv.edges[e].1 == x;
        if !(gv.edges[e].0 as int != u && became_stopping(s0, t, gv.edges[e].0 as int)) {
            let q = choose|q: int| 0 <= q < ids.subrange(0, n).len() && #[trigger] ids.subrange(0, n)[q] == e;
            assert(ids[q] == e);
            assert(out_edge_ids(gv.edges, u as usize)[q] == e);
            assert(gv.edges[e].0 == u as usize);
        }
    }
    if hits_mid(gv, s0, t) {
        let e = choose|e: int|
            0 <= e < gv.edges.len() && became_stopping(s0, t, #[trigger] gv.edges[e].0 as int) && mid_state(
                s0[gv.edges[e].1 as int],
            );
        assert(followed(gv, s0, t, u, ids, n, e));
    }
    if hits_twice(gv, s0, t) {
        let (e1, e2) = choose|e1: int, e2: int|
            0 <= e1 < gv.edges.len() && 0 <= e2 < gv.edges.len() && e1 != e2 && became_stopping(
                s0,
                t,
                #[trigger] gv.edges[e1].0 as int,
            ) && became_stopping(s0, t, #[trigger] gv.edges[e2].0 as int) && gv.edges[e1].1
                == gv.edges[e2].1 && s0[gv.edges[e1].1 as int] is Running;
        assert(followed(gv, s0, t, u, ids, n, e1));
        assert(followed(gv, s0, t, u, ids, n, e2));
    }
}


/// The outcome of a cascade from a running service, as the record of what it
/// stopped gives it, is success exactly when the cascade is clear.
proof fn lemma_clear_iff(gv: GroupView, s: Seq<ServiceState>, t: Seq<ServiceState>, k: int, ok: bool)
    requires
        group_view_wf(gv),
        s.len() == gv.metas.len(),
        t.len() == s.len(),
        0 <= k < s.len(),
        s[k] is Running,
        forall|v: int| 0 <= v < s.len() && #[trigger] became_stopping(s, t, v) ==> reaches_running(gv, s, k, v),
        ok ==> stop_closed(gv, s, t),
        ok ==> t[k] is Stopping,
        ok ==> !hits_mid(gv, s, t) && !hits_twice(gv, s, t),
        !ok ==> hits_mid(gv, s, t) || hits_twice(gv, s, t),
    ensures
        ok <==> cascade_clear(gv, s, k),
{
    if ok {
        assert forall|v: int| 0 <= v < s.len() && #[trigger] reaches_running(gv, s, k, v) implies became_stopping(
            s,
            t,
            v,
        ) by {
            let p = choose|p: Seq<usize>| #[trigger] running_walk(gv, s, p) && p[0] == k && p[p.len() - 1] == v;
            assert(s[p[0] as int] is Running);
            lemma_closed_reach(gv, s, t, p);
            assert(s[p[p.len() - 1] as int] is Running);
        }
        assert forall|e: int|
            0 <= e < gv.edges.len() && #[trigger] reaches_running(gv, s, k, gv.edges[e].0 as int) implies !mid_state(
            s[gv.edges[e].1 as int],
        ) by {
            assert(gv.edges[e].0 < gv.metas.len());
            assert(became_stopping(s, t, gv.edges[e].0 as int));
        }
        assert forall|e1: int, e2: int|
            0 <= e1 < gv.edges.len() && 0 <= e2 < gv.edges.len() && e1 != e2 && #[trigger] reaches_running(
                gv,
                s,
                k,
                gv.edges[e1].0 as int,
            ) && #[trigger] reaches_running(gv, s, k, gv.edges[e2].0 as int) && gv.edges[e1].1
                == gv.edges[e2].1 implies !(s[gv.edges[e1].1 as int] is Running) by {
            assert(gv.edges[e1].0 < gv.metas.len());
            assert(gv.edges[e2].0 < gv.metas.len());
            assert(became_stopping(s, t, gv.edges[e1].0 as int));
            assert(became_stopping(s, t, gv.edges[e2].0 as int));
        }
    } else {
        if hits_mid(gv, s, t) {
            let e = choose|e: int|
                0 <= e < gv.edges.len() && became_stopping(s, t, #[trigger] gv.edges[e].0 as int) && mid_state(
                    s[gv.edges[e].1 as int],
                );
            assert(gv.edges[e].0 < gv.metas.len());
            assert(reaches_running(gv, s, k, gv.edges[e].0 as int));
        } else {
            let (e1, e2) = choose|e1: int, e2: int|
                0 <= e1 < gv.edges.len() && 0 <= e2 < gv.edges.len() && e1 != e2 && became_stopping(
                    s,
                    t,
                    #[trigger] gv.edges[e1].0 as int,
                ) && became_stopping(s, t, #[trigger] gv.edges[e2].0 as int) && gv.edges[e1].1
                    == gv.edges[e2].1 && s[gv.edges[e1].1 as int] is Running;
            assert(gv.edges[e1].0 < gv.metas.len());
            assert(gv.edges[e2].0 < gv.metas.len());
            assert(reaches_running(gv, s, k, gv.edges[e1].0 as int));
            assert(reaches_running(gv, s, k, gv.edges[e2].0 as int));
        }
    }
}

} // verus!
