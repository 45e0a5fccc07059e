//! Service definitions as the store keeps them, and turning them back into
//! configs to rebuild the manager.
use vstd::prelude::*;
use vstd::multiset::Multiset;
use vstd::seq_lib::{to_multiset_build, to_multiset_insert};
use crate::builder::{built_dlq, built_groups, configs_view};
use crate::manager::ServiceManager;
use crate::model::{
    copy_opt_string, copy_string_vec, opt_view, pairs_view, strs_view, ConfigView, KeyView, MetaView,
    ServiceConfig,
};

verus! {

/// A service definition loaded from the store.
#[derive(Debug)]
pub struct StoredServiceConfig {
    /// Primary key of the service in the store.
    pub service_id: u32,
    pub name: String,
    pub version: String,
    pub program: String,
    pub description: Option<String>,
    pub workspace: Option<String>,
    /// Startup arguments, in argument order.
    pub args: Vec<String>,
    /// Store ids of the services this one depends on.
    pub dependency_ids: Vec<u32>,
    /// The group this service was last recorded in.
    pub group_id: u32,
}

/// One row of the per-service configuration: program, description, workspace.
#[derive(Debug)]
pub struct ServiceConfigRow {
    pub program: String,
    pub description: Option<String>,
    pub workspace: Option<String>,
}

pub struct StoredView {
    pub service_id: u32,
    pub name: Seq<char>,
    pub version: Seq<char>,
    pub program: Seq<char>,
    pub workspace: Option<Seq<char>>,
    pub args: Seq<Seq<char>>,
    pub dependency_ids: Seq<u32>,
}

impl View for StoredServiceConfig {
    type V = StoredView;

    open spec fn view(&self) -> StoredView {
        StoredView {
            service_id: self.service_id,
            name: self.name@,
            version: self.version@,
            program: self.program@,
            workspace: opt_view(self.workspace),
            args: strs_view(self.args@),
            dependency_ids: self.dependency_ids@,
        }
    }
}

pub open spec fn stored_view(s: Seq<StoredServiceConfig>) -> Seq<StoredView> {
    s.map_values(|c: StoredServiceConfig| c@)
}

/// The first position at or after `i` of a stored service with id `id`, or `cs.len()`.
pub open spec fn id_pos_from(cs: Seq<StoredView>, id: u32, i: int) -> int
    decreases cs.len() - i,
{
    if i < 0 || i >= cs.len() {
        cs.len() as int
    } else if cs[i].service_id == id {
        i
    } else {
        id_pos_from(cs, id, i + 1)
    }
}

/// The keys of the services with ids `ids`, in order; ids of no stored
/// service are left out.
pub open spec fn resolved_deps(cs: Seq<StoredView>, ids: Seq<u32>) -> Seq<KeyView>
    decreases ids.len(),
{
    if ids.len() == 0 {
        Seq::empty()
    } else {
        let rest = resolved_deps(cs, ids.drop_last());
        let p = id_pos_from(cs, ids.last(), 0);
        if p < cs.len() {
            rest.push((cs[p].name, cs[p].version))
        } else {
            rest
        }
    }
}

/// The config that stored service `c` stands for among `cs`.
pub open spec fn stored_to_config(cs: Seq<StoredView>, c: StoredView) -> ConfigView {
    ConfigView {
        name: c.name,
        version: c.version,
        program: c.program,
        args: c.args,
        deps: resolved_deps(cs, c.dependency_ids),
        workspace: c.workspace,
    }
}

/// The position of the first stored service with id `id`, or `configs.len()`.
fn find_id(configs: &Vec<StoredServiceConfig>, id: u32) -> (r: usize)
    ensures
        r == id_pos_from(stored_view(configs@), id, 0),
        r <= configs@.len(),
{
    let ghost cs = stored_view(configs@);
    let mut i: usize = 0;
    while i < configs.len()
        invariant
            i <= configs@.len(),
            cs == stored_view(configs@),
            id_pos_from(cs, id, 0) == id_pos_from(cs, id, i as int),
        decreases configs.len() - i,
    {
        if configs[i].service_id == id {
            return i;
        }
        i = i + 1;
    }
    i
}

/// The configs that the stored services stand for: each dependency id is
/// replaced by the `(name, version)` of the stored service with that id, and
/// ids that no stored service has are dropped.
pub fn service_configs_from_stored(configs: &Vec<StoredServiceConfig>) -> (r: Vec<ServiceConfig>)
    ensures
        configs_view(r@) == stored_view(configs@).map_values(
            |c: StoredView| stored_to_config(stored_view(configs@), c),
        ),
{
    let ghost cs = stored_view(configs@);
    let mut ret: Vec<ServiceConfig> = Vec::new();
    let mut i: usize = 0;
    while i < configs.len()
        invariant
            i <= configs@.len(),
            cs == stored_view(configs@),
            configs_view(ret@) == cs.take(i as int).map_values(|c: StoredView| stored_to_config(cs, c)),
        decreases configs.len() - i,
    {
        let config = &configs[i];
        let mut dependencies: Vec<(String, String)> = Vec::new();
        let mut d: usize = 0;
        while d < config.dependency_ids.len()
            invariant
                i < configs@.len(),
                cs == stored_view(configs@),
                config == &configs@[i as int],
                d <= config.dependency_ids@.len(),
                pairs_view(dependencies@) == resolved_deps(cs, config.dependency_ids@.take(d as int)),
            decreases config.dependency_ids.len() - d,
        {
            let id = config.dependency_ids[d];
            let p = find_id(configs, id);
            let ghost pre = config.dependency_ids@.take(d as int + 1);
            proof {
                assert(pre.drop_last() == config.dependency_ids@.take(d as int));
                assert(pre.last() == id);
            }
            if p < configs.len() {
                let ghost before = dependencies@;
                dependencies.push((configs[p].name.clone(), configs[p].version.clone()));
                proof {
                    assert(pairs_view(dependencies@) == pairs_view(before).push(
                        (cs[p as int].name, cs[p as int].version),
                    ));
                }
            }
            d = d + 1;
        }
        proof {
            assert(config.dependency_ids@.take(config.dependency_ids@.len() as int) == config.dependency_ids@);
        }
        let ghost before = ret@;
        ret.push(
            ServiceConfig {
                name: config.name.clone(),
                version: config.version.clone(),
                program: config.program.clone(),
                args: copy_string_vec(&config.args),
                dependencies,
                workspace: copy_opt_string(&config.workspace),
            },
        );
        proof {
            assert(configs_view(ret@) == configs_view(before).push(stored_to_config(cs, cs[i as int])));
            assert(cs.take(i as int + 1) == cs.take(i as int).push(cs[i as int]));
        }
        i = i + 1;
    }
    proof {
        assert(cs.take(configs@.len() as int) == cs);
    }
    ret
}

/// Builds a manager from the stored services.
pub fn create_service_manager(configs: &Vec<StoredServiceConfig>) -> (r: ServiceManager)
    ensures
        r.wf(),
        r.groups() == built_groups(
            stored_view(configs@).map_values(|c: StoredView| stored_to_config(stored_view(configs@), c)),
        ),
        r.dlq() == built_dlq(
            stored_view(configs@).map_values(|c: StoredView| stored_to_config(stored_view(configs@), c)),
        ),
{
    ServiceManager::from_configs(service_configs_from_stored(configs))
}

/// A stored service comes back with the name, version, program, arguments
/// and workspace it was stored with.
pub proof fn lemma_reload_keeps_fields(cs: Seq<StoredView>, c: StoredView)
    ensures
        stored_to_config(cs, c).meta() == (MetaView {
            name: c.name,
            version: c.version,
            program: c.program,
            args: c.args,
            workspace: c.workspace,
        }),
{
}


/// Argument rows ordered by their index, ascending.
pub open spec fn idx_sorted(p: Seq<(i32, String)>) -> bool {
    forall|i: int, j: int| 0 <= i < j < p.len() ==> #[trigger] p[i].0 <= #[trigger] p[j].0
}

/// The values of the argument rows `(arg_idx, value)` ordered by `arg_idx`,
/// ascending.
pub fn args_in_order(rows: Vec<(i32, String)>) -> (r: Vec<String>)
    ensures
        exists|p: Seq<(i32, String)>|
            #[trigger] idx_sorted(p) && p.to_multiset() == rows@.to_multiset() && r@ == p.map_values(
                |x: (i32, String)| x.1,
            ),
{
    broadcast use vstd::seq_lib::group_to_multiset_ensures, vstd::multiset::group_multiset_axioms;

    let ghost all = rows@;
    let mut rest = rows;
    let mut sorted: Vec<(i32, String)> = Vec::new();
    proof {
        vstd::multiset::lemma_multiset_empty_len(sorted@.to_multiset());
        assert(sorted@.to_multiset().add(rest@.to_multiset()) =~= all.to_multiset());
    }
    while rest.len() > 0
        invariant
            idx_sorted(sorted@),
            sorted@.to_multiset().add(rest@.to_multiset()) == all.to_multiset(),
        decreases rest@.len(),
    {
        let ghost before_rest = rest@;
        let ghost before_sorted = sorted@;
        let x = rest.pop().unwrap();
        proof {
            assert(before_rest == rest@.push(x));
            to_multiset_build(rest@, x);
        }
        let mut pos: usize = 0;
        while pos < sorted.len() && sorted[pos].0 <= x.0
            invariant
                pos <= sorted@.len(),
                sorted@ == before_sorted,
                forall|i: int| 0 <= i < pos ==> #[trigger] sorted@[i].0 <= x.0,
            decreases sorted@.len() - pos,
        {
            pos = pos + 1;
        }
        sorted.insert(pos, x);
        proof {
            to_multiset_insert(before_sorted, pos as int, x);
            assert(sorted@.to_multiset().add(rest@.to_multiset()) =~= all.to_multiset());
            assert forall|i: int, j: int| 0 <= i < j < sorted@.len() implies #[trigger] sorted@[i].0
                <= #[trigger] sorted@[j].0 by {
                if j < pos {
                    assert(sorted@[i] == before_sorted[i] && sorted@[j] == before_sorted[j]);
                } else if j == pos {
                    assert(sorted@[i] == before_sorted[i]);
                } else if i == pos {
                    assert(sorted@[j] == before_sorted[j - 1]);
                    if j - 1 > pos {
                        assert(before_sorted[pos as int].0 <= before_sorted[j - 1].0);
                    }
                } else if i < pos {
                    assert(sorted@[i] == before_sorted[i] && sorted@[j] == before_sorted[j - 1]);
                } else {
                    assert(sorted@[i] == before_sorted[i - 1] && sorted@[j] == before_sorted[j - 1]);
                }
            }
        }
    }
    proof {
        assert(rest@ == Seq::<(i32, String)>::empty());
        vstd::multiset::lemma_multiset_empty_len(rest@.to_multiset());
        assert(rest@.to_multiset() =~= Multiset::<(i32, String)>::empty());
        assert(sorted@.to_multiset().add(Multiset::empty()) =~= sorted@.to_multiset());
    }
    let mut out: Vec<String> = Vec::new();
    let mut i: usize = 0;
    while i < sorted.len()
        invariant
            i <= sorted@.len(),
            out@ == sorted@.take(i as int).map_values(|x: (i32, String)| x.1),
        decreases sorted@.len() - i,
    {
        out.push(sorted[i].1.clone());
        proof {
            assert(sorted@.take(i as int + 1) == sorted@.take(i as int).push(sorted@[i as int]));
        }
        i = i + 1;
    }
    proof {
        assert(sorted@.take(sorted@.len() as int) == sorted@);
        assert(idx_sorted(sorted@));
    }
    out
}

} // verus!
