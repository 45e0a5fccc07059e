//! Plain data of the supervisor: service definitions, runtime metadata,
//! lifecycle states and dead-letter records, each with a mathematical view.
use vstd::prelude::*;
use vstd::string::StringExecFns;

verus! {

/// Identity of a service as a pair of character sequences `(name, version)`.
pub type KeyView = (Seq<char>, Seq<char>);

/// The characters of each string, in order.
pub open spec fn strs_view(s: Seq<String>) -> Seq<Seq<char>> {
    s.map_values(|x: String| x@)
}

/// The characters of each `(name, version)` pair, in order.
pub open spec fn pairs_view(s: Seq<(String, String)>) -> Seq<KeyView> {
    s.map_values(|p: (String, String)| (p.0@, p.1@))
}

pub open spec fn opt_view(o: Option<String>) -> Option<Seq<char>> {
    match o {
        Some(s) => Some(s@),
        None => None,
    }
}

/// Configuration for a single service: what to run and what it depends on.
/// `program` and `workspace` are filesystem paths held as text.
#[derive(Debug, Clone)]
pub struct ServiceConfig {
    pub name: String,
    pub version: String,
    pub program: String,
    pub args: Vec<String>,
    pub dependencies: Vec<(String, String)>,
    pub workspace: Option<String>,
}

pub struct ConfigView {
    pub name: Seq<char>,
    pub version: Seq<char>,
    pub program: Seq<char>,
    pub args: Seq<Seq<char>>,
    pub deps: Seq<KeyView>,
    pub workspace: Option<Seq<char>>,
}

impl ConfigView {
    pub open spec fn key(self) -> KeyView {
        (self.name, self.version)
    }

    /// The runtime metadata a config gives rise to.
    pub open spec fn meta(self) -> MetaView {
        MetaView {
            name: self.name,
            version: self.version,
            program: self.program,
            args: self.args,
            workspace: self.workspace,
        }
    }
}

impl View for ServiceConfig {
    type V = ConfigView;

    open spec fn view(&self) -> ConfigView {
        ConfigView {
            name: self.name@,
            version: self.version@,
            program: self.program@,
            args: strs_view(self.args@),
            deps: pairs_view(self.dependencies@),
            workspace: opt_view(self.workspace),
        }
    }
}

/// Immutable metadata of a service used at runtime.
#[derive(Debug, Clone)]
pub struct ServiceMeta {
    pub name: String,
    pub version: String,
    pub program: String,
    pub args: Vec<String>,
    pub workspace: Option<String>,
}

pub struct MetaView {
    pub name: Seq<char>,
    pub version: Seq<char>,
    pub program: Seq<char>,
    pub args: Seq<Seq<char>>,
    pub workspace: Option<Seq<char>>,
}

impl MetaView {
    pub open spec fn key(self) -> KeyView {
        (self.name, self.version)
    }
}

impl View for ServiceMeta {
    type V = MetaView;

    open spec fn view(&self) -> MetaView {
        MetaView {
            name: self.name@,
            version: self.version@,
            program: self.program@,
            args: strs_view(self.args@),
            workspace: opt_view(self.workspace),
        }
    }
}

pub fn copy_string_vec(v: &Vec<String>) -> (r: Vec<String>)
    ensures
        r@ == v@,
{
    let mut r: Vec<String> = Vec::new();
    let mut i: usize = 0;
    while i < v.len()
        invariant
            i <= v.len(),
            r@ == v@.take(i as int),
        decreases v.len() - i,
    {
        r.push(v[i].clone());
        i = i + 1;
    }
    r
}

pub fn copy_opt_string(o: &Option<String>) -> (r: Option<String>)
    ensures
        r == *o,
{
    match o {
        Some(s) => Some(s.clone()),
        None => None,
    }
}

impl ServiceMeta {
    /// The metadata of `config`, field for field.
    pub fn from_config(config: &ServiceConfig) -> (r: ServiceMeta)
        ensures
            r@ == config@.meta(),
    {
        ServiceMeta {
            name: config.name.clone(),
            version: config.version.clone(),
            program: config.program.clone(),
            args: copy_string_vec(&config.args),
            workspace: copy_opt_string(&config.workspace),
        }
    }

    /// An equal copy.
    pub fn duplicate(&self) -> (r: ServiceMeta)
        ensures
            r@ == self@,
    {
        ServiceMeta {
            name: self.name.clone(),
            version: self.version.clone(),
            program: self.program.clone(),
            args: copy_string_vec(&self.args),
            workspace: copy_opt_string(&self.workspace),
        }
    }
}

/// Runtime state of a service.
#[derive(Debug, Clone)]
pub enum ServiceState {
    Pending,
    Starting,
    Running,
    Stopping,
    Stopped,
    Failed(String),
    Skipped,
}

/// The text a state is shown as.
pub open spec fn state_text(s: ServiceState) -> Seq<char> {
    match s {
        ServiceState::Pending => "Pending"@,
        ServiceState::Starting => "Starting"@,
        ServiceState::Running => "Running"@,
        ServiceState::Stopping => "Stopping"@,
        ServiceState::Stopped => "Stopped"@,
        ServiceState::Failed(reason) => "Failed: "@ + reason@,
        ServiceState::Skipped => "Skipped"@,
    }
}

impl ServiceState {
    /// The state as text: the variant's name, and for `Failed` the reason after `"Failed: "`.
    pub fn to_string(&self) -> (r: String)
        ensures
            r@ == state_text(*self),
    {
        match self {
            ServiceState::Pending => String::from_str("Pending"),
            ServiceState::Starting => String::from_str("Starting"),
            ServiceState::Running => String::from_str("Running"),
            ServiceState::Stopping => String::from_str("Stopping"),
            ServiceState::Stopped => String::from_str("Stopped"),
            ServiceState::Failed(reason) => String::from_str("Failed: ").concat(reason.as_str()),
            ServiceState::Skipped => String::from_str("Skipped"),
        }
    }

    /// An equal copy.
    pub fn duplicate(&self) -> (r: ServiceState)
        ensures
            r == *self,
    {
        match self {
            ServiceState::Pending => ServiceState::Pending,
            ServiceState::Starting => ServiceState::Starting,
            ServiceState::Running => ServiceState::Running,
            ServiceState::Stopping => ServiceState::Stopping,
            ServiceState::Stopped => ServiceState::Stopped,
            ServiceState::Failed(reason) => ServiceState::Failed(reason.clone()),
            ServiceState::Skipped => ServiceState::Skipped,
        }
    }
}

/// A service that was rejected while building groups: its key, why, and its metadata.
#[derive(Debug)]
pub struct DeadLetterQueueItem {
    pub key: (String, String),
    pub reason: String,
    pub meta: ServiceMeta,
}

pub struct DlqView {
    pub key: KeyView,
    pub reason: Seq<char>,
    pub meta: MetaView,
}

impl View for DeadLetterQueueItem {
    type V = DlqView;

    open spec fn view(&self) -> DlqView {
        DlqView { key: (self.key.0@, self.key.1@), reason: self.reason@, meta: self.meta@ }
    }
}

/// A dead-letter record for `meta` with `reason`.
pub open spec fn dlq_entry(meta: MetaView, reason: Seq<char>) -> DlqView {
    DlqView { key: meta.key(), reason, meta }
}

impl DeadLetterQueueItem {
    pub fn new(meta: ServiceMeta, reason: String) -> (r: DeadLetterQueueItem)
        ensures
            r@ == dlq_entry(meta@, reason@),
    {
        let key = (meta.name.clone(), meta.version.clone());
        DeadLetterQueueItem { key, reason, meta }
    }
}

} // verus!
