//! A local service supervisor: service definitions are validated and
//! partitioned into acyclic dependency groups, each service is driven
//! through a lifecycle state machine, and group aliases are carried over
//! when the definitions change.
pub mod alias;
pub mod builder;
pub mod graph;
pub mod laws;
pub mod manager;
pub mod model;
pub mod stored;

pub use alias::{is_subset, map_alias, sorted_names};
pub use builder::{
    build_groups_from_configs, validate_service_dependencies, validate_service_name_unique,
    ExtractedService, ServiceGroup,
};
pub use manager::{poll_step, ManagerError, PollStep, ServiceManager, ServiceManagerEvent};
pub use model::{DeadLetterQueueItem, ServiceConfig, ServiceMeta, ServiceState};
pub use stored::{
    args_in_order, create_service_manager, service_configs_from_stored, ServiceConfigRow,
    StoredServiceConfig,
};
