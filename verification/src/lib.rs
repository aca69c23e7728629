//! A dependency-injection container.
//!
//! A module is a static manifest binding each interface to one concrete
//! component together with the interfaces that component depends on. A build
//! context walks those bindings depth-first, builds every component at most
//! once, memoizes the shared instances, consumes the caller-supplied
//! parameter bundles, and hands the finished graph to an immutable container
//! that serves further resolutions by cache lookup.

mod container;
mod context;
mod module;
mod params;
mod storage;

pub use container::Container;
pub use context::{cache_wired, entry_wired, lemma_shared_dependency, ComponentInstance, ComponentMap, ContainerBuildContext, NotBoundError, ParameterMap};
pub use module::{dep_bound_before, deps_bound_earlier, distinct_interfaces, Binding, Module, ModuleError};
pub use params::{named_text_in, typed_number_in, typed_text_in, Param, ParamBundle, ParamValue};
pub use storage::TypeMap;
