//! The finished container: an immutable handle over a fully built module,
//! serving every resolution by a cached lookup.

use std::sync::Arc;
use vstd::prelude::*;

use crate::context::{arc_clone, cache_wired, entry_wired, ComponentInstance, ComponentMap,
    NotBoundError};
use crate::module::Module;

verus! {

/// A fully built object graph: every interface the module binds is
/// materialized as a shared instance, wired to the shared instances of its
/// dependencies. Immutable after construction; resolution only reads.
pub struct Container {
    module: Module,
    component_map: ComponentMap,
}

impl Container {
    /// Wraps the finished parts handed over by the build context.
    pub(crate) fn assemble(module: Module, component_map: ComponentMap) -> (res: Container)
        ensures
            res.module_spec() == module,
            res.components() == component_map@,
            res.storage_wf() == component_map.wf(),
    {
        Container { module, component_map }
    }

    /// The module manifest the container was built from.
    pub closed spec fn module_spec(self) -> Module {
        self.module
    }

    /// The materialized shared instances, one per bound interface.
    pub closed spec fn components(self) -> Map<int, Arc<ComponentInstance>> {
        self.component_map@
    }

    /// The component storage keeps at most one entry per interface.
    pub closed spec fn storage_wf(self) -> bool {
        self.component_map.wf()
    }

    /// The container is finished: a consistent manifest, every bound
    /// interface materialized, and every instance wired to the shared
    /// instances of its dependencies.
    pub open spec fn wf(self) -> bool {
        &&& self.module_spec().wf()
        &&& self.storage_wf()
        &&& cache_wired(self.module_spec(), self.components())
        &&& forall|id: int| #[trigger]
            self.module_spec().binds(id) ==> self.components().dom().contains(id)
    }

    /// Resolves `interface_id` from the finished graph: a cached lookup,
    /// never a build. Fails exactly on interfaces the module never bound,
    /// as an explicit error, never a fault.
    pub fn resolve(&self, interface_id: usize) -> (res: Result<
        Arc<ComponentInstance>,
        NotBoundError,
    >)
        requires
            self.wf(),
        ensures
            (res is Ok) == self.module_spec().binds(interface_id as int),
            res matches Ok(inst) ==> self.components().dom().contains(interface_id as int) && inst
                == self.components()[interface_id as int],
            res matches Err(e) ==> e.interface_id == interface_id,
    {
        match self.component_map.get(interface_id) {
            Some(inst) => {
                proof {
                    assert(entry_wired(
                        self.module_spec(),
                        self.components(),
                        interface_id as int,
                    ));
                }
                Ok(arc_clone(inst))
            },
            None => {
                proof {
                    assert(!self.module_spec().binds(interface_id as int));
                }
                Err(NotBoundError { interface_id })
            },
        }
    }
}

} // verus!
