//! The resolution engine: given a module manifest and the caller-supplied
//! parameters, builds every requested component at most once, depth-first,
//! and memoizes the shared instances.

use std::sync::Arc;
use vstd::prelude::*;

use crate::container::Container;
use crate::module::Module;
use crate::params::{Param, ParamBundle};
use crate::storage::TypeMap;

verus! {

/// A constructed component: the parameter bundle it consumed and one shared
/// handle per declared dependency.
#[derive(Debug)]
pub struct ComponentInstance {
    /// The interface this instance was built for.
    pub interface_id: usize,
    /// The parameters consumed when the instance was built (the empty bundle
    /// when the caller supplied none).
    pub params: ParamBundle,
    /// One shared handle per declared dependency, in declaration order.
    pub dependencies: Vec<Arc<ComponentInstance>>,
}

/// Maps an interface to its already-constructed shared instance. An entry,
/// once inserted, is never replaced or removed.
pub type ComponentMap = TypeMap<Arc<ComponentInstance>>;

/// Maps a component's parameter-bundle key to the supplied bundle; entries
/// are removed when the component is built.
pub type ParameterMap = TypeMap<ParamBundle>;

/// Resolution was asked for an interface the module does not bind.
#[derive(Debug)]
pub struct NotBoundError {
    /// The interface that could not be resolved.
    pub interface_id: usize,
}

/// Relies on std's `Arc::clone`: the returned handle refers to the same
/// allocation as `arc`, so it carries the same value.
#[verifier::external_body]
pub(crate) fn arc_clone<T>(arc: &Arc<T>) -> (res: Arc<T>)
    ensures
        res == *arc,
{
    Arc::clone(arc)
}

/// The cached instance for `id` is bound by the module, carries its own
/// interface, and holds, for each declared dependency, exactly the cached
/// shared instance of that dependency.
pub open spec fn entry_wired(m: Module, rm: Map<int, Arc<ComponentInstance>>, id: int) -> bool {
    &&& m.binds(id)
    &&& (*rm[id]).interface_id as int == id
    &&& (*rm[id]).dependencies@.len() == m.binding_of(id).dependencies@.len()
    &&& forall|k: int|
        0 <= k < m.binding_of(id).dependencies@.len() ==> {
            &&& rm.dom().contains((#[trigger] m.binding_of(id).dependencies@[k]) as int)
            &&& (*rm[id]).dependencies@[k] == rm[m.binding_of(id).dependencies@[k] as int]
        }
}

/// Every cached instance is correctly wired.
pub open spec fn cache_wired(m: Module, rm: Map<int, Arc<ComponentInstance>>) -> bool {
    forall|id: int| #[trigger] rm.dom().contains(id) ==> entry_wired(m, rm, id)
}

/// Shared-dependency law: two cached components that both declare a
/// dependency on the same interface hold the very instance cached for that
/// interface - so in a diamond-shaped graph the shared leaf exists once,
/// however many components depend on it.
pub proof fn lemma_shared_dependency(
    m: Module,
    rm: Map<int, Arc<ComponentInstance>>,
    b: int,
    kb: int,
    c: int,
    kc: int,
)
    requires
        cache_wired(m, rm),
        rm.dom().contains(b),
        rm.dom().contains(c),
        0 <= kb < m.binding_of(b).dependencies@.len(),
        0 <= kc < m.binding_of(c).dependencies@.len(),
        m.binding_of(b).dependencies@[kb] == m.binding_of(c).dependencies@[kc],
    ensures
        (*rm[b]).dependencies@[kb] == rm[m.binding_of(b).dependencies@[kb] as int],
        (*rm[b]).dependencies@[kb] == (*rm[c]).dependencies@[kc],
{
    assert(entry_wired(m, rm, b));
    assert(entry_wired(m, rm, c));
}

/// Holds the module manifest, the parameters still to be consumed, and the
/// components resolved so far, while a container is being built.
pub struct ContainerBuildContext {
    module: Module,
    resolved_map: ComponentMap,
    param_map: ParameterMap,
}

impl ContainerBuildContext {
    /// The module manifest.
    pub closed spec fn module_spec(self) -> Module {
        self.module
    }

    /// The components resolved so far.
    pub closed spec fn resolved(self) -> Map<int, Arc<ComponentInstance>> {
        self.resolved_map@
    }

    /// The parameter bundles not yet consumed.
    pub closed spec fn parameters(self) -> Map<int, ParamBundle> {
        self.param_map@
    }

    /// The two storages keep at most one entry per key.
    pub closed spec fn storage_wf(self) -> bool {
        self.resolved_map.wf() && self.param_map.wf()
    }

    /// The context is well-formed: a consistent manifest, and a cache of
    /// correctly wired instances of bound interfaces.
    pub open spec fn wf(self) -> bool {
        &&& self.module_spec().wf()
        &&& self.storage_wf()
        &&& cache_wired(self.module_spec(), self.resolved())
    }

    /// A fresh context over `module`: nothing resolved yet, all supplied
    /// parameters still available.
    pub fn new(module: Module, param_map: ParameterMap) -> (res: ContainerBuildContext)
        requires
            module.wf(),
            param_map.wf(),
        ensures
            res.wf(),
            res.module_spec() == module,
            res.parameters() == param_map@,
            res.resolved() == Map::<int, Arc<ComponentInstance>>::empty(),
    {
        ContainerBuildContext { module, resolved_map: TypeMap::new(), param_map }
    }

    /// Resolves `interface_id`: the memoized shared instance when the
    /// interface was already resolved; otherwise the component is built -
    /// its dependencies resolved first, its parameter bundle consumed, the
    /// empty bundle standing in when none was supplied - and cached. An
    /// interface the module does not bind is an error, never a fault.
    pub fn resolve(&mut self, interface_id: usize) -> (res: Result<
        Arc<ComponentInstance>,
        NotBoundError,
    >)
        requires
            old(self).wf(),
        ensures
            final(self).wf(),
            final(self).module_spec() == old(self).module_spec(),
            (res is Ok) == old(self).module_spec().binds(interface_id as int),
            !old(self).module_spec().binds(interface_id as int) ==> (res matches Err(e)
                && e.interface_id == interface_id) && final(self).resolved() == old(self).resolved()
                && final(self).parameters() == old(self).parameters(),
            old(self).resolved().dom().contains(interface_id as int) ==> final(self).resolved()
                == old(self).resolved() && final(self).parameters() == old(self).parameters(),
            res matches Ok(inst) ==> final(self).resolved().dom().contains(interface_id as int)
                && inst == final(self).resolved()[interface_id as int],
            forall|t: int| #[trigger]
                old(self).resolved().dom().contains(t) ==> final(self).resolved().dom().contains(t)
                    && final(self).resolved()[t] == old(self).resolved()[t],
            forall|t: int| #[trigger]
                final(self).resolved().dom().contains(t) && !old(self).resolved().dom().contains(t)
                    ==> old(self).module_spec().binds(t)
                    && old(self).module_spec().rank(t)
                        <= old(self).module_spec().rank(interface_id as int)
                    && (old(self).parameters().dom().contains(t)
                        ==> (*final(self).resolved()[t]).params == old(self).parameters()[t])
                    && (!old(self).parameters().dom().contains(t)
                        ==> (*final(self).resolved()[t]).params@ == Seq::<Param>::empty()),
            final(self).parameters() == old(self).parameters().remove_keys(
                final(self).resolved().dom().difference(old(self).resolved().dom()),
            ),
    {
        resolve_in(&self.module, &mut self.resolved_map, &mut self.param_map, interface_id)
    }

    /// Builds every component the module binds - leaves first, each exactly
    /// once - and hands the finished graph to an immutable container. The
    /// context has no further life afterwards.
    pub fn build(self) -> (res: Container)
        requires
            self.wf(),
        ensures
            res.wf(),
            res.module_spec() == self.module_spec(),
            forall|t: int| #[trigger]
                self.resolved().dom().contains(t) ==> res.components().dom().contains(t)
                    && res.components()[t] == self.resolved()[t],
            forall|t: int| #[trigger]
                res.components().dom().contains(t) && !self.resolved().dom().contains(t) ==> (
                self.parameters().dom().contains(t) ==> (*res.components()[t]).params
                    == self.parameters()[t]) && (!self.parameters().dom().contains(t) ==> (*res.components()[t]).params@
                    == Seq::<Param>::empty()),
    {
        let mut ctx = self;
        let ghost ctx0 = ctx;
        let n = ctx.module.binding_count();
        let mut i: usize = 0;
        while i < n
            invariant
                i <= n,
                n == ctx.module_spec()@.len(),
                ctx.wf(),
                ctx.module_spec() == ctx0.module_spec(),
                forall|j: int|
                    0 <= j < i ==> ctx.resolved().dom().contains(
                        (#[trigger] ctx.module_spec()@[j]).interface_id as int,
                    ),
                forall|t: int| #[trigger]
                    ctx0.resolved().dom().contains(t) ==> ctx.resolved().dom().contains(t)
                        && ctx.resolved()[t] == ctx0.resolved()[t],
                forall|t: int| #[trigger]
                    ctx.resolved().dom().contains(t) && !ctx0.resolved().dom().contains(t) ==> (
                    ctx0.parameters().dom().contains(t) ==> (*ctx.resolved()[t]).params
                        == ctx0.parameters()[t]) && (!ctx0.parameters().dom().contains(t) ==> (*ctx.resolved()[t]).params@
                        == Seq::<Param>::empty()),
                ctx.parameters() == ctx0.parameters().remove_keys(
                    ctx.resolved().dom().difference(ctx0.resolved().dom()),
                ),
            decreases n - i,
        {
            let ghost pre = ctx;
            let id = ctx.module.interface_at(i);
            proof {
                ctx.module_spec().lemma_binding_at(i as int);
            }
            let r = ctx.resolve(id);
            proof {
                assert(ctx.resolved().dom().contains(id as int));
                assert forall|t: int| #[trigger]
                    ctx.resolved().dom().contains(t) && !ctx0.resolved().dom().contains(
                        t,
                    ) implies (ctx0.parameters().dom().contains(t) ==> (*ctx.resolved()[t]).params
                    == ctx0.parameters()[t]) && (!ctx0.parameters().dom().contains(t)
                    ==> (*ctx.resolved()[t]).params@ == Seq::<Param>::empty()) by {
                    if pre.resolved().dom().contains(t) {
                        assert((*ctx.resolved()[t]).params == (*pre.resolved()[t]).params);
                    } else {
                        assert(pre.parameters().dom().contains(t) == ctx0.parameters().dom()
                            .contains(t));
                        if ctx0.parameters().dom().contains(t) {
                            assert(pre.parameters()[t] == ctx0.parameters()[t]);
                        }
                    }
                }
                assert(ctx.parameters() =~= ctx0.parameters().remove_keys(
                    ctx.resolved().dom().difference(ctx0.resolved().dom()),
                ));
            }
            i = i + 1;
        }
        proof {
            assert forall|id: int| ctx.module_spec().binds(id) implies ctx.resolved().dom()
                .contains(id) by {
                let j = choose|j: int|
                    0 <= j < ctx.module_spec()@.len() && (#[trigger] ctx.module_spec()@[j]).interface_id as int
                        == id;
                assert(ctx.resolved().dom().contains(
                    ctx.module_spec()@[j].interface_id as int,
                ));
            }
        }
        Container::assemble(ctx.module, ctx.resolved_map)
    }
}

/// Resolves `interface_id` against `module` over the two storages: the
/// memoized instance when present, otherwise a depth-first build.
fn resolve_in(
    module: &Module,
    resolved_map: &mut ComponentMap,
    param_map: &mut ParameterMap,
    interface_id: usize,
) -> (res: Result<Arc<ComponentInstance>, NotBoundError>)
    requires
        module.wf(),
        old(resolved_map).wf(),
        old(param_map).wf(),
        cache_wired(*module, old(resolved_map)@),
    ensures
        final(resolved_map).wf(),
        final(param_map).wf(),
        cache_wired(*module, final(resolved_map)@),
        (res is Ok) == module.binds(interface_id as int),
        !module.binds(interface_id as int) ==> (res matches Err(e) && e.interface_id
            == interface_id) && final(resolved_map)@ == old(resolved_map)@ && final(param_map)@
            == old(param_map)@,
        old(resolved_map)@.dom().contains(interface_id as int) ==> final(resolved_map)@ == old(
            resolved_map,
        )@ && final(param_map)@ == old(param_map)@,
        res matches Ok(inst) ==> final(resolved_map)@.dom().contains(interface_id as int) && inst
            == final(resolved_map)@[interface_id as int],
        forall|t: int| #[trigger]
            old(resolved_map)@.dom().contains(t) ==> final(resolved_map)@.dom().contains(t)
                && final(resolved_map)@[t] == old(resolved_map)@[t],
        forall|t: int| #[trigger]
            final(resolved_map)@.dom().contains(t) && !old(resolved_map)@.dom().contains(t)
                ==> module.binds(t) && module.rank(t) <= module.rank(interface_id as int) && (old(
                param_map,
            )@.dom().contains(t) ==> (*final(resolved_map)@[t]).params == old(param_map)@[t]) && (
            !old(param_map)@.dom().contains(t) ==> (*final(resolved_map)@[t]).params@ == Seq::<
                Param,
            >::empty()),
        final(param_map)@ == old(param_map)@.remove_keys(
            final(resolved_map)@.dom().difference(old(resolved_map)@.dom()),
        ),
    decreases module.rank(interface_id as int),
{
    let cached = resolved_map.get(interface_id);
    if let Some(inst) = cached {
        let r = arc_clone(inst);
        proof {
            assert(param_map@ =~= old(param_map)@.remove_keys(
                resolved_map@.dom().difference(old(resolved_map)@.dom()),
            ));
            assert(module.binds(interface_id as int)) by {
                assert(entry_wired(*module, resolved_map@, interface_id as int));
            }
        }
        return Ok(r);
    }
    let idx = match module.find_index(interface_id) {
        Some(i) => i,
        None => {
            proof {
                assert(param_map@ =~= old(param_map)@.remove_keys(
                    resolved_map@.dom().difference(old(resolved_map)@.dom()),
                ));
            }
            return Err(NotBoundError { interface_id });
        },
    };
    proof {
        module.lemma_binding_at(idx as int);
    }
    let params = match param_map.remove(interface_id) {
        Some(p) => p,
        None => ParamBundle::empty(),
    };
    let dep_ids = module.dependencies_at(idx);
    let ghost rm0 = old(resolved_map)@;
    let ghost pm0 = old(param_map)@;
    let mut deps: Vec<Arc<ComponentInstance>> = Vec::new();
    let mut k: usize = 0;
    while k < dep_ids.len()
        invariant
            k <= dep_ids@.len(),
            module.wf(),
            resolved_map.wf(),
            param_map.wf(),
            cache_wired(*module, resolved_map@),
            idx < module@.len(),
            module.binds(interface_id as int),
            module.index_of(interface_id as int) == idx as int,
            module.rank(interface_id as int) == idx as int,
            dep_ids@ == module@[idx as int].dependencies@,
            !resolved_map@.dom().contains(interface_id as int),
            forall|t: int| #[trigger]
                rm0.dom().contains(t) ==> resolved_map@.dom().contains(t) && resolved_map@[t]
                    == rm0[t],
            forall|t: int| #[trigger]
                resolved_map@.dom().contains(t) && !rm0.dom().contains(t) ==> module.binds(t)
                    && module.rank(t) < idx as int && (pm0.dom().contains(t)
                    ==> (*resolved_map@[t]).params == pm0[t]) && (!pm0.dom().contains(t)
                    ==> (*resolved_map@[t]).params@ == Seq::<Param>::empty()),
            param_map@ == pm0.remove(interface_id as int).remove_keys(
                resolved_map@.dom().difference(rm0.dom()),
            ),
            deps@.len() == k as int,
            forall|t: int|
                0 <= t < k ==> resolved_map@.dom().contains((#[trigger] dep_ids@[t]) as int)
                    && deps@[t] == resolved_map@[dep_ids@[t] as int],
        decreases dep_ids@.len() - k,
    {
        let ghost pre_rm = resolved_map@;
        let ghost pre_pm = param_map@;
        let dep = dep_ids[k];
        proof {
            module.lemma_dep_rank(interface_id as int, k as int);
        }
        let r = resolve_in(module, resolved_map, param_map, dep);
        let inst = match r {
            Ok(inst) => inst,
            Err(e) => {
                return Err(e);
            },
        };
        deps.push(inst);
        k = k + 1;
        proof {
            assert forall|t: int| #[trigger]
                resolved_map@.dom().contains(t) && !rm0.dom().contains(t) implies module.binds(t)
                && module.rank(t) < idx as int && (pm0.dom().contains(t)
                ==> (*resolved_map@[t]).params == pm0[t]) && (!pm0.dom().contains(t)
                ==> (*resolved_map@[t]).params@ == Seq::<Param>::empty()) by {
                if pre_rm.dom().contains(t) {
                } else {
                    assert(module.rank(t) <= module.rank(dep as int));
                    assert(t != interface_id as int);
                    assert(!pre_rm.dom().contains(t) && !rm0.dom().contains(t));
                    assert(pre_pm.dom().contains(t) == pm0.dom().contains(t));
                    if pm0.dom().contains(t) {
                        assert(pre_pm[t] == pm0[t]);
                    }
                }
            }
            assert(param_map@ =~= pm0.remove(interface_id as int).remove_keys(
                resolved_map@.dom().difference(rm0.dom()),
            ));
        }
    }
    let inst = Arc::new(ComponentInstance { interface_id, params, dependencies: deps });
    let ret = arc_clone(&inst);
    let ghost rm_mid = resolved_map@;
    resolved_map.insert(interface_id, inst);
    proof {
        let iid = interface_id as int;
        let rm1 = resolved_map@;
        assert(rm1 == rm_mid.insert(iid, inst));
        assert forall|id: int| #[trigger] rm1.dom().contains(id) implies entry_wired(
            *module,
            rm1,
            id,
        ) by {
            if id == iid {
                assert(module.binding_of(iid) == module@[idx as int]);
                assert forall|t: int|
                    0 <= t < module.binding_of(iid).dependencies@.len() implies rm1.dom().contains(
                    (#[trigger] module.binding_of(iid).dependencies@[t]) as int,
                ) && (*rm1[iid]).dependencies@[t] == rm1[module.binding_of(
                    iid,
                ).dependencies@[t] as int] by {
                    let d = module.binding_of(iid).dependencies@[t] as int;
                    module.lemma_dep_rank(iid, t);
                    assert(d != iid);
                    assert(rm_mid.dom().contains(dep_ids@[t] as int));
                }
            } else {
                assert(rm_mid.dom().contains(id));
                assert(entry_wired(*module, rm_mid, id));
                assert forall|t: int|
                    0 <= t < module.binding_of(id).dependencies@.len() implies rm1.dom().contains(
                    (#[trigger] module.binding_of(id).dependencies@[t]) as int,
                ) && (*rm1[id]).dependencies@[t] == rm1[module.binding_of(
                    id,
                ).dependencies@[t] as int] by {
                    let d = module.binding_of(id).dependencies@[t] as int;
                    assert(rm_mid.dom().contains(d));
                    assert(d != iid);
                }
            }
        }
        assert(param_map@ =~= pm0.remove_keys(rm1.dom().difference(rm0.dom())));
    }
    Ok(ret)
}

} // verus!
