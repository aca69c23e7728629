//! The module manifest: a closed set of interface-to-component bindings,
//! fixed before any component is built.

use vstd::prelude::*;

verus! {

/// One binding: the interface it resolves and the interfaces the bound
/// concrete component depends on, in the order its builder resolves them.
pub struct Binding {
    /// The interface this binding resolves.
    pub interface_id: usize,
    /// The dependencies of the bound component, resolved before it is built.
    pub dependencies: Vec<usize>,
}

/// A fault in the manifest itself, found when the module is assembled -
/// before any component is built.
#[derive(Debug)]
pub enum ModuleError {
    /// Two bindings resolve the same interface.
    DuplicateBinding { interface_id: usize },
    /// A binding depends on an interface that no earlier binding resolves.
    /// Bindings are declared leaves first, so a dependency cycle can never
    /// be assembled.
    UnboundDependency { interface_id: usize, dependency: usize },
}

/// No two bindings resolve the same interface.
pub open spec fn distinct_interfaces(s: Seq<Binding>) -> bool {
    forall|i: int, j: int|
        0 <= i < j < s.len() ==> (#[trigger] s[i]).interface_id != (#[trigger] s[j]).interface_id
}

/// Some binding before position `i` resolves the interface `dep`.
pub open spec fn dep_bound_before(s: Seq<Binding>, i: int, dep: int) -> bool {
    exists|j: int| 0 <= j < i && (#[trigger] s[j]).interface_id as int == dep
}

/// Every dependency is resolved by an earlier binding (leaves first).
pub open spec fn deps_bound_earlier(s: Seq<Binding>) -> bool {
    forall|i: int, k: int|
        0 <= i < s.len() && 0 <= k < s[i].dependencies@.len() ==> dep_bound_before(
            s,
            i,
            (#[trigger] s[i].dependencies@[k]) as int,
        )
}

/// The static manifest: for every bound interface, exactly one concrete
/// component, given by its parameter-bundle key (the interface id itself)
/// and its dependency list.
pub struct Module {
    bindings: Vec<Binding>,
}

impl View for Module {
    type V = Seq<Binding>;

    closed spec fn view(&self) -> Seq<Binding> {
        self.bindings@
    }
}

impl Module {
    /// The manifest is closed and consistent: one binding per interface, and
    /// every dependency bound earlier in the list.
    pub open spec fn wf(self) -> bool {
        distinct_interfaces(self@) && deps_bound_earlier(self@)
    }

    /// Whether the module binds `id`.
    pub open spec fn binds(self, id: int) -> bool {
        exists|j: int| 0 <= j < self@.len() && (#[trigger] self@[j]).interface_id as int == id
    }

    /// The position of the binding for `id`.
    pub open spec fn index_of(self, id: int) -> int {
        choose|j: int| 0 <= j < self@.len() && (#[trigger] self@[j]).interface_id as int == id
    }

    /// The binding for `id`.
    pub open spec fn binding_of(self, id: int) -> Binding {
        self@[self.index_of(id)]
    }

    /// The position of an interface's binding, as the measure of recursive
    /// resolution: every dependency of a binding has a smaller rank.
    pub open spec fn rank(self, id: int) -> int {
        if self.binds(id) {
            self.index_of(id)
        } else {
            0
        }
    }

    /// In a well-formed module, the binding at position `j` is the one
    /// binding of its interface.
    pub proof fn lemma_binding_at(self, j: int)
        requires
            self.wf(),
            0 <= j < self@.len(),
        ensures
            self.binds(self@[j].interface_id as int),
            self.index_of(self@[j].interface_id as int) == j,
            self.binding_of(self@[j].interface_id as int) == self@[j],
            self.rank(self@[j].interface_id as int) == j,
    {
        let id = self@[j].interface_id as int;
        assert(self.binds(id));
        let j2 = self.index_of(id);
        assert(j2 == j);
    }

    /// In a well-formed module every dependency of the binding for `id` is
    /// bound, at a strictly smaller rank.
    pub proof fn lemma_dep_rank(self, id: int, k: int)
        requires
            self.wf(),
            self.binds(id),
            0 <= k < self.binding_of(id).dependencies@.len(),
        ensures
            self.binds(self.binding_of(id).dependencies@[k] as int),
            self.rank(self.binding_of(id).dependencies@[k] as int) < self.rank(id),
    {
        let i = self.index_of(id);
        let dep = self.binding_of(id).dependencies@[k] as int;
        assert(dep_bound_before(self@, i, dep));
        let j = choose|j: int| 0 <= j < i && (#[trigger] self@[j]).interface_id as int == dep;
        self.lemma_binding_at(j);
    }

    /// Assembles a module from its bindings, or fails fast - before any
    /// component could be built - on a duplicate binding or on a dependency
    /// that no earlier binding resolves.
    pub fn new(bindings: Vec<Binding>) -> (res: Result<Module, ModuleError>)
        ensures
            res matches Ok(m) ==> m@ == bindings@ && m.wf(),
            (res is Ok) == (distinct_interfaces(bindings@) && deps_bound_earlier(bindings@)),
            res matches Err(ModuleError::DuplicateBinding { .. }) ==> !distinct_interfaces(
                bindings@,
            ),
            res matches Err(ModuleError::UnboundDependency { .. }) ==> distinct_interfaces(
                bindings@,
            ) && !deps_bound_earlier(bindings@),
    {
        let n = bindings.len();
        let mut i: usize = 0;
        while i < n
            invariant
                i <= n,
                n == bindings@.len(),
                forall|a: int, b: int|
                    0 <= a < b < i ==> (#[trigger] bindings@[a]).interface_id != (
                    #[trigger] bindings@[b]).interface_id,
            decreases n - i,
        {
            let mut j: usize = 0;
            while j < i
                invariant
                    j <= i,
                    i < n,
                    n == bindings@.len(),
                    forall|a: int|
                        0 <= a < j ==> (#[trigger] bindings@[a]).interface_id != bindings@[
                            i as int].interface_id,
                decreases i - j,
            {
                if bindings[j].interface_id == bindings[i].interface_id {
                    proof {
                        assert(!distinct_interfaces(bindings@)) by {
                            if distinct_interfaces(bindings@) {
                                assert(bindings@[j as int].interface_id != bindings@[
                                    i as int].interface_id);
                            }
                        }
                    }
                    return Err(
                        ModuleError::DuplicateBinding { interface_id: bindings[i].interface_id },
                    );
                }
                j = j + 1;
            }
            i = i + 1;
        }
        let mut i: usize = 0;
        while i < n
            invariant
                i <= n,
                n == bindings@.len(),
                distinct_interfaces(bindings@),
                forall|a: int, k: int|
                    0 <= a < i && 0 <= k < bindings@[a].dependencies@.len() ==> dep_bound_before(
                        bindings@,
                        a,
                        (#[trigger] bindings@[a].dependencies@[k]) as int,
                    ),
            decreases n - i,
        {
            let deps_len = bindings[i].dependencies.len();
            let mut k: usize = 0;
            while k < deps_len
                invariant
                    k <= deps_len,
                    i < n,
                    n == bindings@.len(),
                    distinct_interfaces(bindings@),
                    deps_len == bindings@[i as int].dependencies@.len(),
                    forall|t: int|
                        0 <= t < k ==> dep_bound_before(
                            bindings@,
                            i as int,
                            (#[trigger] bindings@[i as int].dependencies@[t]) as int,
                        ),
                decreases deps_len - k,
            {
                let dep = bindings[i].dependencies[k];
                let mut j: usize = 0;
                let mut found = false;
                while j < i && !found
                    invariant
                        j <= i,
                        i < n,
                        n == bindings@.len(),
                        !found ==> forall|a: int|
                            0 <= a < j ==> (#[trigger] bindings@[a]).interface_id != dep,
                        found ==> j < i && bindings@[j as int].interface_id == dep,
                    decreases i - j + (if found { 0int } else { 1int }),
                {
                    if bindings[j].interface_id == dep {
                        found = true;
                    } else {
                        j = j + 1;
                    }
                }
                if !found {
                    proof {
                        assert(!dep_bound_before(bindings@, i as int, dep as int));
                        assert(!deps_bound_earlier(bindings@)) by {
                            if deps_bound_earlier(bindings@) {
                                assert(dep_bound_before(
                                    bindings@,
                                    i as int,
                                    (bindings@[i as int].dependencies@[k as int]) as int,
                                ));
                            }
                        }
                    }
                    return Err(
                        ModuleError::UnboundDependency {
                            interface_id: bindings[i].interface_id,
                            dependency: dep,
                        },
                    );
                }
                proof {
                    assert(dep_bound_before(bindings@, i as int, dep as int));
                }
                k = k + 1;
            }
            i = i + 1;
        }
        Ok(Module { bindings })
    }

    /// Number of bindings.
    pub fn binding_count(&self) -> (n: usize)
        ensures
            n == self@.len(),
    {
        self.bindings.len()
    }

    /// The interface bound at position `idx`.
    pub fn interface_at(&self, idx: usize) -> (id: usize)
        requires
            idx < self@.len(),
        ensures
            id == self@[idx as int].interface_id,
    {
        self.bindings[idx].interface_id
    }

    /// The position of the binding for `interface_id`, if the module binds
    /// it; `None` exactly when it does not.
    pub fn find_index(&self, interface_id: usize) -> (res: Option<usize>)
        ensures
            match res {
                Some(i) => i < self@.len() && self@[i as int].interface_id == interface_id,
                None => !self.binds(interface_id as int),
            },
    {
        let n = self.bindings.len();
        let mut i: usize = 0;
        while i < n
            invariant
                i <= n,
                n == self@.len(),
                forall|a: int| 0 <= a < i ==> (#[trigger] self@[a]).interface_id != interface_id,
            decreases n - i,
        {
            if self.bindings[i].interface_id == interface_id {
                return Some(i);
            }
            i = i + 1;
        }
        None
    }

    /// The declared dependencies of the binding at `idx`.
    pub fn dependencies_at(&self, idx: usize) -> (res: Vec<usize>)
        requires
            idx < self@.len(),
        ensures
            res@ == self@[idx as int].dependencies@,
    {
        let n = self.bindings[idx].dependencies.len();
        let mut out: Vec<usize> = Vec::new();
        let mut i: usize = 0;
        while i < n
            invariant
                i <= n,
                idx < self@.len(),
                n == self@[idx as int].dependencies@.len(),
                out@ == self@[idx as int].dependencies@.subrange(0, i as int),
            decreases n - i,
        {
            out.push(self.bindings[idx].dependencies[i]);
            proof {
                assert(self@[idx as int].dependencies@.subrange(0, i as int + 1) =~= self@[
                    idx as int].dependencies@.subrange(0, i as int).push(
                    self@[idx as int].dependencies@[i as int],
                ));
            }
            i = i + 1;
        }
        proof {
            assert(self@[idx as int].dependencies@.subrange(0, n as int) =~= self@[
                idx as int].dependencies@);
        }
        out
    }
}

} // verus!
