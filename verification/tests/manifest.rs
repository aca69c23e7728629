//! Module assembly: duplicate bindings and forward dependencies are refused
//! before any component could be built.

use shaku::{Binding, Module, ModuleError};

#[test]
fn duplicate_binding_fails_fast() {
    let result = Module::new(vec![
        Binding { interface_id: 5, dependencies: vec![] },
        Binding { interface_id: 5, dependencies: vec![] },
    ]);
    assert!(matches!(
        result,
        Err(ModuleError::DuplicateBinding { interface_id: 5 })
    ));
}

#[test]
fn dependency_on_unbound_interface_fails_fast() {
    let result = Module::new(vec![
        Binding { interface_id: 1, dependencies: vec![] },
        Binding { interface_id: 2, dependencies: vec![7] },
    ]);
    assert!(matches!(
        result,
        Err(ModuleError::UnboundDependency { interface_id: 2, dependency: 7 })
    ));
}

#[test]
fn dependency_on_later_binding_fails_fast() {
    let result = Module::new(vec![
        Binding { interface_id: 1, dependencies: vec![2] },
        Binding { interface_id: 2, dependencies: vec![] },
    ]);
    assert!(matches!(
        result,
        Err(ModuleError::UnboundDependency { interface_id: 1, dependency: 2 })
    ));
}

#[test]
fn leaves_first_manifest_is_accepted() {
    let result = Module::new(vec![
        Binding { interface_id: 3, dependencies: vec![] },
        Binding { interface_id: 4, dependencies: vec![3] },
        Binding { interface_id: 9, dependencies: vec![3, 4] },
    ]);
    assert!(result.is_ok());
}
