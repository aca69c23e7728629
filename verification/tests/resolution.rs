//! Resolution behaviour: memoization, shared instances, parameter
//! consumption and defaults, and the not-bound error.

use std::sync::Arc;

use shaku::{Binding, ContainerBuildContext, Module, ParamBundle, ParameterMap, TypeMap};

const I_LEAF: usize = 10;
const I_LEFT: usize = 11;
const I_RIGHT: usize = 12;
const I_ROOT: usize = 13;

fn leaf_module() -> Module {
    Module::new(vec![Binding { interface_id: I_LEAF, dependencies: vec![] }]).unwrap()
}

fn diamond_module() -> Module {
    Module::new(vec![
        Binding { interface_id: I_LEAF, dependencies: vec![] },
        Binding { interface_id: I_LEFT, dependencies: vec![I_LEAF] },
        Binding { interface_id: I_RIGHT, dependencies: vec![I_LEAF] },
        Binding { interface_id: I_ROOT, dependencies: vec![I_LEFT, I_RIGHT] },
    ])
    .unwrap()
}

#[test]
fn resolve_twice_returns_same_instance() {
    let params: ParameterMap = TypeMap::new();
    let mut context = ContainerBuildContext::new(leaf_module(), params);

    let first = context.resolve(I_LEAF).unwrap();
    let second = context.resolve(I_LEAF).unwrap();
    assert!(Arc::ptr_eq(&first, &second));
}

#[test]
fn container_resolve_twice_returns_same_instance() {
    let params: ParameterMap = TypeMap::new();
    let container = ContainerBuildContext::new(diamond_module(), params).build();

    let first = container.resolve(I_ROOT).unwrap();
    let second = container.resolve(I_ROOT).unwrap();
    assert!(Arc::ptr_eq(&first, &second));
}

#[test]
fn diamond_dependency_constructed_once() {
    let params: ParameterMap = TypeMap::new();
    let container = ContainerBuildContext::new(diamond_module(), params).build();

    let root = container.resolve(I_ROOT).unwrap();
    let left = &root.dependencies[0];
    let right = &root.dependencies[1];
    let leaf = container.resolve(I_LEAF).unwrap();

    assert!(Arc::ptr_eq(&left.dependencies[0], &right.dependencies[0]));
    assert!(Arc::ptr_eq(&left.dependencies[0], &leaf));
}

#[test]
fn missing_parameters_fall_back_to_defaults() {
    let params: ParameterMap = TypeMap::new();
    let mut context = ContainerBuildContext::new(leaf_module(), params);

    let leaf = context.resolve(I_LEAF).unwrap();
    assert_eq!(leaf.params.len(), 0);
    assert_eq!(leaf.params.typed_number(), None);
    assert!(leaf.params.named_text(&"prefix".to_string()).is_none());
}

#[test]
fn parameters_consumed_once_second_resolution_cached() {
    let mut bundle = ParamBundle::empty();
    bundle.add_typed_number(7 as usize);
    let mut params: ParameterMap = TypeMap::new();
    params.insert(I_LEAF, bundle);
    let mut context = ContainerBuildContext::new(leaf_module(), params);

    let first = context.resolve(I_LEAF).unwrap();
    assert_eq!(first.params.typed_number(), Some(7));

    let second = context.resolve(I_LEAF).unwrap();
    assert!(Arc::ptr_eq(&first, &second));
    assert_eq!(second.params.typed_number(), Some(7));
}

#[test]
fn writer_shares_the_output_instance() {
    let mut bundle = ParamBundle::empty();
    bundle.add_named_text("prefix".to_string(), "P>".to_string());
    bundle.add_typed_number(3 as usize);
    let mut params: ParameterMap = TypeMap::new();
    params.insert(I_LEAF, bundle);

    let module = Module::new(vec![
        Binding { interface_id: I_LEAF, dependencies: vec![] },
        Binding { interface_id: I_LEFT, dependencies: vec![I_LEAF] },
    ])
    .unwrap();
    let container = ContainerBuildContext::new(module, params).build();

    let writer = container.resolve(I_LEFT).unwrap();
    let output = container.resolve(I_LEAF).unwrap();
    assert!(Arc::ptr_eq(&writer.dependencies[0], &output));
    assert_eq!(output.params.named_text(&"prefix".to_string()).unwrap(), "P>");
    assert_eq!(output.params.typed_number(), Some(3));
}

#[test]
fn unbound_interface_is_an_error_not_a_fault() {
    let params: ParameterMap = TypeMap::new();
    let mut context = ContainerBuildContext::new(leaf_module(), params);
    let err = context.resolve(99).unwrap_err();
    assert_eq!(err.interface_id, 99);

    let more_params: ParameterMap = TypeMap::new();
    let container = ContainerBuildContext::new(leaf_module(), more_params).build();
    let err = container.resolve(99).unwrap_err();
    assert_eq!(err.interface_id, 99);

    let leaf = container.resolve(I_LEAF);
    assert!(leaf.is_ok());
}
