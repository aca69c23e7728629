//! Wiring example: a console output component behind a date writer, with
//! named and typed parameters supplied before the build.

use shaku::{Binding, ComponentInstance, Container, ContainerBuildContext, Module, ParamBundle,
    ParameterMap, TypeMap};

const I_OUTPUT: usize = 1;
const I_DATE_WRITER: usize = 2;

fn output_get_date(output: &ComponentInstance, content: String) -> String {
    let prefix = output.params.named_text(&"prefix".to_string()).unwrap();
    let other_param = output.params.typed_number().unwrap();
    format!("{}#{} {}", prefix, other_param, content)
}

fn writer_get_date(writer: &ComponentInstance) -> String {
    let mut content = "Today is ".to_string();
    let today = writer.params.typed_text().unwrap();
    content.push_str(today.as_str());
    output_get_date(&writer.dependencies[0], content)
}

fn build_container() -> Container {
    let module = Module::new(vec![
        Binding { interface_id: I_OUTPUT, dependencies: vec![] },
        Binding { interface_id: I_DATE_WRITER, dependencies: vec![I_OUTPUT] },
    ])
    .unwrap();

    let mut output_params = ParamBundle::empty();
    output_params.add_named_text("prefix".to_string(), "PREFIX > ".to_string());
    output_params.add_typed_number(117 as usize);

    let mut writer_params = ParamBundle::empty();
    writer_params.add_typed_text("June 19".to_string());

    let mut param_map: ParameterMap = TypeMap::new();
    param_map.insert(I_OUTPUT, output_params);
    param_map.insert(I_DATE_WRITER, writer_params);

    ContainerBuildContext::new(module, param_map).build()
}

#[test]
fn main_test() {
    let container = build_container();

    let writer = container.resolve(I_DATE_WRITER).unwrap();
    let date = writer_get_date(&writer);
    assert_eq!(date, "PREFIX > #117 Today is June 19");
}
