//! Parameter bundles: insertion order, named against typed lookup, and the
//! empty default.

use shaku::ParamBundle;

#[test]
fn empty_bundle_has_no_values() {
    let bundle = ParamBundle::empty();
    assert_eq!(bundle.len(), 0);
    assert_eq!(bundle.typed_number(), None);
    assert_eq!(bundle.typed_text(), None);
    assert!(bundle.named_text(&"anything".to_string()).is_none());
}

#[test]
fn named_lookup_finds_first_match_in_insertion_order() {
    let mut bundle = ParamBundle::empty();
    bundle.add_named_text("prefix".to_string(), "first".to_string());
    bundle.add_named_text("prefix".to_string(), "second".to_string());
    bundle.add_named_text("suffix".to_string(), "tail".to_string());

    assert_eq!(bundle.named_text(&"prefix".to_string()).unwrap(), "first");
    assert_eq!(bundle.named_text(&"suffix".to_string()).unwrap(), "tail");
    assert!(bundle.named_text(&"missing".to_string()).is_none());
    assert_eq!(bundle.len(), 3);
}

#[test]
fn typed_lookup_skips_named_entries() {
    let mut bundle = ParamBundle::empty();
    bundle.add_named_text("prefix".to_string(), "named".to_string());
    bundle.add_typed_text("typed".to_string());
    bundle.add_typed_number(41 as usize);
    bundle.add_typed_number(42 as usize);

    assert_eq!(bundle.typed_text().unwrap(), "typed");
    assert_eq!(bundle.typed_number(), Some(41));
}
