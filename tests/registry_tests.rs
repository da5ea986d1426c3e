use bitloom::field::{FieldLength, FieldRule, FieldType};
use bitloom::protocol::{Endianness, Protocol, ProtocolError, ProtocolLength};
use bitloom::registry::ProtocolRegistry;

fn with_proto<'a>(
    registry: &'a mut ProtocolRegistry,
    id: &str,
    parent_id: Option<String>,
) -> &'a mut ProtocolRegistry {
    registry.create_protocol(id, None, Endianness::Big, parent_id).unwrap();
    registry
}

fn add_fixed(proto: &mut Protocol, field_id: &str, field_len: u32) -> Result<(), String> {
    let field = FieldRule::new(field_id, FieldType::Fixed(0), FieldLength::Fixed(field_len));
    proto.add_field(field).map_err(|e| format!("{:?}", e))
}

fn add_variable(proto: &mut Protocol, field_id: &str) -> Result<(), String> {
    let field = FieldRule::new(field_id, FieldType::Input, FieldLength::Variable);
    proto.add_field(field).map_err(|e| format!("{:?}", e))
}

fn parent_of(registry: &ProtocolRegistry, id: &str) -> Option<String> {
    registry.get_protocol(id).unwrap().parent_id.clone()
}

#[test]
fn test_create_protocol_duplicate_id() {
    let mut registry = ProtocolRegistry::new();
    assert!(registry.create_protocol("proto1", None, Endianness::Big, None).is_ok());
    assert!(registry.create_protocol("proto1", None, Endianness::Little, None).is_err());
}

#[test]
fn test_get_protocol_not_found() {
    let registry = ProtocolRegistry::new();
    assert!(registry.get_protocol("nonexistent_proto").is_none());
}

#[test]
fn test_remove_protocol_with_subprotocols() {
    let mut registry = ProtocolRegistry::new();
    with_proto(with_proto(&mut registry, "parent_proto", None), "child_proto", Some("parent_proto".to_string()));

    assert_eq!(registry.len(), 2);
    assert!(registry.remove_protocol("parent_proto").is_ok());
    assert_eq!(registry.len(), 0);
}

#[test]
fn test_update_protocol_id_with_children() {
    let mut registry = ProtocolRegistry::new();
    with_proto(with_proto(&mut registry, "parent_proto", None), "child_proto", Some("parent_proto".to_string()));

    assert!(registry.update_protocol_id("parent_proto", "new_parent_proto").is_ok());
    assert!(registry.get_protocol("parent_proto").is_none());
    assert!(registry.get_protocol("new_parent_proto").is_some());

    let child_proto = registry.get_protocol("child_proto").unwrap();
    assert_eq!(child_proto.parent_id.as_deref(), Some("new_parent_proto"));
}

#[test]
fn test_edit_protocol_success() {
    let mut registry = ProtocolRegistry::new();
    with_proto(&mut registry, "proto1", None);

    let result = registry.edit_protocol("proto1", |p: &mut Protocol| {
        p.name = Some("Data Message".to_string());
        Ok(())
    });

    assert!(result.is_ok());
    let proto1 = registry.get_protocol("proto1").unwrap();
    assert_eq!(proto1.name.as_deref(), Some("Data Message"));
}

#[test]
fn test_edit_protocol_fail() {
    let mut registry = ProtocolRegistry::new();
    with_proto(&mut registry, "proto1", None);

    registry
        .edit_protocol("proto1", |p: &mut Protocol| {
            p.name = Some("Some Name".to_string());
            Ok(())
        })
        .unwrap();

    let result = registry.edit_protocol("proto1", |p: &mut Protocol| {
        p.name = Some("Another Name".to_string());
        Err("Failed to edit protocol".to_string())
    });

    assert!(result.is_err());
    let proto1 = registry.get_protocol("proto1").unwrap();
    assert_eq!(proto1.name.as_deref(), Some("Some Name"));
}

#[test]
fn test_attempt_change_parent_id() {
    let mut registry = ProtocolRegistry::new();
    with_proto(with_proto(&mut registry, "proto1", None), "proto2", None);

    let result = registry.edit_protocol("proto2", |p: &mut Protocol| {
        p.parent_id = Some("proto1".to_string());
        Ok(())
    });

    assert!(result.is_err());
    let proto2 = registry.get_protocol("proto2").unwrap();
    assert_eq!(proto2.parent_id, None);
}

#[test]
fn test_get_inheritance_chain() {
    let mut registry = ProtocolRegistry::new();
    with_proto(
        with_proto(with_proto(&mut registry, "grandparent", None), "parent", Some("grandparent".to_string())),
        "child",
        Some("parent".to_string()),
    );

    let chain = registry.get_inheritance_chain("child");
    assert_eq!(chain.len(), 3);
    assert_eq!(chain[0].id, "grandparent");
    assert_eq!(chain[1].id, "parent");
    assert_eq!(chain[2].id, "child");
}

#[test]
fn test_get_total_length() {
    let mut registry = ProtocolRegistry::new();
    with_proto(with_proto(&mut registry, "parent", None), "child", Some("parent".to_string()));

    registry
        .edit_protocol("parent", |p: &mut Protocol| {
            add_fixed(p, "field1", 8)?;
            add_fixed(p, "field2", 4)
        })
        .unwrap();
    registry.edit_protocol("child", |p: &mut Protocol| add_fixed(p, "field3", 16)).unwrap();

    let total_length = registry.get_total_length("child");
    assert_eq!(total_length, ProtocolLength::Fixed(28));
}

#[test]
fn total_length_of_fixed_parent_and_child() {
    let mut registry = ProtocolRegistry::new();
    with_proto(with_proto(&mut registry, "P", None), "C", Some("P".to_string()));
    registry.edit_protocol("P", |p: &mut Protocol| add_fixed(p, "a", 8)).unwrap();
    registry.edit_protocol("C", |p: &mut Protocol| add_fixed(p, "b", 12)).unwrap();
    assert_eq!(registry.get_total_length("C"), ProtocolLength::Fixed(20));
}

#[test]
fn total_length_ends_at_the_variable_child() {
    let mut registry = ProtocolRegistry::new();
    with_proto(with_proto(&mut registry, "P", None), "C", Some("P".to_string()));
    registry.edit_protocol("P", |p: &mut Protocol| add_fixed(p, "a", 8)).unwrap();
    registry
        .edit_protocol("C", |p: &mut Protocol| {
            add_fixed(p, "b", 4)?;
            add_variable(p, "rest")
        })
        .unwrap();
    assert_eq!(registry.get_total_length("C"), ProtocolLength::Variable(12));
}

#[test]
fn total_length_ignores_fields_below_a_variable_ancestor() {
    let mut registry = ProtocolRegistry::new();
    with_proto(with_proto(&mut registry, "P", None), "C", Some("P".to_string()));
    registry
        .edit_protocol("P", |p: &mut Protocol| {
            add_fixed(p, "a", 8)?;
            add_variable(p, "body")
        })
        .unwrap();
    registry.edit_protocol("C", |p: &mut Protocol| add_fixed(p, "b", 16)).unwrap();
    assert_eq!(registry.get_total_length("C"), ProtocolLength::Variable(8));
    assert_eq!(registry.get_total_length("missing"), ProtocolLength::Fixed(0));
}

#[test]
fn create_protocol_errors_name_their_cause() {
    let mut registry = ProtocolRegistry::new();
    with_proto(&mut registry, "a", None);
    assert_eq!(
        registry.create_protocol("a", None, Endianness::Big, None),
        Err(ProtocolError::DuplicateProtocolId)
    );
    assert_eq!(
        registry.create_protocol("b", None, Endianness::Big, Some("nope".to_string())),
        Err(ProtocolError::ParentNotFound)
    );
    assert_eq!(registry.len(), 1);
    let created = registry
        .create_protocol("c", Some("C".to_string()), Endianness::Little, Some("a".to_string()));
    assert_eq!(created, Ok(()));
    let c = registry.get_protocol("c").unwrap();
    assert_eq!(c.endianness, Endianness::Little);
    assert_eq!(c.name.as_deref(), Some("C"));
    assert_eq!(c.length, ProtocolLength::Fixed(0));
}

#[test]
fn remove_protocol_takes_the_subtree_and_nothing_else() {
    let mut registry = ProtocolRegistry::new();
    with_proto(&mut registry, "a", None);
    with_proto(&mut registry, "b", Some("a".to_string()));
    with_proto(&mut registry, "d", None);
    with_proto(&mut registry, "c", Some("b".to_string()));
    with_proto(&mut registry, "e", Some("d".to_string()));
    with_proto(&mut registry, "f", Some("a".to_string()));
    assert_eq!(registry.remove_protocol("a"), Ok(()));
    assert_eq!(registry.len(), 2);
    for gone in ["a", "b", "c", "f"] {
        assert!(registry.get_protocol(gone).is_none());
    }
    assert!(registry.get_protocol("d").is_some());
    assert_eq!(parent_of(&registry, "e").as_deref(), Some("d"));
}

#[test]
fn remove_protocol_missing_is_an_error() {
    let mut registry = ProtocolRegistry::new();
    with_proto(&mut registry, "a", None);
    assert_eq!(registry.remove_protocol("zz"), Err(ProtocolError::ProtocolNotFound));
    assert_eq!(registry.len(), 1);
}

#[test]
fn remove_leaf_keeps_its_ancestors() {
    let mut registry = ProtocolRegistry::new();
    with_proto(with_proto(&mut registry, "a", None), "b", Some("a".to_string()));
    registry.remove_protocol("b").unwrap();
    assert_eq!(registry.len(), 1);
    assert!(registry.get_protocol("a").is_some());
}

#[test]
fn rename_leaves_grandchildren_alone() {
    let mut registry = ProtocolRegistry::new();
    with_proto(&mut registry, "g", None);
    with_proto(&mut registry, "p", Some("g".to_string()));
    with_proto(&mut registry, "c", Some("p".to_string()));
    registry.update_protocol_id("g", "root").unwrap();
    assert_eq!(parent_of(&registry, "p").as_deref(), Some("root"));
    assert_eq!(parent_of(&registry, "c").as_deref(), Some("p"));
    assert_eq!(registry.get_protocol("root").unwrap().id, "root");
    let chain = registry.get_inheritance_chain("c");
    assert_eq!(chain.len(), 3);
    assert_eq!(chain[0].id, "root");
}

#[test]
fn rename_errors_name_their_cause() {
    let mut registry = ProtocolRegistry::new();
    with_proto(with_proto(&mut registry, "a", None), "b", None);
    assert_eq!(registry.update_protocol_id("a", "b"), Err(ProtocolError::DuplicateProtocolId));
    assert_eq!(registry.update_protocol_id("x", "y"), Err(ProtocolError::ProtocolNotFound));
    assert_eq!(registry.update_protocol_id("a", "a"), Ok(()));
    assert!(registry.get_protocol("a").is_some());
}

#[test]
fn edit_protocol_rolls_back_everything_on_a_parent_change() {
    let mut registry = ProtocolRegistry::new();
    with_proto(with_proto(&mut registry, "a", None), "b", None);
    let result = registry.edit_protocol("b", |p: &mut Protocol| {
        p.name = Some("B".to_string());
        p.description = Some("about b".to_string());
        add_fixed(p, "x", 8)?;
        p.parent_id = Some("a".to_string());
        Ok(())
    });
    assert_eq!(result, Err(ProtocolError::ParentImmutable));
    let b = registry.get_protocol("b").unwrap();
    assert_eq!(b.name, None);
    assert_eq!(b.description, None);
    assert!(b.fields.is_empty());
    assert_eq!(b.length, ProtocolLength::Fixed(0));
}

#[test]
fn edit_protocol_errors_name_their_cause() {
    let mut registry = ProtocolRegistry::new();
    with_proto(&mut registry, "a", None);
    let renamed = registry.edit_protocol("a", |p: &mut Protocol| {
        p.id = "z".to_string();
        Ok(())
    });
    assert_eq!(renamed, Err(ProtocolError::ProtocolIdImmutableHere));
    let failed = registry.edit_protocol("a", |_p: &mut Protocol| Err("bad".to_string()));
    assert_eq!(failed, Err(ProtocolError::MutatorFailed("bad".to_string())));
    let missing = registry.edit_protocol("zz", |_p: &mut Protocol| Ok(()));
    assert_eq!(missing, Err(ProtocolError::ProtocolNotFound));
    let dup = registry.edit_protocol("a", |p: &mut Protocol| {
        p.fields.push(FieldRule::new("x", FieldType::Input, FieldLength::Fixed(1)));
        p.fields.push(FieldRule::new("x", FieldType::Input, FieldLength::Fixed(1)));
        Ok(())
    });
    assert_eq!(dup, Err(ProtocolError::InvalidFields));
    let wide = registry.edit_protocol("a", |p: &mut Protocol| {
        p.fields.push(FieldRule::new("x", FieldType::Input, FieldLength::Fixed(u32::MAX)));
        p.fields.push(FieldRule::new("y", FieldType::Input, FieldLength::Fixed(1)));
        Ok(())
    });
    assert_eq!(wide, Err(ProtocolError::LengthOverflow));
    assert!(registry.get_protocol("a").unwrap().fields.is_empty());
}

#[test]
fn edit_protocol_derives_the_length_again() {
    let mut registry = ProtocolRegistry::new();
    with_proto(&mut registry, "a", None);
    registry
        .edit_protocol("a", |p: &mut Protocol| {
            p.fields.push(FieldRule::new("x", FieldType::Input, FieldLength::Fixed(5)));
            p.length = ProtocolLength::Fixed(99);
            Ok(())
        })
        .unwrap();
    assert_eq!(registry.get_protocol("a").unwrap().length, ProtocolLength::Fixed(5));
}

#[test]
fn resolve_fields_concatenates_root_first() {
    let mut registry = ProtocolRegistry::new();
    with_proto(with_proto(&mut registry, "P", None), "C", Some("P".to_string()));
    registry
        .edit_protocol("P", |p: &mut Protocol| {
            add_fixed(p, "a", 8)?;
            add_fixed(p, "b", 8)
        })
        .unwrap();
    registry
        .edit_protocol("C", |p: &mut Protocol| {
            add_fixed(p, "a", 4)?;
            add_fixed(p, "c", 4)
        })
        .unwrap();
    let fields = registry.resolve_fields("C").unwrap();
    let ids: Vec<&str> = fields.iter().map(|f| f.id.as_str()).collect();
    assert_eq!(ids, vec!["a", "b", "a", "c"]);
    assert_eq!(fields[2].length, FieldLength::Fixed(4));
    assert_eq!(registry.resolve_fields("zz"), Err(ProtocolError::ProtocolNotFound));
}

#[test]
fn chain_of_missing_protocol_is_empty() {
    let mut registry = ProtocolRegistry::new();
    with_proto(&mut registry, "a", None);
    assert!(registry.get_inheritance_chain("zz").is_empty());
    let chain = registry.get_inheritance_chain("a");
    assert_eq!(chain.len(), 1);
    assert_eq!(chain[0].id, "a");
}
