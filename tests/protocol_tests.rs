use bitloom::field::{FieldLength, FieldRule, FieldType};
use bitloom::protocol::{Endianness, Protocol, ProtocolError, ProtocolLength};

fn test_protocol() -> Protocol {
    Protocol::new("test_proto", None, Endianness::Big, None)
}

fn with_f<'a>(proto: &'a mut Protocol, field_id: &str, field_len: u32) -> &'a mut Protocol {
    let field = FieldRule::new(field_id, FieldType::Fixed(0), FieldLength::Fixed(field_len));
    proto.add_field(field).unwrap();
    proto
}

fn ids(proto: &Protocol) -> Vec<String> {
    proto.fields.iter().map(|f| f.id.clone()).collect()
}

#[test]
fn test_add_field_success() {
    let mut proto = test_protocol();
    let field1 = FieldRule::new("field1", FieldType::Fixed(0), FieldLength::Fixed(8));

    assert!(proto.add_field(field1).is_ok());
    assert_eq!(proto.fields.len(), 1);
}

#[test]
fn test_add_field_duplicate_id() {
    let mut proto = test_protocol();

    with_f(&mut proto, "field1", 8);
    assert_eq!(proto.fields.len(), 1);

    let field2 = FieldRule::new("field1", FieldType::Fixed(0), FieldLength::Fixed(16));
    assert!(proto.add_field(field2).is_err());
    assert_eq!(proto.fields.len(), 1);
}

#[test]
fn test_add_field_after_variable_length_field() {
    let mut proto = test_protocol();
    let field1 = FieldRule::new("field1", FieldType::Input, FieldLength::Variable);
    let field2 = FieldRule::new("field2", FieldType::Fixed(0), FieldLength::Fixed(16));

    assert!(proto.add_field(field1).is_ok());
    assert_eq!(proto.fields.len(), 1);
    assert!(proto.add_field(field2).is_err());
    assert_eq!(proto.fields.len(), 1);
}

#[test]
fn test_remove_field_success() {
    let mut proto = test_protocol();
    with_f(&mut proto, "field1", 8);

    assert!(proto.remove_field("field1").is_ok());
    assert_eq!(proto.fields.len(), 0);
}

#[test]
fn test_remove_field_not_found() {
    let mut proto = test_protocol();
    with_f(&mut proto, "field1", 8);

    assert!(proto.remove_field("nonexistent_field").is_err());
    assert_eq!(proto.fields.len(), 1);
}

#[test]
fn test_move_field_success() {
    let mut proto = test_protocol();
    with_f(with_f(with_f(&mut proto, "field1", 8), "field2", 16), "field3", 32);

    proto.move_field("field3", 0).unwrap();
    assert_eq!(proto.fields[0].id, "field3");
    assert_eq!(proto.fields[1].id, "field1");
    assert_eq!(proto.fields[2].id, "field2");
}

#[test]
fn test_move_field_not_found() {
    let mut proto = test_protocol();
    with_f(with_f(with_f(&mut proto, "field1", 8), "field2", 16), "field3", 32);

    assert!(proto.move_field("nonexistent_field", 1).is_err());
}

#[test]
fn test_move_field_out_of_bounds() {
    let mut proto = test_protocol();
    with_f(with_f(with_f(&mut proto, "field1", 8), "field2", 16), "field3", 32);

    proto.move_field("field1", 10).unwrap();
    assert_eq!(proto.fields[0].id, "field2");
    assert_eq!(proto.fields[1].id, "field3");
    assert_eq!(proto.fields[2].id, "field1");
}

#[test]
fn test_update_field_id_success() {
    let mut proto = test_protocol();
    with_f(&mut proto, "field1", 8);

    assert!(proto.update_field_id("field1", "field2").is_ok());
    assert_eq!(proto.fields[0].id, "field2");
}

#[test]
fn test_update_field_id_duplicate() {
    let mut proto = test_protocol();
    with_f(with_f(&mut proto, "field1", 8), "field2", 16);

    assert!(proto.update_field_id("field1", "field2").is_err());
    assert_eq!(proto.fields[0].id, "field1");
}

#[test]
fn test_edit_field_success() {
    let mut proto = test_protocol();
    with_f(&mut proto, "field1", 8);

    let result = proto.edit_field("field1", |f: &mut FieldRule| {
        f.length = FieldLength::Fixed(16);
        Ok(())
    });

    assert!(result.is_ok());
    assert_eq!(proto.fields[0].length, FieldLength::Fixed(16));
}

#[test]
fn test_edit_field_id_change_attempt() {
    let mut proto = test_protocol();
    with_f(&mut proto, "field1", 8);

    let result = proto.edit_field("field1", |f: &mut FieldRule| {
        f.id = "new_field_id".to_string();
        f.length = FieldLength::Fixed(16);
        Ok(())
    });

    assert!(result.is_err());
    assert_eq!(proto.fields[0].id, "field1");
    assert!(proto.fields[0].length == FieldLength::Fixed(8));
}

#[test]
fn test_protocol_length_calculation() {
    let mut proto = test_protocol();
    with_f(with_f(with_f(&mut proto, "field1", 8), "field2", 12), "field3", 4);

    assert_eq!(proto.length, ProtocolLength::Fixed(24));

    let var_field = FieldRule::new("field4", FieldType::Input, FieldLength::Variable);
    proto.add_field(var_field).unwrap();

    assert_eq!(proto.length, ProtocolLength::Variable(24));
}

#[test]
fn test_empty_protocol_length() {
    let proto = test_protocol();
    assert_eq!(proto.length, ProtocolLength::Fixed(0));
}

#[test]
fn add_field_errors_name_their_cause() {
    let mut proto = test_protocol();
    with_f(&mut proto, "a", 8);
    let dup = FieldRule::new("a", FieldType::Input, FieldLength::Fixed(1));
    assert_eq!(proto.add_field(dup), Err(ProtocolError::DuplicateFieldId));
    proto.add_field(FieldRule::new("tail", FieldType::Input, FieldLength::Variable)).unwrap();
    let after = FieldRule::new("b", FieldType::Input, FieldLength::Fixed(1));
    assert_eq!(proto.add_field(after), Err(ProtocolError::VariableFieldNotLast));
    assert_eq!(ids(&proto), vec!["a".to_string(), "tail".to_string()]);
}

#[test]
fn add_field_refuses_widths_past_32_bits() {
    let mut proto = test_protocol();
    with_f(&mut proto, "big", u32::MAX);
    let one = FieldRule::new("one", FieldType::Input, FieldLength::Fixed(1));
    assert_eq!(proto.add_field(one), Err(ProtocolError::LengthOverflow));
    assert_eq!(proto.fields.len(), 1);
    assert_eq!(proto.length, ProtocolLength::Fixed(u32::MAX));
}

#[test]
fn duplicate_add_leaves_fields_and_length_unchanged() {
    let mut proto = test_protocol();
    with_f(with_f(&mut proto, "a", 3), "b", 5);
    let dup = FieldRule::new("b", FieldType::Input, FieldLength::Variable);
    assert!(proto.add_field(dup).is_err());
    assert_eq!(ids(&proto), vec!["a".to_string(), "b".to_string()]);
    assert_eq!(proto.fields[1].length, FieldLength::Fixed(5));
    assert_eq!(proto.length, ProtocolLength::Fixed(8));
}

#[test]
fn remove_field_keeps_order_and_recomputes_length() {
    let mut proto = test_protocol();
    with_f(with_f(with_f(&mut proto, "a", 1), "b", 2), "c", 4);
    proto.remove_field("b").unwrap();
    assert_eq!(ids(&proto), vec!["a".to_string(), "c".to_string()]);
    assert_eq!(proto.length, ProtocolLength::Fixed(5));
    assert_eq!(proto.remove_field("b"), Err(ProtocolError::FieldNotFound));
}

#[test]
fn move_field_to_the_middle() {
    let mut proto = test_protocol();
    with_f(with_f(with_f(&mut proto, "a", 1), "b", 2), "c", 4);
    proto.move_field("a", 1).unwrap();
    assert_eq!(ids(&proto), vec!["b".to_string(), "a".to_string(), "c".to_string()]);
    assert_eq!(proto.length, ProtocolLength::Fixed(7));
}

#[test]
fn move_field_to_exactly_the_length_goes_last() {
    let mut proto = test_protocol();
    with_f(with_f(&mut proto, "a", 1), "b", 2);
    proto.move_field("a", 2).unwrap();
    assert_eq!(ids(&proto), vec!["b".to_string(), "a".to_string()]);
}

#[test]
fn moving_the_variable_field_forward_shortens_the_prefix() {
    let mut proto = test_protocol();
    with_f(with_f(&mut proto, "a", 8), "b", 4);
    proto.add_field(FieldRule::new("v", FieldType::Input, FieldLength::Variable)).unwrap();
    assert_eq!(proto.length, ProtocolLength::Variable(12));
    proto.move_field("v", 1).unwrap();
    assert_eq!(proto.length, ProtocolLength::Variable(8));
}

#[test]
fn update_field_id_same_id_and_missing_id() {
    let mut proto = test_protocol();
    with_f(&mut proto, "a", 1);
    assert_eq!(proto.update_field_id("a", "a"), Ok(()));
    assert_eq!(proto.update_field_id("zz", "b"), Err(ProtocolError::FieldNotFound));
    assert_eq!(proto.update_field_id("a", "a"), Ok(()));
    assert_eq!(ids(&proto), vec!["a".to_string()]);
}

#[test]
fn edit_field_failure_rolls_back_every_change() {
    let mut proto = test_protocol();
    with_f(&mut proto, "a", 8);
    let result = proto.edit_field("a", |f: &mut FieldRule| {
        f.name = Some("Alpha".to_string());
        f.length = FieldLength::Fixed(2);
        Err("no".to_string())
    });
    assert_eq!(result, Err(ProtocolError::MutatorFailed("no".to_string())));
    assert_eq!(proto.fields[0].name, None);
    assert_eq!(proto.fields[0].length, FieldLength::Fixed(8));
    assert_eq!(proto.length, ProtocolLength::Fixed(8));
}

#[test]
fn edit_field_id_change_is_named() {
    let mut proto = test_protocol();
    with_f(&mut proto, "a", 8);
    let result = proto.edit_field("a", |f: &mut FieldRule| {
        f.id = "b".to_string();
        Ok(())
    });
    assert_eq!(result, Err(ProtocolError::FieldIdImmutableHere));
    let missing = proto.edit_field("zz", |_f: &mut FieldRule| Ok(()));
    assert_eq!(missing, Err(ProtocolError::FieldNotFound));
}

#[test]
fn edit_field_to_variable_recomputes_length() {
    let mut proto = test_protocol();
    with_f(with_f(&mut proto, "a", 8), "b", 4);
    proto
        .edit_field("b", |f: &mut FieldRule| {
            f.length = FieldLength::Variable;
            f.field_type = FieldType::Input;
            Ok(())
        })
        .unwrap();
    assert_eq!(proto.length, ProtocolLength::Variable(8));
    assert_eq!(proto.fields[1].field_type, FieldType::Input);
}

#[test]
fn edit_field_overflow_is_refused() {
    let mut proto = test_protocol();
    with_f(with_f(&mut proto, "a", u32::MAX - 1), "b", 1);
    let result = proto.edit_field("b", |f: &mut FieldRule| {
        f.length = FieldLength::Fixed(2);
        Ok(())
    });
    assert_eq!(result, Err(ProtocolError::LengthOverflow));
    assert_eq!(proto.fields[1].length, FieldLength::Fixed(1));
}

#[test]
fn metadata_replaces_and_appends() {
    let mut proto = test_protocol();
    proto.update_metadata("author", "ana");
    proto.update_metadata("rev", "1");
    proto.update_metadata("author", "bo");
    assert_eq!(
        proto.metadata,
        vec![("author".to_string(), "bo".to_string()), ("rev".to_string(), "1".to_string())]
    );
}

#[test]
fn parent_constraints_replace_and_append() {
    let mut proto = test_protocol();
    proto.set_parent_constraint("type", 3);
    proto.set_parent_constraint("flag", -1);
    proto.set_parent_constraint("type", 7);
    assert_eq!(
        proto.parent_constraints,
        vec![("type".to_string(), 7), ("flag".to_string(), -1)]
    );
}

#[test]
fn new_protocol_keeps_its_arguments() {
    let proto = Protocol::new("p", Some("P".to_string()), Endianness::Little, Some("q".to_string()));
    assert_eq!(proto.id, "p");
    assert_eq!(proto.name.as_deref(), Some("P"));
    assert_eq!(proto.endianness, Endianness::Little);
    assert_eq!(proto.parent_id.as_deref(), Some("q"));
    assert!(proto.fields.is_empty());
    assert_eq!(Endianness::default(), Endianness::Big);
}
