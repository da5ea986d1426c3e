//! Packets: one value per field of a resolved field list.

use vstd::prelude::*;
use crate::field::{Field, FieldRule};
use crate::protocol::ProtocolError;

verus! {

/// An instance of a protocol: a byte value for each of its resolved fields, in
/// order, addressed by position.
pub struct Packet {
    pub protocol_id: String,
    pub field_values: Vec<Field>,
}

impl Packet {
    /// One empty value per rule, in the rules' order, none ignoring its rule.
    pub fn new(protocol_id: &str, field_rules: Vec<FieldRule>) -> (r: Self)
        ensures
            r.protocol_id@ == protocol_id@,
            r.field_values@.len() == field_rules@.len(),
            forall|i: int|
                0 <= i < field_rules@.len() ==> {
                    &&& (#[trigger] r.field_values@[i]).rule_id@ == field_rules@[i].id@
                    &&& r.field_values@[i].value@ == Seq::<u8>::empty()
                    &&& !r.field_values@[i].ignore_rules
                },
    {
        let mut field_values: Vec<Field> = Vec::new();
        let mut i: usize = 0;
        while i < field_rules.len()
            invariant
                i <= field_rules.len(),
                field_values@.len() == i,
                forall|t: int|
                    0 <= t < i ==> {
                        &&& (#[trigger] field_values@[t]).rule_id@ == field_rules@[t].id@
                        &&& field_values@[t].value@ == Seq::<u8>::empty()
                        &&& !field_values@[t].ignore_rules
                    },
            decreases field_rules.len() - i,
        {
            let empty: Vec<u8> = Vec::new();
            field_values.push(Field::new(field_rules[i].id.as_str(), empty, false));
            i += 1;
        }
        Packet { protocol_id: protocol_id.to_owned(), field_values }
    }

    /// Replaces the value at `index`.
    pub fn set_field_value(&mut self, index: usize, value: Vec<u8>) -> (r: Result<(), ProtocolError>)
        ensures
            index >= old(self).field_values@.len() ==> r == Err::<(), ProtocolError>(ProtocolError::IndexOutOfRange)
                && *final(self) == *old(self),
            index < old(self).field_values@.len() ==> r is Ok && final(self).protocol_id == old(self).protocol_id
                && final(self).field_values@ == old(self).field_values@.update(
                index as int,
                Field { value, ..old(self).field_values@[index as int] },
            ),
    {
        if index >= self.field_values.len() {
            return Err(ProtocolError::IndexOutOfRange);
        }
        let ghost before = self.field_values@;
        let mut field = self.field_values.remove(index);
        field.set_value(value);
        self.field_values.insert(index, field);
        assert(self.field_values@ =~= before.update(index as int, Field { value, ..before[index as int] }));
        Ok(())
    }

    /// Whether every field has a non-empty value.
    pub fn is_complete(&self) -> (r: bool)
        ensures
            r == forall|i: int| 0 <= i < self.field_values@.len() ==> (#[trigger] self.field_values@[i]).value@.len() > 0,
    {
        let mut i: usize = 0;
        while i < self.field_values.len()
            invariant
                i <= self.field_values.len(),
                forall|t: int| 0 <= t < i ==> (#[trigger] self.field_values@[t]).value@.len() > 0,
            decreases self.field_values.len() - i,
        {
            if self.field_values[i].value.len() == 0 {
                return false;
            }
            i += 1;
        }
        true
    }
}

} // verus!
