//! Field rules: the schema of one field of a protocol.

use vstd::prelude::*;

verus! {

/// A string option seen as an option of character sequences.
pub open spec fn opt_view(o: Option<String>) -> Option<Seq<char>> {
    match o {
        Some(s) => Some(s@),
        None => None,
    }
}

pub(crate) fn clone_opt_string(o: &Option<String>) -> (r: Option<String>)
    ensures
        r == *o,
{
    match o {
        Some(s) => Some(s.clone()),
        None => None,
    }
}

pub(crate) fn opt_string_eq(a: &Option<String>, b: &Option<String>) -> (r: bool)
    ensures
        r == (opt_view(*a) == opt_view(*b)),
{
    match (a, b) {
        (Some(x), Some(y)) => *x == *y,
        (None, None) => true,
        _ => false,
    }
}

/// One named value of an enumerated field.
#[derive(PartialEq, Debug)]
pub struct EnumVariant {
    pub value: i128,
    pub name: Option<String>,
    pub description: Option<String>,
}

impl Clone for EnumVariant {
    fn clone(&self) -> (r: Self)
        ensures
            r == *self,
    {
        EnumVariant {
            value: self.value,
            name: clone_opt_string(&self.name),
            description: clone_opt_string(&self.description),
        }
    }
}

/// What a field holds.
#[derive(PartialEq, Debug)]
pub enum FieldType {
    /// Always the given constant.
    Fixed(i128),
    /// One of the listed values.
    Enum(Vec<EnumVariant>),
    /// A value in `[min, max]`, read as signed or unsigned.
    Range { min: i128, max: i128, is_signed: bool },
    /// A value computed from a script at encode time.
    Expr(String),
    /// A value supplied by the user when a packet is built.
    Input,
}

/// The mathematical content of a `FieldType`.
pub enum FieldTypeView {
    Fixed(i128),
    Enum(Seq<EnumVariant>),
    Range { min: i128, max: i128, is_signed: bool },
    Expr(Seq<char>),
    Input,
}

impl View for FieldType {
    type V = FieldTypeView;

    open spec fn view(&self) -> FieldTypeView {
        match self {
            FieldType::Fixed(v) => FieldTypeView::Fixed(*v),
            FieldType::Enum(vs) => FieldTypeView::Enum(vs@),
            FieldType::Range { min, max, is_signed } => FieldTypeView::Range {
                min: *min,
                max: *max,
                is_signed: *is_signed,
            },
            FieldType::Expr(s) => FieldTypeView::Expr(s@),
            FieldType::Input => FieldTypeView::Input,
        }
    }
}

fn clone_variants(vs: &Vec<EnumVariant>) -> (r: Vec<EnumVariant>)
    ensures
        r@ == vs@,
{
    let mut out: Vec<EnumVariant> = Vec::new();
    let mut i: usize = 0;
    while i < vs.len()
        invariant
            i <= vs.len(),
            out@ == vs@.subrange(0, i as int),
        decreases vs.len() - i,
    {
        out.push(vs[i].clone());
        i += 1;
        assert(out@ =~= vs@.subrange(0, i as int));
    }
    assert(vs@.subrange(0, vs.len() as int) =~= vs@);
    out
}

impl Clone for FieldType {
    fn clone(&self) -> (r: Self)
        ensures
            r@ == self@,
    {
        match self {
            FieldType::Fixed(v) => FieldType::Fixed(*v),
            FieldType::Enum(vs) => FieldType::Enum(clone_variants(vs)),
            FieldType::Range { min, max, is_signed } => FieldType::Range {
                min: *min,
                max: *max,
                is_signed: *is_signed,
            },
            FieldType::Expr(s) => FieldType::Expr(s.clone()),
            FieldType::Input => FieldType::Input,
        }
    }
}

/// The width of a field.
#[derive(Clone, Copy, PartialEq, Eq, Structural, Debug)]
pub enum FieldLength {
    /// A fixed number of bits.
    Fixed(u32),
    /// A length known only from the data; `add_field` appends nothing after it.
    Variable,
}

/// The schema of one field: its identity, type, width and description.
#[derive(PartialEq, Debug)]
pub struct FieldRule {
    pub id: String,
    pub name: Option<String>,
    pub field_type: FieldType,
    pub length: FieldLength,
    pub description: Option<String>,
}

/// The mathematical content of a `FieldRule`.
pub struct FieldRuleView {
    pub id: Seq<char>,
    pub name: Option<Seq<char>>,
    pub field_type: FieldTypeView,
    pub length: FieldLength,
    pub description: Option<Seq<char>>,
}

impl View for FieldRule {
    type V = FieldRuleView;

    open spec fn view(&self) -> FieldRuleView {
        FieldRuleView {
            id: self.id@,
            name: opt_view(self.name),
            field_type: self.field_type@,
            length: self.length,
            description: opt_view(self.description),
        }
    }
}

impl Clone for FieldRule {
    fn clone(&self) -> (r: Self)
        ensures
            r@ == self@,
    {
        FieldRule {
            id: self.id.clone(),
            name: clone_opt_string(&self.name),
            field_type: self.field_type.clone(),
            length: self.length,
            description: clone_opt_string(&self.description),
        }
    }
}

impl FieldRule {
    /// A rule with the given identity, type and width, and no name or description.
    pub fn new(id: &str, field_type: FieldType, length: FieldLength) -> (r: Self)
        ensures
            r@ == (FieldRuleView {
                id: id@,
                name: None,
                field_type: field_type@,
                length,
                description: None,
            }),
    {
        FieldRule { id: id.to_owned(), name: None, field_type, length, description: None }
    }
}

impl Default for FieldRule {
    /// The rule `new_field`: the constant 0 over 8 bits.
    fn default() -> (r: Self)
        ensures
            r@ == (FieldRuleView {
                id: "new_field"@,
                name: None,
                field_type: FieldTypeView::Fixed(0),
                length: FieldLength::Fixed(8),
                description: None,
            }),
    {
        FieldRule {
            id: "new_field".to_owned(),
            name: None,
            field_type: FieldType::Fixed(0),
            length: FieldLength::Fixed(8),
            description: None,
        }
    }
}

/// The value of one field in a packet.
pub struct Field {
    pub rule_id: String,
    pub value: Vec<u8>,
    pub ignore_rules: bool,
}

impl Field {
    pub fn new(rule_id: &str, value: Vec<u8>, ignore_rules: bool) -> (r: Self)
        ensures
            r.rule_id@ == rule_id@,
            r.value == value,
            r.ignore_rules == ignore_rules,
    {
        Field { rule_id: rule_id.to_owned(), value, ignore_rules }
    }

    pub fn set_value(&mut self, value: Vec<u8>)
        ensures
            *final(self) == (Field { value, ..*old(self) }),
    {
        self.value = value;
    }
}

} // verus!
