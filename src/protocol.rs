//! Protocols: an ordered list of field rules with a derived total length.

use vstd::prelude::*;
use crate::field::{clone_opt_string, opt_view, FieldLength, FieldRule, FieldRuleView};

verus! {

/// Byte order used when values are packed.
#[derive(Clone, Copy, PartialEq, Eq, Structural, Debug)]
pub enum Endianness {
    Big,
    Little,
}

impl Default for Endianness {
    fn default() -> (r: Self)
        ensures
            r == Endianness::Big,
    {
        Endianness::Big
    }
}

/// The length of a protocol in bits.
#[derive(Clone, Copy, PartialEq, Eq, Structural, Debug)]
pub enum ProtocolLength {
    /// Every field has a fixed width; the total in bits.
    Fixed(u32),
    /// A variable-length field is present; the fixed bits before it.
    Variable(u32),
}

/// Why an operation on protocols, registries or packets was refused.
#[derive(PartialEq, Debug)]
pub enum ProtocolError {
    DuplicateFieldId,
    FieldNotFound,
    VariableFieldNotLast,
    FieldIdImmutableHere,
    /// The caller's edit reported failure with this message.
    MutatorFailed(String),
    /// The fixed widths of a protocol's fields would not fit in 32 bits.
    LengthOverflow,
    DuplicateProtocolId,
    ProtocolNotFound,
    ParentNotFound,
    ProtocolIdImmutableHere,
    ParentImmutable,
    /// An edit left duplicate field ids behind.
    InvalidFields,
    IndexOutOfRange,
}

/// The bits a field of this width contributes to a fixed total.
pub open spec fn bits_of(l: FieldLength) -> int {
    match l {
        FieldLength::Fixed(b) => b as int,
        FieldLength::Variable => 0,
    }
}

/// The sum of the fixed widths of all the fields.
pub open spec fn fixed_sum(fs: Seq<FieldRuleView>) -> int
    decreases fs.len(),
{
    if fs.len() == 0 {
        0
    } else {
        fixed_sum(fs.drop_last()) + bits_of(fs.last().length)
    }
}

/// The layout of fields in wire order: whether a variable-length field occurs, and
/// the fixed bits before the first such field (all of them when there is none).
pub open spec fn layout(fs: Seq<FieldRuleView>) -> (bool, int)
    decreases fs.len(),
{
    if fs.len() == 0 {
        (false, 0)
    } else {
        let prev = layout(fs.drop_last());
        if prev.0 {
            prev
        } else {
            match fs.last().length {
                FieldLength::Fixed(b) => (false, prev.1 + b),
                FieldLength::Variable => (true, prev.1),
            }
        }
    }
}

/// The protocol length that a field sequence gives.
pub open spec fn length_of(fs: Seq<FieldRuleView>) -> ProtocolLength {
    let l = layout(fs);
    if l.0 {
        ProtocolLength::Variable(l.1 as u32)
    } else {
        ProtocolLength::Fixed(l.1 as u32)
    }
}

/// The fixed widths of the fields fit in a 32-bit count.
pub open spec fn fits(fs: Seq<FieldRuleView>) -> bool {
    fixed_sum(fs) <= u32::MAX
}

pub open spec fn has_field(fs: Seq<FieldRuleView>, id: Seq<char>) -> bool {
    exists|i: int| 0 <= i < fs.len() && fs[i].id == id
}

/// The position of the field with the given id.
pub open spec fn field_index(fs: Seq<FieldRuleView>, id: Seq<char>) -> int {
    choose|i: int| 0 <= i < fs.len() && fs[i].id == id
}

pub open spec fn unique_ids(fs: Seq<FieldRuleView>) -> bool {
    forall|i: int, j: int| 0 <= i < fs.len() && 0 <= j < fs.len() && i != j ==> fs[i].id != fs[j].id
}

/// No field but the last has a variable length.
pub open spec fn variable_only_last(fs: Seq<FieldRuleView>) -> bool {
    forall|i: int| 0 <= i < fs.len() - 1 ==> fs[i].length is Fixed
}

/// The position of the first entry with the given key, or -1.
pub open spec fn key_index<V>(m: Seq<(Seq<char>, V)>, k: Seq<char>) -> int
    decreases m.len(),
{
    if m.len() == 0 {
        -1
    } else {
        let p = key_index(m.drop_last(), k);
        if p >= 0 {
            p
        } else if m.last().0 == k {
            m.len() - 1
        } else {
            -1
        }
    }
}

/// Records `v` under `k`: the first entry with that key is replaced, or one is added.
pub open spec fn set_entry<V>(m: Seq<(Seq<char>, V)>, k: Seq<char>, v: V) -> Seq<(Seq<char>, V)> {
    let p = key_index(m, k);
    if p >= 0 {
        m.update(p, (k, v))
    } else {
        m.push((k, v))
    }
}

/// A protocol: identity, byte order, fields in wire order, derived length,
/// free-form metadata, and an optional parent with constraints on its fields.
#[derive(PartialEq, Debug)]
pub struct Protocol {
    pub id: String,
    pub name: Option<String>,
    pub endianness: Endianness,
    pub fields: Vec<FieldRule>,
    pub length: ProtocolLength,
    pub description: Option<String>,
    /// Key and value pairs; `update_metadata` keeps one per key.
    pub metadata: Vec<(String, String)>,
    pub parent_id: Option<String>,
    /// Values that the parent's fields must hold, keyed by field id;
    /// `set_parent_constraint` keeps one per key.
    pub parent_constraints: Vec<(String, i128)>,
}

/// The mathematical content of a `Protocol`.
pub struct ProtocolView {
    pub id: Seq<char>,
    pub name: Option<Seq<char>>,
    pub endianness: Endianness,
    pub fields: Seq<FieldRuleView>,
    pub length: ProtocolLength,
    pub description: Option<Seq<char>>,
    pub metadata: Seq<(Seq<char>, Seq<char>)>,
    pub parent_id: Option<Seq<char>>,
    pub parent_constraints: Seq<(Seq<char>, i128)>,
}

pub open spec fn rules_view(fs: Seq<FieldRule>) -> Seq<FieldRuleView> {
    fs.map_values(|f: FieldRule| f@)
}

impl View for Protocol {
    type V = ProtocolView;

    open spec fn view(&self) -> ProtocolView {
        ProtocolView {
            id: self.id@,
            name: opt_view(self.name),
            endianness: self.endianness,
            fields: rules_view(self.fields@),
            length: self.length,
            description: opt_view(self.description),
            metadata: self.metadata@.map_values(|e: (String, String)| (e.0@, e.1@)),
            parent_id: opt_view(self.parent_id),
            parent_constraints: self.parent_constraints@.map_values(|e: (String, i128)| (e.0@, e.1)),
        }
    }
}

/// A protocol whose fields have distinct ids, whose fixed widths fit in 32 bits,
/// and whose length is the one its fields give.
pub open spec fn well_formed(p: ProtocolView) -> bool {
    &&& unique_ids(p.fields)
    &&& fits(p.fields)
    &&& p.length == length_of(p.fields)
}

proof fn lemma_fixed_sum_concat(a: Seq<FieldRuleView>, b: Seq<FieldRuleView>)
    ensures
        fixed_sum(a + b) == fixed_sum(a) + fixed_sum(b),
    decreases b.len(),
{
    if b.len() == 0 {
        assert(a + b =~= a);
    } else {
        assert((a + b).drop_last() =~= a + b.drop_last());
        lemma_fixed_sum_concat(a, b.drop_last());
    }
}

proof fn lemma_fixed_sum_nonneg(fs: Seq<FieldRuleView>)
    ensures
        fixed_sum(fs) >= 0,
        0 <= layout(fs).1 <= fixed_sum(fs),
    decreases fs.len(),
{
    if fs.len() > 0 {
        lemma_fixed_sum_nonneg(fs.drop_last());
    }
}

proof fn lemma_fixed_sum_prefix(fs: Seq<FieldRuleView>, i: int)
    requires
        0 <= i <= fs.len(),
    ensures
        0 <= fixed_sum(fs.subrange(0, i)) <= fixed_sum(fs),
{
    assert(fs =~= fs.subrange(0, i) + fs.subrange(i, fs.len() as int));
    lemma_fixed_sum_concat(fs.subrange(0, i), fs.subrange(i, fs.len() as int));
    lemma_fixed_sum_nonneg(fs.subrange(0, i));
    lemma_fixed_sum_nonneg(fs.subrange(i, fs.len() as int));
}

proof fn lemma_fixed_sum_remove(fs: Seq<FieldRuleView>, i: int)
    requires
        0 <= i < fs.len(),
    ensures
        fixed_sum(fs.remove(i)) == fixed_sum(fs) - bits_of(fs[i].length),
{
    let a = fs.subrange(0, i);
    let c = fs.subrange(i + 1, fs.len() as int);
    assert(fs =~= (a + seq![fs[i]]) + c);
    assert(fs.remove(i) =~= a + c);
    lemma_fixed_sum_concat(a + seq![fs[i]], c);
    lemma_fixed_sum_concat(a, seq![fs[i]]);
    lemma_fixed_sum_concat(a, c);
    assert(seq![fs[i]].drop_last() =~= Seq::<FieldRuleView>::empty());
    assert(fixed_sum(seq![fs[i]]) == fixed_sum(Seq::<FieldRuleView>::empty()) + bits_of(fs[i].length));
}

proof fn lemma_fixed_sum_insert(fs: Seq<FieldRuleView>, j: int, x: FieldRuleView)
    requires
        0 <= j <= fs.len(),
    ensures
        fixed_sum(fs.insert(j, x)) == fixed_sum(fs) + bits_of(x.length),
{
    let a = fs.subrange(0, j);
    let c = fs.subrange(j, fs.len() as int);
    assert(fs =~= a + c);
    assert(fs.insert(j, x) =~= (a + seq![x]) + c);
    lemma_fixed_sum_concat(a + seq![x], c);
    lemma_fixed_sum_concat(a, seq![x]);
    lemma_fixed_sum_concat(a, c);
    assert(seq![x].drop_last() =~= Seq::<FieldRuleView>::empty());
    assert(fixed_sum(seq![x]) == fixed_sum(Seq::<FieldRuleView>::empty()) + bits_of(x.length));
}

proof fn lemma_key_index_prefix<V>(m: Seq<(Seq<char>, V)>, k: Seq<char>, i: int)
    requires
        0 <= i <= m.len(),
        key_index(m.subrange(0, i), k) >= 0,
    ensures
        key_index(m, k) == key_index(m.subrange(0, i), k),
    decreases m.len() - i,
{
    if i < m.len() {
        assert(m.subrange(0, i + 1).drop_last() =~= m.subrange(0, i));
        lemma_key_index_prefix(m, k, i + 1);
    } else {
        assert(m.subrange(0, i) =~= m);
    }
}

/// The sum of the fixed widths of the fields.
pub(crate) fn total_bits(fields: &Vec<FieldRule>) -> (r: u32)
    requires
        fits(rules_view(fields@)),
    ensures
        r == fixed_sum(rules_view(fields@)),
{
    let ghost v = rules_view(fields@);
    let mut sum: u32 = 0;
    let mut i: usize = 0;
    while i < fields.len()
        invariant
            v == rules_view(fields@),
            fits(v),
            i <= fields.len(),
            sum == fixed_sum(v.subrange(0, i as int)),
        decreases fields.len() - i,
    {
        proof {
            assert(v.subrange(0, i + 1).drop_last() =~= v.subrange(0, i as int));
            lemma_fixed_sum_prefix(v, i + 1);
        }
        match fields[i].length {
            FieldLength::Fixed(b) => {
                sum = sum + b;
            },
            FieldLength::Variable => {},
        }
        i += 1;
    }
    assert(v.subrange(0, i as int) =~= v);
    sum
}

/// Whether the fixed widths of the fields fit in 32 bits.
pub(crate) fn widths_fit(fields: &Vec<FieldRule>) -> (r: bool)
    ensures
        r == fits(rules_view(fields@)),
{
    let ghost v = rules_view(fields@);
    let mut sum: u32 = 0;
    let mut i: usize = 0;
    while i < fields.len()
        invariant
            v == rules_view(fields@),
            i <= fields.len(),
            sum == fixed_sum(v.subrange(0, i as int)),
        decreases fields.len() - i,
    {
        proof {
            assert(v.subrange(0, i + 1).drop_last() =~= v.subrange(0, i as int));
            lemma_fixed_sum_prefix(v, i + 1);
        }
        let b = width(fields[i].length);
        match sum.checked_add(b) {
            Some(t) => {
                sum = t;
            },
            None => {
                return false;
            },
        }
        i += 1;
    }
    assert(v.subrange(0, i as int) =~= v);
    true
}

/// Whether the fields have distinct ids.
pub(crate) fn distinct_ids(fields: &Vec<FieldRule>) -> (r: bool)
    ensures
        r == unique_ids(rules_view(fields@)),
{
    let ghost v = rules_view(fields@);
    let mut i: usize = 0;
    while i < fields.len()
        invariant
            v == rules_view(fields@),
            i <= fields.len(),
            forall|a: int, b: int| 0 <= a < i && 0 <= b < v.len() && a != b ==> v[a].id != v[b].id,
        decreases fields.len() - i,
    {
        let mut j: usize = 0;
        while j < fields.len()
            invariant
                v == rules_view(fields@),
                i < fields.len(),
                j <= fields.len(),
                forall|b: int| 0 <= b < j && i != b ==> v[i as int].id != v[b].id,
            decreases fields.len() - j,
        {
            if i != j && fields[i].id == fields[j].id {
                assert(v[i as int].id == v[j as int].id);
                return false;
            }
            j += 1;
        }
        i += 1;
    }
    true
}

fn width(l: FieldLength) -> (r: u32)
    ensures
        r == bits_of(l),
{
    match l {
        FieldLength::Fixed(b) => b,
        FieldLength::Variable => 0,
    }
}

/// The position of the field with the given id, if there is one.
fn find_field(fields: &Vec<FieldRule>, id: &String) -> (r: Option<usize>)
    ensures
        match r {
            Some(i) => i < fields.len() && rules_view(fields@)[i as int].id == id@,
            None => !has_field(rules_view(fields@), id@),
        },
{
    let mut i: usize = 0;
    while i < fields.len()
        invariant
            i <= fields.len(),
            forall|j: int| 0 <= j < i ==> rules_view(fields@)[j].id != id@,
        decreases fields.len() - i,
    {
        if fields[i].id == *id {
            return Some(i);
        }
        i += 1;
    }
    None
}

fn clone_rules(fs: &Vec<FieldRule>) -> (r: Vec<FieldRule>)
    ensures
        rules_view(r@) == rules_view(fs@),
{
    let mut out: Vec<FieldRule> = Vec::new();
    let mut i: usize = 0;
    while i < fs.len()
        invariant
            i <= fs.len(),
            rules_view(out@) == rules_view(fs@).subrange(0, i as int),
        decreases fs.len() - i,
    {
        let c = fs[i].clone();
        let ghost prev = out@;
        out.push(c);
        assert(rules_view(out@) =~= rules_view(prev).push(c@));
        i += 1;
        assert(rules_view(out@) =~= rules_view(fs@).subrange(0, i as int));
    }
    assert(rules_view(fs@).subrange(0, fs.len() as int) =~= rules_view(fs@));
    out
}

fn clone_metadata(m: &Vec<(String, String)>) -> (r: Vec<(String, String)>)
    ensures
        r@ == m@,
{
    let mut out: Vec<(String, String)> = Vec::new();
    let mut i: usize = 0;
    while i < m.len()
        invariant
            i <= m.len(),
            out@ == m@.subrange(0, i as int),
        decreases m.len() - i,
    {
        out.push((m[i].0.clone(), m[i].1.clone()));
        i += 1;
        assert(out@ =~= m@.subrange(0, i as int));
    }
    assert(m@.subrange(0, m.len() as int) =~= m@);
    out
}

fn clone_constraints(m: &Vec<(String, i128)>) -> (r: Vec<(String, i128)>)
    ensures
        r@ == m@,
{
    let mut out: Vec<(String, i128)> = Vec::new();
    let mut i: usize = 0;
    while i < m.len()
        invariant
            i <= m.len(),
            out@ == m@.subrange(0, i as int),
        decreases m.len() - i,
    {
        out.push((m[i].0.clone(), m[i].1));
        i += 1;
        assert(out@ =~= m@.subrange(0, i as int));
    }
    assert(m@.subrange(0, m.len() as int) =~= m@);
    out
}

impl Clone for Protocol {
    fn clone(&self) -> (r: Self)
        ensures
            r@ == self@,
    {
        Protocol {
            id: self.id.clone(),
            name: clone_opt_string(&self.name),
            endianness: self.endianness,
            fields: clone_rules(&self.fields),
            length: self.length,
            description: clone_opt_string(&self.description),
            metadata: clone_metadata(&self.metadata),
            parent_id: clone_opt_string(&self.parent_id),
            parent_constraints: clone_constraints(&self.parent_constraints),
        }
    }
}

/// What `edit_field` answers when the field at `i` was edited into `edited`,
/// the edit having returned `res`.
pub open spec fn edit_field_result(
    fs: Seq<FieldRuleView>,
    i: int,
    res: Result<(), String>,
    edited: FieldRuleView,
) -> Result<(), ProtocolError> {
    match res {
        Err(e) => Err(ProtocolError::MutatorFailed(e)),
        Ok(_) => if edited.id != fs[i].id {
            Err(ProtocolError::FieldIdImmutableHere)
        } else if !fits(fs.update(i, edited)) {
            Err(ProtocolError::LengthOverflow)
        } else {
            Ok(())
        },
    }
}

/// Once a variable-length field is present nothing can follow it, so a protocol
/// whose only variable-length field is the last keeps that shape through every
/// successful `add_field`.
pub proof fn law_variable_field_stays_last(fs: Seq<FieldRuleView>, rule: FieldRuleView)
    requires
        variable_only_last(fs),
        !has_field(fs, rule.id),
        !(fs.len() > 0 && fs.last().length is Variable),
        fits(fs.push(rule)),
    ensures
        variable_only_last(fs.push(rule)),
{
    let t = fs.push(rule);
    assert forall|i: int| 0 <= i < t.len() - 1 implies t[i].length is Fixed by {
        assert(t[i] == fs[i]);
    }
}

proof fn lemma_field_index(fs: Seq<FieldRuleView>, id: Seq<char>, i: int)
    requires
        unique_ids(fs),
        0 <= i < fs.len(),
        fs[i].id == id,
    ensures
        has_field(fs, id),
        field_index(fs, id) == i,
{
    let k = field_index(fs, id);
    assert(0 <= k < fs.len() && fs[k].id == id);
}

proof fn lemma_unique_remove(fs: Seq<FieldRuleView>, i: int)
    requires
        unique_ids(fs),
        0 <= i < fs.len(),
    ensures
        unique_ids(fs.remove(i)),
        !has_field(fs.remove(i), fs[i].id),
{
    let r = fs.remove(i);
    assert forall|a: int| 0 <= a < r.len() implies r[a] == (if a < i { fs[a] } else { fs[a + 1] }) by {}
}

proof fn lemma_unique_move(fs: Seq<FieldRuleView>, i: int, j: int)
    requires
        unique_ids(fs),
        0 <= i < fs.len(),
        0 <= j < fs.len(),
    ensures
        unique_ids(fs.remove(i).insert(j, fs[i])),
{
    let r = fs.remove(i);
    lemma_unique_remove(fs, i);
    let t = r.insert(j, fs[i]);
    assert forall|a: int| 0 <= a < t.len() implies t[a] == (if a < j { r[a] } else if a == j { fs[i] } else { r[a - 1] }) by {}
}

impl Protocol {
    /// An empty protocol of length `Fixed(0)` with no metadata and no constraints.
    pub fn new(
        id: &str,
        name: Option<String>,
        endianness: Endianness,
        parent_id: Option<String>,
    ) -> (r: Self)
        ensures
            r@ == (ProtocolView {
                id: id@,
                name: opt_view(name),
                endianness,
                fields: Seq::empty(),
                length: ProtocolLength::Fixed(0),
                description: None,
                metadata: Seq::empty(),
                parent_id: opt_view(parent_id),
                parent_constraints: Seq::empty(),
            }),
            well_formed(r@),
    {
        let r = Protocol {
            id: id.to_owned(),
            name,
            endianness,
            fields: Vec::new(),
            length: ProtocolLength::Fixed(0),
            description: None,
            metadata: Vec::new(),
            parent_id,
            parent_constraints: Vec::new(),
        };
        assert(r@.fields =~= Seq::<FieldRuleView>::empty());
        assert(r@.metadata =~= Seq::<(Seq<char>, Seq<char>)>::empty());
        assert(r@.parent_constraints =~= Seq::<(Seq<char>, i128)>::empty());
        r
    }

    /// Records `value` under `key` in the metadata, replacing an earlier value.
    pub fn update_metadata(&mut self, key: &str, value: &str)
        ensures
            final(self)@ == (ProtocolView {
                metadata: set_entry(old(self)@.metadata, key@, value@),
                ..old(self)@
            }),
    {
        let k = key.to_owned();
        let v = value.to_owned();
        let ghost m = self@.metadata;
        let mut i: usize = 0;
        while i < self.metadata.len()
            invariant
                i <= self.metadata.len(),
                *self == *old(self),
                m == self@.metadata,
                k@ == key@,
                v@ == value@,
                key_index(m.subrange(0, i as int), k@) == -1,
            decreases self.metadata.len() - i,
        {
            proof {
                assert(m.subrange(0, i + 1).drop_last() =~= m.subrange(0, i as int));
            }
            if self.metadata[i].0 == k {
                proof {
                    lemma_key_index_prefix(m, k@, i + 1);
                }
                self.metadata.set(i, (k, v));
                assert(self@.metadata =~= m.update(i as int, (key@, value@)));
                return;
            }
            i += 1;
        }
        assert(m.subrange(0, i as int) =~= m);
        self.metadata.push((k, v));
        assert(self@.metadata =~= m.push((key@, value@)));
    }

    /// Appends a field. Refused when its id is taken, when the last field has a
    /// variable length, or when the fixed widths would no longer fit in 32 bits.
    pub fn add_field(&mut self, field_rule: FieldRule) -> (r: Result<(), ProtocolError>)
        requires
            well_formed(old(self)@),
        ensures
            well_formed(final(self)@),
            ({
                let fs = old(self)@.fields;
                if has_field(fs, field_rule@.id) {
                    r == Err::<(), ProtocolError>(ProtocolError::DuplicateFieldId)
                } else if fs.len() > 0 && fs.last().length is Variable {
                    r == Err::<(), ProtocolError>(ProtocolError::VariableFieldNotLast)
                } else if !fits(fs.push(field_rule@)) {
                    r == Err::<(), ProtocolError>(ProtocolError::LengthOverflow)
                } else {
                    r is Ok
                }
            }),
            r is Ok ==> final(self)@ == (ProtocolView {
                fields: old(self)@.fields.push(field_rule@),
                length: length_of(old(self)@.fields.push(field_rule@)),
                ..old(self)@
            }),
            r is Err ==> *final(self) == *old(self),
    {
        let ghost fs = self@.fields;
        if find_field(&self.fields, &field_rule.id).is_some() {
            return Err(ProtocolError::DuplicateFieldId);
        }
        let n = self.fields.len();
        if n > 0 {
            match self.fields[n - 1].length {
                FieldLength::Variable => {
                    return Err(ProtocolError::VariableFieldNotLast);
                },
                FieldLength::Fixed(_) => {},
            }
        }
        let total = total_bits(&self.fields);
        let added = width(field_rule.length);
        proof {
            assert(fs.push(field_rule@).drop_last() =~= fs);
        }
        if added > u32::MAX - total {
            return Err(ProtocolError::LengthOverflow);
        }
        let ghost new_rule = field_rule@;
        self.fields.push(field_rule);
        assert(self@.fields =~= fs.push(new_rule));
        self.calculate_length();
        Ok(())
    }

    /// Removes the field with the given id, keeping the order of the others.
    pub fn remove_field(&mut self, field_id: &str) -> (r: Result<(), ProtocolError>)
        requires
            well_formed(old(self)@),
        ensures
            well_formed(final(self)@),
            !has_field(old(self)@.fields, field_id@) ==> r == Err::<(), ProtocolError>(ProtocolError::FieldNotFound),
            has_field(old(self)@.fields, field_id@) ==> r is Ok,
            r is Ok ==> ({
                let rest = old(self)@.fields.remove(field_index(old(self)@.fields, field_id@));
                final(self)@ == (ProtocolView { fields: rest, length: length_of(rest), ..old(self)@ })
            }),
            r is Err ==> *final(self) == *old(self),
    {
        let ghost fs = self@.fields;
        let key = field_id.to_owned();
        match find_field(&self.fields, &key) {
            None => Err(ProtocolError::FieldNotFound),
            Some(i) => {
                proof {
                    lemma_field_index(fs, field_id@, i as int);
                    lemma_fixed_sum_remove(fs, i as int);
                    lemma_unique_remove(fs, i as int);
                }
                self.fields.remove(i);
                assert(self@.fields =~= fs.remove(i as int));
                self.calculate_length();
                Ok(())
            },
        }
    }

    /// Moves the field with the given id to `new_index`, or to the end when
    /// `new_index` is past it.
    pub fn move_field(&mut self, field_id: &str, new_index: usize) -> (r: Result<(), ProtocolError>)
        requires
            well_formed(old(self)@),
        ensures
            well_formed(final(self)@),
            !has_field(old(self)@.fields, field_id@) ==> r == Err::<(), ProtocolError>(ProtocolError::FieldNotFound),
            has_field(old(self)@.fields, field_id@) ==> r is Ok,
            r is Ok ==> ({
                let fs = old(self)@.fields;
                let i = field_index(fs, field_id@);
                let j = if new_index < fs.len() - 1 { new_index as int } else { fs.len() - 1 };
                let moved = fs.remove(i).insert(j, fs[i]);
                final(self)@ == (ProtocolView { fields: moved, length: length_of(moved), ..old(self)@ })
            }),
            r is Err ==> *final(self) == *old(self),
    {
        let ghost fs = self@.fields;
        let key = field_id.to_owned();
        match find_field(&self.fields, &key) {
            None => Err(ProtocolError::FieldNotFound),
            Some(i) => {
                let field = self.fields.remove(i);
                let j = if new_index < self.fields.len() {
                    new_index
                } else {
                    self.fields.len()
                };
                proof {
                    lemma_field_index(fs, field_id@, i as int);
                    lemma_fixed_sum_remove(fs, i as int);
                    lemma_fixed_sum_insert(fs.remove(i as int), j as int, fs[i as int]);
                    lemma_unique_move(fs, i as int, j as int);
                }
                self.fields.insert(j, field);
                assert(self@.fields =~= fs.remove(i as int).insert(j as int, fs[i as int]));
                self.calculate_length();
                Ok(())
            },
        }
    }

    /// Renames a field; the only way to change a field's id.
    pub fn update_field_id(&mut self, old_id: &str, new_id: &str) -> (r: Result<(), ProtocolError>)
        requires
            well_formed(old(self)@),
        ensures
            well_formed(final(self)@),
            ({
                let fs = old(self)@.fields;
                if old_id@ == new_id@ {
                    r is Ok
                } else if has_field(fs, new_id@) {
                    r == Err::<(), ProtocolError>(ProtocolError::DuplicateFieldId)
                } else if !has_field(fs, old_id@) {
                    r == Err::<(), ProtocolError>(ProtocolError::FieldNotFound)
                } else {
                    r is Ok
                }
            }),
            r is Ok && old_id@ != new_id@ ==> ({
                let fs = old(self)@.fields;
                let i = field_index(fs, old_id@);
                let renamed = fs.update(i, FieldRuleView { id: new_id@, ..fs[i] });
                final(self)@ == (ProtocolView { fields: renamed, length: length_of(renamed), ..old(self)@ })
            }),
            r is Err || old_id@ == new_id@ ==> *final(self) == *old(self),
    {
        let ghost fs = self@.fields;
        let o = old_id.to_owned();
        let n = new_id.to_owned();
        if o == n {
            return Ok(());
        }
        if find_field(&self.fields, &n).is_some() {
            return Err(ProtocolError::DuplicateFieldId);
        }
        match find_field(&self.fields, &o) {
            None => Err(ProtocolError::FieldNotFound),
            Some(i) => {
                proof {
                    lemma_field_index(fs, old_id@, i as int);
                }
                let mut field = self.fields.remove(i);
                field.id = n;
                let ghost renamed = field@;
                self.fields.insert(i, field);
                let ghost nfs = fs.update(i as int, renamed);
                assert(self@.fields =~= nfs);
                proof {
                    assert(fs.remove(i as int).insert(i as int, renamed) =~= nfs);
                    lemma_fixed_sum_remove(fs, i as int);
                    lemma_fixed_sum_insert(fs.remove(i as int), i as int, renamed);
                    assert forall|a: int, b: int|
                        0 <= a < nfs.len() && 0 <= b < nfs.len() && a != b implies nfs[a].id
                        != nfs[b].id by {
                        if a != i && b != i {
                            assert(nfs[a] == fs[a] && nfs[b] == fs[b]);
                        } else if a == i {
                            assert(nfs[b] == fs[b]);
                        } else {
                            assert(nfs[a] == fs[a]);
                        }
                    }
                }
                self.calculate_length();
                Ok(())
            },
        }
    }

    /// Applies `f` to a copy of the field with the given id and keeps the result,
    /// unless `f` fails, changes the id, or makes the fixed widths overflow: then
    /// nothing changes and the error says which.
    pub fn edit_field<F: FnOnce(&mut FieldRule) -> Result<(), String>>(
        &mut self,
        field_id: &str,
        f: F,
    ) -> (r: Result<(), ProtocolError>)
        requires
            well_formed(old(self)@),
            forall|x: &mut FieldRule| f.requires((x,)),
        ensures
            well_formed(final(self)@),
            !has_field(old(self)@.fields, field_id@) ==> r == Err::<(), ProtocolError>(ProtocolError::FieldNotFound),
            has_field(old(self)@.fields, field_id@) ==> exists|x: &mut FieldRule, res: Result<(), String>|
                {
                    let fs = old(self)@.fields;
                    let i = field_index(fs, field_id@);
                    &&& (*x)@ == fs[i]
                    &&& #[trigger] f.ensures((x,), res)
                    &&& r == edit_field_result(fs, i, res, (*final(x))@)
                    &&& r is Ok ==> final(self)@ == (ProtocolView {
                        fields: fs.update(i, (*final(x))@),
                        length: length_of(fs.update(i, (*final(x))@)),
                        ..old(self)@
                    })
                },
            r is Err ==> *final(self) == *old(self),
    {
        let ghost fs = self@.fields;
        let key = field_id.to_owned();
        match find_field(&self.fields, &key) {
            None => Err(ProtocolError::FieldNotFound),
            Some(i) => {
                proof {
                    lemma_field_index(fs, field_id@, i as int);
                }
                let mut scratch = self.fields[i].clone();
                let res = f(&mut scratch);
                match res {
                    Err(e) => {
                        return Err(ProtocolError::MutatorFailed(e));
                    },
                    Ok(()) => {},
                }
                if scratch.id != self.fields[i].id {
                    return Err(ProtocolError::FieldIdImmutableHere);
                }
                let total = total_bits(&self.fields);
                let before = width(self.fields[i].length);
                let after = width(scratch.length);
                let ghost edited = scratch@;
                proof {
                    lemma_fixed_sum_remove(fs, i as int);
                    lemma_fixed_sum_insert(fs.remove(i as int), i as int, edited);
                    lemma_fixed_sum_nonneg(fs.remove(i as int));
                    assert(fs.remove(i as int).insert(i as int, edited) =~= fs.update(i as int, edited));
                }
                if after > u32::MAX - (total - before) {
                    return Err(ProtocolError::LengthOverflow);
                }
                self.fields.set(i, scratch);
                assert(self@.fields =~= fs.update(i as int, edited));
                proof {
                    let nfs = fs.update(i as int, edited);
                    assert forall|a: int, b: int|
                        0 <= a < nfs.len() && 0 <= b < nfs.len() && a != b implies nfs[a].id
                        != nfs[b].id by {
                        if a != i && b != i {
                            assert(nfs[a] == fs[a] && nfs[b] == fs[b]);
                        } else if a == i {
                            assert(nfs[b] == fs[b]);
                        } else {
                            assert(nfs[a] == fs[a]);
                        }
                    }
                }
                self.calculate_length();
                Ok(())
            },
        }
    }

    /// Records a constraint on a parent's field, replacing an earlier value for it.
    pub fn set_parent_constraint(&mut self, field_id: &str, value: i128)
        ensures
            final(self)@ == (ProtocolView {
                parent_constraints: set_entry(old(self)@.parent_constraints, field_id@, value),
                ..old(self)@
            }),
    {
        let k = field_id.to_owned();
        let ghost m = self@.parent_constraints;
        let mut i: usize = 0;
        while i < self.parent_constraints.len()
            invariant
                i <= self.parent_constraints.len(),
                *self == *old(self),
                m == self@.parent_constraints,
                k@ == field_id@,
                key_index(m.subrange(0, i as int), k@) == -1,
            decreases self.parent_constraints.len() - i,
        {
            proof {
                assert(m.subrange(0, i + 1).drop_last() =~= m.subrange(0, i as int));
            }
            if self.parent_constraints[i].0 == k {
                proof {
                    lemma_key_index_prefix(m, k@, i + 1);
                }
                self.parent_constraints.set(i, (k, value));
                assert(self@.parent_constraints =~= m.update(i as int, (field_id@, value)));
                return;
            }
            i += 1;
        }
        assert(m.subrange(0, i as int) =~= m);
        self.parent_constraints.push((k, value));
        assert(self@.parent_constraints =~= m.push((field_id@, value)));
    }

    /// Sets `length` to the one the fields give: the fixed bits up to the first
    /// variable-length field, or all of them when there is none.
    pub(crate) fn calculate_length(&mut self)
        requires
            fits(old(self)@.fields),
        ensures
            final(self)@ == (ProtocolView { length: length_of(old(self)@.fields), ..old(self)@ }),
    {
        let ghost v = self@.fields;
        let mut variable = false;
        let mut total_fixed_bits: u32 = 0;
        let mut i: usize = 0;
        while i < self.fields.len()
            invariant
                v == rules_view(self.fields@),
                fits(v),
                i <= self.fields.len(),
                (variable, total_fixed_bits as int) == layout(v.subrange(0, i as int)),
            decreases self.fields.len() - i,
        {
            proof {
                assert(v.subrange(0, i + 1).drop_last() =~= v.subrange(0, i as int));
                lemma_fixed_sum_nonneg(v.subrange(0, i + 1));
                lemma_fixed_sum_prefix(v, i + 1);
            }
            if !variable {
                match self.fields[i].length {
                    FieldLength::Fixed(bits) => {
                        total_fixed_bits = total_fixed_bits + bits;
                    },
                    FieldLength::Variable => {
                        variable = true;
                    },
                }
            }
            i += 1;
        }
        assert(v.subrange(0, i as int) =~= v);
        self.length = if variable {
            ProtocolLength::Variable(total_fixed_bits)
        } else {
            ProtocolLength::Fixed(total_fixed_bits)
        };
    }
}

} // verus!
