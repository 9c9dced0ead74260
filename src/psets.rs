//! The property-set entities, the recursive tree, their JSON shapes, and the
//! ordered-fallback parse.
use crate::errors::{LeafField, ParseError};
use crate::value::{lemma_members_view, members_view, DynamicValue, JsonNumber, JsonValue, NumberModel};
use vstd::prelude::*;
use vstd::string::*;

verus! {

/// A reference to a property set by its identifier.
#[derive(Clone, Copy, Debug, PartialEq, Eq, Structural)]
pub struct PsetId {
    pub id_: i64,
}

/// A full property-set record.
#[derive(Debug)]
pub struct Pset {
    pub id_: i64,
    pub class_: String,
    pub value: DynamicValue,
    pub value_type: Option<String>,
}

/// A value under a named key of a nested node: a subtree or an opaque value.
#[derive(Debug)]
pub enum PsetNestedValue {
    Psets(Psets),
    Any(DynamicValue),
}

/// A property-set tree: a leaf record, a leaf reference, or named children.
#[derive(Debug)]
pub enum Psets {
    Pset(Pset),
    PsetId(PsetId),
    Nested(Vec<(String, PsetNestedValue)>),
}

/// Model of a `Pset`.
pub struct PsetModel {
    pub id: i64,
    pub class: Seq<char>,
    pub value: JsonValue,
    pub value_type: Option<Seq<char>>,
}

/// Model of a `PsetNestedValue`.
pub enum NestedModel {
    Psets(PsetsModel),
    Any(JsonValue),
}

/// Model of a `Psets` tree.
pub enum PsetsModel {
    Pset(PsetModel),
    PsetId(PsetId),
    Nested(Seq<(Seq<char>, NestedModel)>),
}

pub open spec fn opt_view(o: Option<String>) -> Option<Seq<char>> {
    match o {
        Some(s) => Some(s@),
        None => None,
    }
}

impl View for Pset {
    type V = PsetModel;

    open spec fn view(&self) -> PsetModel {
        PsetModel {
            id: self.id_,
            class: self.class_@,
            value: self.value@,
            value_type: opt_view(self.value_type),
        }
    }
}

impl View for PsetNestedValue {
    type V = NestedModel;

    open spec fn view(&self) -> NestedModel
        decreases self,
    {
        match self {
            PsetNestedValue::Psets(p) => NestedModel::Psets(p.view()),
            PsetNestedValue::Any(v) => NestedModel::Any(v@),
        }
    }
}

impl View for Psets {
    type V = PsetsModel;

    open spec fn view(&self) -> PsetsModel
        decreases self,
    {
        match self {
            Psets::Pset(x) => PsetsModel::Pset(x@),
            Psets::PsetId(x) => PsetsModel::PsetId(*x),
            Psets::Nested(entries) => PsetsModel::Nested(children_view(entries@)),
        }
    }
}

/// The model of a nested node's children, in order.
pub open spec fn children_view(s: Seq<(String, PsetNestedValue)>) -> Seq<(Seq<char>, NestedModel)>
    decreases s,
{
    if s.len() == 0 {
        Seq::empty()
    } else {
        children_view(s.drop_last()).push((s.last().0@, s.last().1.view()))
    }
}

pub proof fn lemma_children_view(s: Seq<(String, PsetNestedValue)>)
    ensures
        children_view(s).len() == s.len(),
        forall|j: int|
            0 <= j < s.len() ==> #[trigger] children_view(s)[j] == (s[j].0@, s[j].1@),
    decreases s.len(),
{
    if s.len() > 0 {
        lemma_children_view(s.drop_last());
        assert(children_view(s) == children_view(s.drop_last()).push((s.last().0@, s.last().1@)));
    } else {
        assert(children_view(s) == Seq::<(Seq<char>, NestedModel)>::empty());
    }
}

// ---------------------------------------------------------------------------
// JSON shapes
// ---------------------------------------------------------------------------

pub open spec fn int_json(i: i64) -> JsonValue {
    JsonValue::Number(NumberModel::Int(i as int))
}

pub open spec fn opt_str_json(o: Option<Seq<char>>) -> JsonValue {
    match o {
        Some(t) => JsonValue::Str(t),
        None => JsonValue::Null,
    }
}

/// The wire form of a `PsetId`: `{"id": id}`.
pub open spec fn pset_id_json(x: PsetId) -> JsonValue {
    JsonValue::Object(seq![("id"@, int_json(x.id_))])
}

/// The wire form of a `Pset`: `class`, `id`, `value` and `value-type` (null when absent).
pub open spec fn pset_json(x: PsetModel) -> JsonValue {
    JsonValue::Object(
        seq![
            ("class"@, JsonValue::Str(x.class)),
            ("id"@, int_json(x.id)),
            ("value"@, x.value),
            ("value-type"@, opt_str_json(x.value_type)),
        ],
    )
}

/// The wire form of a tree: a leaf as its record, a nested node as an object.
pub open spec fn psets_json(p: PsetsModel) -> JsonValue
    decreases p, 0int,
{
    match p {
        PsetsModel::Pset(x) => pset_json(x),
        PsetsModel::PsetId(x) => pset_id_json(x),
        PsetsModel::Nested(e) => JsonValue::Object(children_json(e, e.len() as int)),
    }
}

pub open spec fn nested_json(n: NestedModel) -> JsonValue
    decreases n, 0int,
{
    match n {
        NestedModel::Psets(p) => psets_json(p),
        NestedModel::Any(v) => v,
    }
}

/// The wire form of the first `n` children.
pub open spec fn children_json(e: Seq<(Seq<char>, NestedModel)>, n: int) -> Seq<(Seq<char>, JsonValue)>
    decreases e, n,
{
    if n <= 0 || n > e.len() {
        Seq::empty()
    } else {
        children_json(e, n - 1).push((e[n - 1].0, nested_json(e[n - 1].1)))
    }
}

pub proof fn lemma_children_json(e: Seq<(Seq<char>, NestedModel)>, n: int)
    requires
        0 <= n <= e.len(),
    ensures
        children_json(e, n).len() == n,
        forall|j: int|
            0 <= j < n ==> #[trigger] children_json(e, n)[j] == (e[j].0, nested_json(e[j].1)),
    decreases n,
{
    if n > 0 {
        lemma_children_json(e, n - 1);
    }
}

// ---------------------------------------------------------------------------
// Leaf schemas
// ---------------------------------------------------------------------------

/// The field that a key names, aliases included.
pub open spec fn field_of(k: Seq<char>) -> Option<LeafField> {
    if k == "id"@ || k == "id_"@ {
        Some(LeafField::Id)
    } else if k == "class"@ || k == "class_"@ {
        Some(LeafField::Class)
    } else if k == "value"@ {
        Some(LeafField::Value)
    } else if k == "value-type"@ || k == "value_type"@ {
        Some(LeafField::ValueType)
    } else {
        None
    }
}

/// Whether a leaf schema holds a field: a `Pset` (`full`) holds all four, a
/// `PsetId` only `id`.
pub open spec fn in_schema(f: LeafField, full: bool) -> bool {
    full || f == LeafField::Id
}

/// Whether a value has the shape a field asks for.
pub open spec fn fits(f: LeafField, v: JsonValue) -> bool {
    match f {
        LeafField::Id => v matches JsonValue::Number(NumberModel::Int(i)) && i64::MIN <= i
            <= i64::MAX,
        LeafField::Class => v is Str,
        LeafField::Value => true,
        LeafField::ValueType => v is Null || v is Str,
    }
}

/// Whether an entry before index `i` names field `f`.
pub open spec fn named_before(e: Seq<(Seq<char>, JsonValue)>, i: int, f: LeafField) -> bool {
    exists|j: int| 0 <= j < i && #[trigger] field_of(e[j].0) == Some(f)
}

/// The error that entry `i` raises, entries being read in order.
pub open spec fn entry_error(e: Seq<(Seq<char>, JsonValue)>, i: int, full: bool) -> Option<ParseError> {
    match field_of(e[i].0) {
        None => Some(ParseError::UnknownField),
        Some(f) => if !in_schema(f, full) {
            Some(ParseError::UnknownField)
        } else if named_before(e, i, f) {
            Some(ParseError::DuplicateField(f))
        } else if !fits(f, e[i].1) {
            Some(ParseError::InvalidType)
        } else {
            None
        },
    }
}

/// The error of the first offending entry among the first `n`.
pub open spec fn first_error(e: Seq<(Seq<char>, JsonValue)>, n: int, full: bool) -> Option<ParseError>
    decreases n,
{
    if n <= 0 {
        None
    } else {
        match first_error(e, n - 1, full) {
            Some(x) => Some(x),
            None => entry_error(e, n - 1, full),
        }
    }
}

/// The value of the entry that names `f` (meaningful where one does).
pub open spec fn field_value(e: Seq<(Seq<char>, JsonValue)>, f: LeafField) -> JsonValue {
    e[choose|j: int| 0 <= j < e.len() && #[trigger] field_of(e[j].0) == Some(f)].1
}

pub open spec fn int_of(v: JsonValue) -> i64 {
    match v {
        JsonValue::Number(NumberModel::Int(i)) => i as i64,
        _ => 0,
    }
}

pub open spec fn str_of(v: JsonValue) -> Seq<char> {
    match v {
        JsonValue::Str(s) => s,
        _ => Seq::empty(),
    }
}

pub open spec fn opt_str_of(v: JsonValue) -> Option<Seq<char>> {
    match v {
        JsonValue::Str(s) => Some(s),
        _ => None,
    }
}

/// Reading a value as a `PsetId`: an object whose only field is `id`, an integer.
pub open spec fn parse_pset_id(v: JsonValue) -> Result<PsetId, ParseError> {
    match v {
        JsonValue::Object(e) => match first_error(e, e.len() as int, false) {
            Some(err) => Err(err),
            None => if named_before(e, e.len() as int, LeafField::Id) {
                Ok(PsetId { id_: int_of(field_value(e, LeafField::Id)) })
            } else {
                Err(ParseError::MissingField(LeafField::Id))
            },
        },
        _ => Err(ParseError::InvalidType),
    }
}

/// Reading a value as a `Pset`: an object with `id`, `class` and `value`, and
/// optionally `value-type`, and no other field.
pub open spec fn parse_pset(v: JsonValue) -> Result<PsetModel, ParseError> {
    match v {
        JsonValue::Object(e) => {
            let n = e.len() as int;
            match first_error(e, n, true) {
                Some(err) => Err(err),
                None => if !named_before(e, n, LeafField::Id) {
                    Err(ParseError::MissingField(LeafField::Id))
                } else if !named_before(e, n, LeafField::Class) {
                    Err(ParseError::MissingField(LeafField::Class))
                } else if !named_before(e, n, LeafField::Value) {
                    Err(ParseError::MissingField(LeafField::Value))
                } else {
                    Ok(
                        PsetModel {
                            id: int_of(field_value(e, LeafField::Id)),
                            class: str_of(field_value(e, LeafField::Class)),
                            value: field_value(e, LeafField::Value),
                            value_type: if named_before(e, n, LeafField::ValueType) {
                                opt_str_of(field_value(e, LeafField::ValueType))
                            } else {
                                None
                            },
                        },
                    )
                },
            }
        },
        _ => Err(ParseError::InvalidType),
    }
}

/// Reading a value as a tree: a `Pset` if it reads as one, else a `PsetId`, else,
/// for an object, a nested node whose children are read in turn.
pub open spec fn parse_psets(v: JsonValue) -> Result<PsetsModel, ParseError>
    decreases v, 0int,
{
    match parse_pset(v) {
        Ok(x) => Ok(PsetsModel::Pset(x)),
        Err(_) => match parse_pset_id(v) {
            Ok(x) => Ok(PsetsModel::PsetId(x)),
            Err(_) => match v {
                JsonValue::Object(e) => Ok(PsetsModel::Nested(parse_children(e, e.len() as int))),
                _ => Err(ParseError::InvalidType),
            },
        },
    }
}

/// Reading the value under a key: a subtree if it reads as one, else the value itself.
pub open spec fn parse_nested(v: JsonValue) -> NestedModel
    decreases v, 1int,
{
    match parse_psets(v) {
        Ok(p) => NestedModel::Psets(p),
        Err(_) => NestedModel::Any(v),
    }
}

/// Reading the first `n` entries of an object as children.
pub open spec fn parse_children(e: Seq<(Seq<char>, JsonValue)>, n: int) -> Seq<(Seq<char>, NestedModel)>
    decreases e, n,
{
    if n <= 0 || n > e.len() {
        Seq::empty()
    } else {
        parse_children(e, n - 1).push((e[n - 1].0, parse_nested(e[n - 1].1)))
    }
}

pub proof fn lemma_parse_children(e: Seq<(Seq<char>, JsonValue)>, n: int)
    requires
        0 <= n <= e.len(),
    ensures
        parse_children(e, n).len() == n,
        forall|j: int|
            0 <= j < n ==> #[trigger] parse_children(e, n)[j] == (e[j].0, parse_nested(e[j].1)),
    decreases n,
{
    if n > 0 {
        lemma_parse_children(e, n - 1);
    }
}

pub proof fn lemma_first_error_none(e: Seq<(Seq<char>, JsonValue)>, n: int, full: bool)
    requires
        first_error(e, n, full) is None,
    ensures
        forall|k: int| 0 <= k < n ==> #[trigger] entry_error(e, k, full) is None,
    decreases n,
{
    if n > 0 {
        lemma_first_error_none(e, n - 1, full);
    }
}

/// Once an entry has offended, later entries change nothing.
pub proof fn lemma_first_error_stays(e: Seq<(Seq<char>, JsonValue)>, m: int, n: int, full: bool)
    requires
        0 <= m <= n,
        first_error(e, m, full) is Some,
    ensures
        first_error(e, n, full) == first_error(e, m, full),
    decreases n - m,
{
    if m < n {
        lemma_first_error_stays(e, m, n - 1, full);
    }
}

/// With no offending entry, the entry that names a field is the one `field_value` reads.
pub proof fn lemma_field_value(e: Seq<(Seq<char>, JsonValue)>, full: bool, j: int, f: LeafField)
    requires
        first_error(e, e.len() as int, full) is None,
        0 <= j < e.len(),
        field_of(e[j].0) == Some(f),
    ensures
        field_value(e, f) == e[j].1,
{
    lemma_first_error_none(e, e.len() as int, full);
    let c = choose|c: int| 0 <= c < e.len() && #[trigger] field_of(e[c].0) == Some(f);
    if c < j {
        assert(entry_error(e, j, full) is None);
        assert(named_before(e, j, f));
    } else if j < c {
        assert(entry_error(e, c, full) is None);
        assert(named_before(e, c, f));
    }
}

// ---------------------------------------------------------------------------
// Executable parse
// ---------------------------------------------------------------------------

fn field_of_key(k: &String) -> (r: Option<LeafField>)
    ensures
        r == field_of(k@),
{
    if *k == String::from_str("id") || *k == String::from_str("id_") {
        Some(LeafField::Id)
    } else if *k == String::from_str("class") || *k == String::from_str("class_") {
        Some(LeafField::Class)
    } else if *k == String::from_str("value") {
        Some(LeafField::Value)
    } else if *k == String::from_str("value-type") || *k == String::from_str("value_type") {
        Some(LeafField::ValueType)
    } else {
        None
    }
}

fn value_fits(f: LeafField, v: &DynamicValue) -> (r: bool)
    ensures
        r == fits(f, v@),
{
    match f {
        LeafField::Id => match v {
            DynamicValue::Number(JsonNumber::Int(i)) => i64::MIN as i128 <= *i && *i
                <= i64::MAX as i128,
            _ => false,
        },
        LeafField::Class => match v {
            DynamicValue::String(_) => true,
            _ => false,
        },
        LeafField::Value => true,
        LeafField::ValueType => match v {
            DynamicValue::Null => true,
            DynamicValue::String(_) => true,
            _ => false,
        },
    }
}

/// Where the fields of a leaf were found in an object.
struct Slots {
    id: Option<usize>,
    class: Option<usize>,
    value: Option<usize>,
    value_type: Option<usize>,
}

impl Slots {
    spec fn get(&self, f: LeafField) -> Option<usize> {
        match f {
            LeafField::Id => self.id,
            LeafField::Class => self.class,
            LeafField::Value => self.value,
            LeafField::ValueType => self.value_type,
        }
    }

    fn slot(&self, f: LeafField) -> (r: Option<usize>)
        ensures
            r == self.get(f),
    {
        match f {
            LeafField::Id => self.id,
            LeafField::Class => self.class,
            LeafField::Value => self.value,
            LeafField::ValueType => self.value_type,
        }
    }

    fn set(&mut self, f: LeafField, j: usize)
        ensures
            final(self).get(f) == Some(j),
            forall|g: LeafField| g != f ==> final(self).get(g) == old(self).get(g),
    {
        match f {
            LeafField::Id => self.id = Some(j),
            LeafField::Class => self.class = Some(j),
            LeafField::Value => self.value = Some(j),
            LeafField::ValueType => self.value_type = Some(j),
        }
    }
}

/// The slot of `f` records where among the first `n` entries `f` is named.
spec fn slot_ok(e: Seq<(Seq<char>, JsonValue)>, n: int, f: LeafField, slot: Option<usize>) -> bool {
    match slot {
        Some(j) => j < n && field_of(e[j as int].0) == Some(f),
        None => !named_before(e, n, f),
    }
}

spec fn slots_ok(e: Seq<(Seq<char>, JsonValue)>, n: int, s: Slots) -> bool {
    forall|f: LeafField| #[trigger] slot_ok(e, n, f, s.get(f))
}

/// Reads the entries of an object in order against a leaf schema.
fn scan_leaf(entries: &Vec<(String, DynamicValue)>, full: bool) -> (r: Result<Slots, ParseError>)
    ensures
        ({
            let e = members_view(entries@);
            match r {
                Err(err) => first_error(e, e.len() as int, full) == Some(err),
                Ok(s) => first_error(e, e.len() as int, full) is None && slots_ok(
                    e,
                    e.len() as int,
                    s,
                ),
            }
        }),
{
    let ghost e = members_view(entries@);
    proof {
        lemma_members_view(entries@);
    }
    let mut s = Slots { id: None, class: None, value: None, value_type: None };
    let mut i: usize = 0;
    while i < entries.len()
        invariant
            i <= entries.len(),
            e == members_view(entries@),
            e.len() == entries.len(),
            forall|j: int| 0 <= j < e.len() ==> #[trigger] e[j] == (entries[j].0@, entries[j].1@),
            first_error(e, i as int, full) is None,
            slots_ok(e, i as int, s),
        decreases entries.len() - i,
    {
        assert(e[i as int] == (entries[i as int].0@, entries[i as int].1@));
        let f = match field_of_key(&entries[i].0) {
            Some(f) => f,
            None => {
                proof {
                    lemma_first_error_stays(e, i + 1, e.len() as int, full);
                }
                return Err(ParseError::UnknownField);
            },
        };
        if !full && f != LeafField::Id {
            proof {
                lemma_first_error_stays(e, i + 1, e.len() as int, full);
            }
            return Err(ParseError::UnknownField);
        }
        match s.slot(f) {
            Some(j) => {
                assert(slot_ok(e, i as int, f, s.get(f)));
                assert(named_before(e, i as int, f)) by {
                    assert(field_of(e[j as int].0) == Some(f));
                }
                assert(entry_error(e, i as int, full) == Some(ParseError::DuplicateField(f)));
                proof {
                    lemma_first_error_stays(e, i + 1, e.len() as int, full);
                }
                return Err(ParseError::DuplicateField(f));
            },
            None => {},
        }
        assert(slot_ok(e, i as int, f, s.get(f)));
        if !value_fits(f, &entries[i].1) {
            proof {
                lemma_first_error_stays(e, i + 1, e.len() as int, full);
            }
            return Err(ParseError::InvalidType);
        }
        let ghost old_s = s;
        s.set(f, i);
        assert forall|g: LeafField| #[trigger] slot_ok(e, i + 1, g, s.get(g)) by {
            assert(slot_ok(e, i as int, g, old_s.get(g)));
            if g != f {
                if !named_before(e, i as int, g) {
                    assert forall|j: int| 0 <= j < i + 1 implies #[trigger] field_of(e[j].0)
                        != Some(g) by {
                        if j < i {
                            assert(!(0 <= j < i && field_of(e[j].0) == Some(g)));
                        }
                    }
                }
                if named_before(e, i as int, g) {
                    let w = choose|w: int| 0 <= w < i && #[trigger] field_of(e[w].0) == Some(g);
                    assert(0 <= w < i + 1 && field_of(e[w].0) == Some(g));
                }
            }
        }
        i += 1;
    }
    Ok(s)
}

impl PsetId {
    /// A reference to the property set `id_`.
    pub fn new(id_: i64) -> (r: PsetId)
        ensures
            r.id_ == id_,
    {
        PsetId { id_ }
    }

    /// Validates a dynamic value as a `PsetId`; the same as `from_json`.
    pub fn model_validate(value: &DynamicValue) -> (r: Result<PsetId, ParseError>)
        ensures
            r == parse_pset_id(value@),
    {
        PsetId::from_json(value)
    }

    /// The type's display name.
    pub fn __class_name__() -> (r: String)
        ensures
            r@ == "PsetId"@,
    {
        String::from_str("PsetId")
    }

    /// Reads a value as a `PsetId`.
    pub fn from_json(v: &DynamicValue) -> (r: Result<PsetId, ParseError>)
        ensures
            r == parse_pset_id(v@),
    {
        match v {
            DynamicValue::Object(entries) => {
                let ghost e = members_view(entries@);
                proof {
                    lemma_members_view(entries@);
                }
                let s = match scan_leaf(entries, false) {
                    Err(err) => {
                        return Err(err);
                    },
                    Ok(s) => s,
                };
                assert(slot_ok(e, e.len() as int, LeafField::Id, s.get(LeafField::Id)));
                match s.id {
                    Some(j) => {
                        proof {
                            lemma_field_value(e, false, j as int, LeafField::Id);
                        }
                        assert(e[j as int].1 == entries[j as int].1@);
                        assert(named_before(e, e.len() as int, LeafField::Id));
                        proof {
                            lemma_first_error_none(e, e.len() as int, false);
                            assert(entry_error(e, j as int, false) is None);
                        }
                        match &entries[j].1 {
                            DynamicValue::Number(JsonNumber::Int(i)) => Ok(PsetId { id_: *i as i64 }),
                            _ => Err(ParseError::InvalidType),
                        }
                    },
                    None => Err(ParseError::MissingField(LeafField::Id)),
                }
            },
            _ => Err(ParseError::InvalidType),
        }
    }

    /// The wire form: `{"id": id}`.
    pub fn to_json(&self) -> (r: DynamicValue)
        ensures
            r@ == pset_id_json(*self),
    {
        let mut entries: Vec<(String, DynamicValue)> = Vec::new();
        entries.push((String::from_str("id"), DynamicValue::Number(JsonNumber::Int(self.id_ as i128))));
        let r = DynamicValue::Object(entries);
        proof {
            lemma_members_view(entries@);
        }
        assert(r@->Object_0 =~= pset_id_json(*self)->Object_0);
        r
    }
}

impl Pset {
    /// A record from its fields.
    pub fn new(id_: i64, class_: String, value: DynamicValue, value_type: Option<String>) -> (r: Pset)
        ensures
            r@ == (PsetModel {
                id: id_,
                class: class_@,
                value: value@,
                value_type: opt_view(value_type),
            }),
    {
        Pset { id_, class_, value, value_type }
    }

    /// Validates a dynamic value as a `Pset`; the same as `from_json`.
    pub fn model_validate(value: &DynamicValue) -> (r: Result<Pset, ParseError>)
        ensures
            match r {
                Ok(p) => parse_pset(value@) == Ok::<PsetModel, ParseError>(p@),
                Err(err) => parse_pset(value@) == Err::<PsetModel, ParseError>(err),
            },
    {
        Pset::from_json(value)
    }

    /// The type's display name.
    pub fn __class_name__() -> (r: String)
        ensures
            r@ == "Pset"@,
    {
        String::from_str("Pset")
    }

    /// A copy of the record with a stated result.
    pub fn copy(&self) -> (r: Pset)
        ensures
            r@ == self@,
    {
        let value_type = match &self.value_type {
            Some(t) => Some(t.clone()),
            None => None,
        };
        Pset { id_: self.id_, class_: self.class_.clone(), value: self.value.copy(), value_type }
    }

    /// Reads a value as a `Pset`.
    pub fn from_json(v: &DynamicValue) -> (r: Result<Pset, ParseError>)
        ensures
            match r {
                Ok(p) => parse_pset(v@) == Ok::<PsetModel, ParseError>(p@),
                Err(err) => parse_pset(v@) == Err::<PsetModel, ParseError>(err),
            },
    {
        match v {
            DynamicValue::Object(entries) => {
                let ghost e = members_view(entries@);
                let ghost n = e.len() as int;
                proof {
                    lemma_members_view(entries@);
                }
                let s = match scan_leaf(entries, true) {
                    Err(err) => {
                        return Err(err);
                    },
                    Ok(s) => s,
                };
                proof {
                    lemma_first_error_none(e, n, true);
                }
                assert(slot_ok(e, n, LeafField::Id, s.get(LeafField::Id)));
                assert(slot_ok(e, n, LeafField::Class, s.get(LeafField::Class)));
                assert(slot_ok(e, n, LeafField::Value, s.get(LeafField::Value)));
                assert(slot_ok(e, n, LeafField::ValueType, s.get(LeafField::ValueType)));
                let ji = match s.id {
                    Some(j) => j,
                    None => {
                        return Err(ParseError::MissingField(LeafField::Id));
                    },
                };
                let jc = match s.class {
                    Some(j) => j,
                    None => {
                        assert(named_before(e, n, LeafField::Id)) by {
                            assert(field_of(e[ji as int].0) == Some(LeafField::Id));
                        }
                        return Err(ParseError::MissingField(LeafField::Class));
                    },
                };
                let jv = match s.value {
                    Some(j) => j,
                    None => {
                        assert(named_before(e, n, LeafField::Id)) by {
                            assert(field_of(e[ji as int].0) == Some(LeafField::Id));
                        }
                        assert(named_before(e, n, LeafField::Class)) by {
                            assert(field_of(e[jc as int].0) == Some(LeafField::Class));
                        }
                        return Err(ParseError::MissingField(LeafField::Value));
                    },
                };
                proof {
                    lemma_field_value(e, true, ji as int, LeafField::Id);
                    lemma_field_value(e, true, jc as int, LeafField::Class);
                    lemma_field_value(e, true, jv as int, LeafField::Value);
                    assert(entry_error(e, ji as int, true) is None);
                    assert(entry_error(e, jc as int, true) is None);
                    assert(field_of(e[ji as int].0) == Some(LeafField::Id));
                    assert(field_of(e[jc as int].0) == Some(LeafField::Class));
                    assert(field_of(e[jv as int].0) == Some(LeafField::Value));
                }
                let id_ = match &entries[ji].1 {
                    DynamicValue::Number(JsonNumber::Int(i)) => *i as i64,
                    _ => {
                        return Err(ParseError::InvalidType);
                    },
                };
                let class_ = match &entries[jc].1 {
                    DynamicValue::String(c) => c.clone(),
                    _ => {
                        return Err(ParseError::InvalidType);
                    },
                };
                let value = entries[jv].1.copy();
                let value_type = match s.value_type {
                    Some(j) => {
                        proof {
                            lemma_field_value(e, true, j as int, LeafField::ValueType);
                            assert(named_before(e, n, LeafField::ValueType)) by {
                                assert(field_of(e[j as int].0) == Some(LeafField::ValueType));
                            }
                        }
                        match &entries[j].1 {
                            DynamicValue::String(t) => Some(t.clone()),
                            _ => None,
                        }
                    },
                    None => None,
                };
                Ok(Pset { id_, class_, value, value_type })
            },
            _ => Err(ParseError::InvalidType),
        }
    }

    /// The wire form: `class`, `id`, `value` and `value-type`.
    pub fn to_json(&self) -> (r: DynamicValue)
        ensures
            r@ == pset_json(self@),
    {
        let mut entries: Vec<(String, DynamicValue)> = Vec::new();
        entries.push((String::from_str("class"), DynamicValue::String(self.class_.clone())));
        entries.push((String::from_str("id"), DynamicValue::Number(JsonNumber::Int(self.id_ as i128))));
        entries.push((String::from_str("value"), self.value.copy()));
        let vt = match &self.value_type {
            Some(t) => DynamicValue::String(t.clone()),
            None => DynamicValue::Null,
        };
        entries.push((String::from_str("value-type"), vt));
        let r = DynamicValue::Object(entries);
        proof {
            lemma_members_view(entries@);
        }
        assert(r@->Object_0 =~= pset_json(self@)->Object_0);
        r
    }
}

impl PsetNestedValue {
    /// Reads a dynamic value as a nested value; the same as `from_json`.
    pub fn new(value: &DynamicValue) -> (r: Result<PsetNestedValue, ParseError>)
        ensures
            r matches Ok(x) && x@ == parse_nested(value@),
    {
        PsetNestedValue::from_json(value)
    }

    /// Validates a dynamic value as a nested value; the same as `from_json`.
    pub fn model_validate(value: &DynamicValue) -> (r: Result<PsetNestedValue, ParseError>)
        ensures
            r matches Ok(x) && x@ == parse_nested(value@),
    {
        PsetNestedValue::from_json(value)
    }

    /// A copy with a stated result.
    pub fn copy(&self) -> (r: PsetNestedValue)
        ensures
            r@ == self@,
        decreases self, 1int,
    {
        match self {
            PsetNestedValue::Psets(p) => PsetNestedValue::Psets(p.copy()),
            PsetNestedValue::Any(v) => PsetNestedValue::Any(v.copy()),
        }
    }

    /// Reads the value under a key: a subtree if it reads as one, else the value as it is.
    pub fn from_json(v: &DynamicValue) -> (r: Result<PsetNestedValue, ParseError>)
        ensures
            r matches Ok(x) && x@ == parse_nested(v@),
        decreases v, 1int,
    {
        match Psets::from_json(v) {
            Ok(p) => Ok(PsetNestedValue::Psets(p)),
            Err(_) => Ok(PsetNestedValue::Any(v.copy())),
        }
    }

    /// The wire form: a subtree's own, or the value as it is.
    pub fn to_json(&self) -> (r: DynamicValue)
        ensures
            r@ == nested_json(self@),
        decreases self, 1int,
    {
        match self {
            PsetNestedValue::Psets(p) => p.to_json(),
            PsetNestedValue::Any(v) => v.copy(),
        }
    }
}

impl Psets {
    /// Reads a dynamic value as a tree; the same as `from_json`.
    pub fn new(value: &DynamicValue) -> (r: Result<Psets, ParseError>)
        ensures
            match r {
                Ok(p) => parse_psets(value@) == Ok::<PsetsModel, ParseError>(p@),
                Err(err) => parse_psets(value@) == Err::<PsetsModel, ParseError>(err),
            },
    {
        Psets::from_json(value)
    }

    /// Validates a dynamic value as a tree; the same as `from_json`.
    pub fn model_validate(value: &DynamicValue) -> (r: Result<Psets, ParseError>)
        ensures
            match r {
                Ok(p) => parse_psets(value@) == Ok::<PsetsModel, ParseError>(p@),
                Err(err) => parse_psets(value@) == Err::<PsetsModel, ParseError>(err),
            },
    {
        Psets::from_json(value)
    }

    /// The type's display name.
    pub fn __class_name__() -> (r: String)
        ensures
            r@ == "Psets"@,
    {
        String::from_str("Psets")
    }

    /// A copy of the tree with a stated result.
    #[verifier::loop_isolation(false)]
    pub fn copy(&self) -> (r: Psets)
        ensures
            r@ == self@,
        decreases self, 0int,
    {
        match self {
            Psets::Pset(x) => Psets::Pset(x.copy()),
            Psets::PsetId(x) => Psets::PsetId(*x),
            Psets::Nested(entries) => {
                let mut out: Vec<(String, PsetNestedValue)> = Vec::new();
                let mut i: usize = 0;
                while i < entries.len()
                    invariant
                        i <= entries.len(),
                        out.len() == i,
                        forall|j: int|
                            0 <= j < i ==> (#[trigger] out[j]).0@ == entries[j].0@ && out[j].1@
                                == entries[j].1@,
                    decreases entries.len() - i,
                {
                    proof {
                        vstd::std_specs::vec::axiom_vec_index_decreases(*entries, i as int);
                    }
                    let c = entries[i].1.copy();
                    out.push((entries[i].0.clone(), c));
                    i += 1;
                }
                let r = Psets::Nested(out);
                proof {
                    lemma_children_view(out@);
                    lemma_children_view(entries@);
                }
                assert(r@->Nested_0 =~= self@->Nested_0);
                r
            },
        }
    }

    /// Reads a value as a tree: as a `Pset` if it reads as one, else as a `PsetId`,
    /// else, for an object, as a nested node; any other value is refused.
    #[verifier::loop_isolation(false)]
    pub fn from_json(v: &DynamicValue) -> (r: Result<Psets, ParseError>)
        ensures
            match r {
                Ok(p) => parse_psets(v@) == Ok::<PsetsModel, ParseError>(p@),
                Err(err) => parse_psets(v@) == Err::<PsetsModel, ParseError>(err),
            },
        decreases v, 0int,
    {
        match Pset::from_json(v) {
            Ok(x) => {
                return Ok(Psets::Pset(x));
            },
            Err(_) => {},
        }
        match PsetId::from_json(v) {
            Ok(x) => {
                return Ok(Psets::PsetId(x));
            },
            Err(_) => {},
        }
        match v {
            DynamicValue::Object(entries) => {
                let ghost e = members_view(entries@);
                proof {
                    lemma_members_view(entries@);
                }
                let mut out: Vec<(String, PsetNestedValue)> = Vec::new();
                let mut i: usize = 0;
                while i < entries.len()
                    invariant
                        i <= entries.len(),
                        out.len() == i,
                        forall|j: int|
                            0 <= j < i ==> (#[trigger] out[j]).0@ == e[j].0 && out[j].1@
                                == parse_nested(e[j].1),
                    decreases entries.len() - i,
                {
                    proof {
                        vstd::std_specs::vec::axiom_vec_index_decreases(*entries, i as int);
                    }
                    let c = match PsetNestedValue::from_json(&entries[i].1) {
                        Ok(c) => c,
                        Err(_) => PsetNestedValue::Any(entries[i].1.copy()),
                    };
                    out.push((entries[i].0.clone(), c));
                    i += 1;
                }
                let r = Psets::Nested(out);
                proof {
                    lemma_children_view(out@);
                    lemma_parse_children(e, e.len() as int);
                }
                assert(r@->Nested_0 =~= parse_children(e, e.len() as int));
                Ok(r)
            },
            _ => Err(ParseError::InvalidType),
        }
    }

    /// The wire form: a leaf as its record, a nested node as an object of its
    /// children's wire forms.
    #[verifier::loop_isolation(false)]
    pub fn to_json(&self) -> (r: DynamicValue)
        ensures
            r@ == psets_json(self@),
        decreases self, 0int,
    {
        match self {
            Psets::Pset(x) => x.to_json(),
            Psets::PsetId(x) => x.to_json(),
            Psets::Nested(entries) => {
                let ghost m = self@->Nested_0;
                proof {
                    lemma_children_view(entries@);
                }
                let mut out: Vec<(String, DynamicValue)> = Vec::new();
                let mut i: usize = 0;
                while i < entries.len()
                    invariant
                        i <= entries.len(),
                        out.len() == i,
                        forall|j: int|
                            0 <= j < i ==> (#[trigger] out[j]).0@ == m[j].0 && out[j].1@
                                == nested_json(m[j].1),
                    decreases entries.len() - i,
                {
                    proof {
                        vstd::std_specs::vec::axiom_vec_index_decreases(*entries, i as int);
                    }
                    let c = entries[i].1.to_json();
                    out.push((entries[i].0.clone(), c));
                    i += 1;
                }
                let r = DynamicValue::Object(out);
                proof {
                    lemma_members_view(out@);
                    lemma_children_json(m, m.len() as int);
                }
                assert(r@->Object_0 =~= children_json(m, m.len() as int));
                r
            },
        }
    }
}

} // verus!
