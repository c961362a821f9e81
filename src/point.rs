//! The data point that a line carries, and the maps that hold its tags and
//! fields.
use crate::number::{float_literal_ok, is_float_literal};
use vstd::prelude::*;

verus! {

/// halfbrown's map, which holds the tags and the fields of a data point.
#[verifier::external_type_specification]
#[verifier::external_body]
#[verifier::reject_recursive_types(K)]
#[verifier::reject_recursive_types(V)]
#[verifier::reject_recursive_types(S)]
pub struct ExSizedHashMap<K, V, S, const N: usize>(halfbrown::SizedHashMap<K, V, S, N>);

/// The hasher that halfbrown's map uses unless told otherwise.
#[verifier::external_type_specification]
#[verifier::external_body]
pub struct ExDefaultHashBuilder(halfbrown::DefaultHashBuilder);

/// The decimal literal of a 64-bit float, in the grammar that std's float
/// parser accepts (`82`, `-1.5e3`, `inf`, `NaN`).
///
/// Two literals are equal when their text is; `82` and `82.0` name the same
/// float but are different literals.
#[derive(Debug, PartialEq)]
pub struct FloatLiteral {
    text: String,
}

impl Clone for FloatLiteral {
    fn clone(&self) -> (r: FloatLiteral)
        ensures
            r.spec_text() == self.spec_text(),
    {
        proof {
            use_type_invariant(self);
        }
        FloatLiteral { text: self.text.clone() }
    }
}

impl FloatLiteral {
    #[verifier::type_invariant]
    spec fn inv(&self) -> bool {
        is_float_literal(self.text@)
    }

    pub closed spec fn spec_text(&self) -> Seq<char> {
        self.text@
    }

    /// The literal for `text`, if std's float parser accepts it.
    pub fn parse(text: &str) -> (r: Option<FloatLiteral>)
        ensures
            r is Some <==> is_float_literal(text@),
            r matches Some(f) ==> f.spec_text() == text@,
    {
        let chars = crate::text::chars_of(text);
        if float_literal_ok(&chars) {
            Some(FloatLiteral { text: text.to_owned() })
        } else {
            None
        }
    }

    pub(crate) fn from_chars(chars: &Vec<char>) -> (r: FloatLiteral)
        requires
            is_float_literal(chars@),
        ensures
            r.spec_text() == chars@,
    {
        FloatLiteral { text: crate::text::string_of(chars) }
    }

    /// The text of the literal.
    pub fn as_str(&self) -> (r: &str)
        ensures
            r@ == self.spec_text(),
    {
        self.text.as_str()
    }
}

/// The shapes of a producer's value that have no line protocol form.
#[derive(Clone, Copy, Debug, PartialEq, Eq, Structural)]
pub enum NonScalarKind {
    Null,
    Array,
    Object,
}

/// The value of a field.
///
/// Only the first four variants have a line protocol form; `NonScalar` stands
/// for what a producer may hand in and the encoder refuses.
#[derive(Clone, Debug, PartialEq)]
pub enum FieldValue {
    /// Written with the suffix `i`.
    Integer(i64),
    /// An unsuffixed number.
    Float(FloatLiteral),
    /// One of the boolean literals.
    Bool(bool),
    /// Written between double quotes.
    Str(String),
    /// An array, an object or null.
    NonScalar(NonScalarKind),
}

/// What a field value means to the codec.
pub enum FieldView {
    Integer(i64),
    Float(Seq<char>),
    Bool(bool),
    Str(Seq<char>),
    NonScalar,
}

impl View for FieldValue {
    type V = FieldView;

    open spec fn view(&self) -> FieldView {
        match self {
            FieldValue::Integer(n) => FieldView::Integer(*n),
            FieldValue::Float(f) => FieldView::Float(f.spec_text()),
            FieldValue::Bool(b) => FieldView::Bool(*b),
            FieldValue::Str(s) => FieldView::Str(s@),
            FieldValue::NonScalar(_) => FieldView::NonScalar,
        }
    }
}

/// Tag keys to tag values.
pub type TagMap = halfbrown::HashMap<String, String>;

/// Field keys to field values.
pub type FieldMap = halfbrown::HashMap<String, FieldValue>;

/// What a tag map holds.
pub uninterp spec fn tag_entries(m: TagMap) -> Map<Seq<char>, Seq<char>>;

/// What a field map holds.
pub uninterp spec fn field_entries(m: FieldMap) -> Map<Seq<char>, FieldView>;

/// `ps` lists each entry of `m` once, in some order.
pub open spec fn lists_exactly<V>(ps: Seq<(Seq<char>, V)>, m: Map<Seq<char>, V>) -> bool {
    &&& forall|i: int| 0 <= i < ps.len() ==> m.contains_key(#[trigger] ps[i].0) && m[ps[i].0] == ps[i].1
    &&& forall|k: Seq<char>| #[trigger] m.contains_key(k) ==> exists|i: int| 0 <= i < ps.len() && #[trigger] ps[i].0 == k
    &&& forall|i: int, j: int| 0 <= i < j < ps.len() ==> #[trigger] ps[i].0 != #[trigger] ps[j].0
}

/// The entries of a tag map as handed out, as characters.
pub open spec fn tag_pairs_view(v: Seq<(&String, &String)>) -> Seq<(Seq<char>, Seq<char>)> {
    v.map_values(|p: (&String, &String)| (p.0@, p.1@))
}

/// The entries of a field map as handed out, as characters and values.
pub open spec fn field_pairs_view(v: Seq<(&String, &FieldValue)>) -> Seq<(Seq<char>, FieldView)> {
    v.map_values(|p: (&String, &FieldValue)| (p.0@, p.1@))
}

/// Relies on `halfbrown::HashMap::new`: the new map is empty.
#[verifier::external_body]
pub(crate) fn new_tag_map() -> (r: TagMap)
    ensures
        tag_entries(r).dom() == Set::<Seq<char>>::empty(),
{
    halfbrown::HashMap::new()
}

/// Relies on `halfbrown::HashMap::insert`: the key maps to the value
/// afterwards, and the other entries stay.
#[verifier::external_body]
pub(crate) fn tag_map_insert(m: &mut TagMap, k: String, v: String)
    ensures
        tag_entries(*final(m)) == tag_entries(*old(m)).insert(k@, v@),
{
    m.insert(k, v);
}

/// Relies on `halfbrown::HashMap::iter`: it visits every entry once, and
/// the keys of a map are distinct.
#[verifier::external_body]
pub(crate) fn tag_pairs<'a>(m: &'a TagMap) -> (r: Vec<(&'a String, &'a String)>)
    ensures
        lists_exactly(tag_pairs_view(r@), tag_entries(*m)),
{
    m.iter().collect()
}

/// Relies on `halfbrown::HashMap::new`: the new map is empty.
#[verifier::external_body]
pub(crate) fn new_field_map() -> (r: FieldMap)
    ensures
        field_entries(r).dom() == Set::<Seq<char>>::empty(),
{
    halfbrown::HashMap::new()
}

/// Relies on `halfbrown::HashMap::insert`: the key maps to the value
/// afterwards, and the other entries stay.
#[verifier::external_body]
pub(crate) fn field_map_insert(m: &mut FieldMap, k: String, v: FieldValue)
    ensures
        field_entries(*final(m)) == field_entries(*old(m)).insert(k@, v@),
{
    m.insert(k, v);
}

/// Relies on `halfbrown::HashMap::iter`: it visits every entry once, and
/// the keys of a map are distinct.
#[verifier::external_body]
pub(crate) fn field_pairs<'a>(m: &'a FieldMap) -> (r: Vec<(&'a String, &'a FieldValue)>)
    ensures
        lists_exactly(field_pairs_view(r@), field_entries(*m)),
{
    m.iter().collect()
}

/// One line of the protocol: a measurement, tags, fields and a timestamp in
/// nanoseconds.
#[derive(Debug, PartialEq)]
pub struct InfluxDatapoint {
    pub measurement: String,
    pub tags: TagMap,
    pub fields: FieldMap,
    pub timestamp: u64,
}

/// What a data point means: its text as characters, its maps as maps.
pub struct DatapointView {
    pub measurement: Seq<char>,
    pub tags: Map<Seq<char>, Seq<char>>,
    pub fields: Map<Seq<char>, FieldView>,
    pub timestamp: u64,
}

impl View for InfluxDatapoint {
    type V = DatapointView;

    open spec fn view(&self) -> DatapointView {
        DatapointView {
            measurement: self.measurement@,
            tags: tag_entries(self.tags),
            fields: field_entries(self.fields),
            timestamp: self.timestamp,
        }
    }
}

} // verus!
