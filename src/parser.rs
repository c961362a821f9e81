//! The line parser: the regions of a line, in order, and the classification
//! of field values.
use crate::error::{DecodeError, Malformation};
use crate::number::{
    bool_literal, bool_literal_exec, float_literal_ok, is_float_literal, parse_i64, parse_i64_spec,
    parse_u64_range, parse_u64_spec,
};
use crate::point::{
    field_entries, field_map_insert, new_field_map, new_tag_map, tag_entries, tag_map_insert,
    DatapointView, FieldMap, FieldValue, FieldView, FloatLiteral, InfluxDatapoint, TagMap,
};
use crate::scanner::{lemma_scan_shrinks, parse_to_char, parse_to_char2, parse_to_char3, scan, Cursor};
use crate::text::{chars_of, string_of};
use vstd::prelude::*;

verus! {

pub open spec fn malformed(m: Malformation) -> DecodeError {
    DecodeError::Malformed(m)
}

/// `s` without its trailing newlines.
pub open spec fn strip_newlines(s: Seq<char>) -> Seq<char>
    decreases s.len(),
{
    if s.len() > 0 && s.last() == '\n' {
        strip_newlines(s.drop_last())
    } else {
        s
    }
}

pub type TagsScanned = Result<(Map<Seq<char>, Seq<char>>, Seq<char>), DecodeError>;

pub type FieldsScanned = Result<(Map<Seq<char>, FieldView>, Seq<char>), DecodeError>;

pub type ValueScanned = Result<(FieldView, char, Seq<char>), DecodeError>;

/// Reads `key=value` pairs separated by `,` up to a space, adding them to
/// `acc`; returns the tags and what follows the space.
pub open spec fn tags_spec(s: Seq<char>, acc: Map<Seq<char>, Seq<char>>) -> TagsScanned
    decreases s.len(),
    via tags_spec_decreases
{
    match scan(s, '=', Some(' '), Some(',')) {
        Err(e) => Err(e),
        Ok((k, c, r)) => if c != '=' {
            Err(malformed(Malformation::TagWithoutValue))
        } else {
            match scan(r, '=', Some(' '), Some(',')) {
                Err(e) => Err(e),
                Ok((v, c2, r2)) => if c2 == '=' {
                    Err(malformed(Malformation::EqualsInTagValue))
                } else if c2 == ',' {
                    tags_spec(r2, acc.insert(k, v))
                } else {
                    Ok((acc.insert(k, v), r2))
                },
            }
        },
    }
}

#[via_fn]
proof fn tags_spec_decreases(s: Seq<char>, acc: Map<Seq<char>, Seq<char>>) {
    lemma_scan_shrinks(s, '=', Some(' '), Some(','));
    if let Ok((k, c, r)) = scan(s, '=', Some(' '), Some(',')) {
        lemma_scan_shrinks(r, '=', Some(' '), Some(','));
    }
}

/// The value that an unquoted token other than an integer stands for.
pub open spec fn classify(tok: Seq<char>) -> Option<FieldView> {
    match bool_literal(tok) {
        Some(b) => Some(FieldView::Bool(b)),
        None => if is_float_literal(tok) {
            Some(FieldView::Float(tok))
        } else {
            None
        },
    }
}

/// Reads the rest of an unquoted field value whose characters so far are
/// `buf`.
pub open spec fn unquoted_spec(s: Seq<char>, buf: Seq<char>) -> ValueScanned
    decreases s.len(),
{
    if s.len() == 0 {
        Err(malformed(Malformation::UnterminatedFieldValue))
    } else if s[0] == ',' || s[0] == ' ' {
        match classify(buf) {
            Some(v) => Ok((v, s[0], s.drop_first())),
            None => Err(malformed(Malformation::BadFieldValue)),
        }
    } else if s[0] == 'i' {
        if s.len() < 2 {
            Err(malformed(Malformation::BadIntegerSuffix))
        } else if s[1] == ',' || s[1] == ' ' {
            match parse_i64_spec(buf) {
                Some(n) => Ok((FieldView::Integer(n), s[1], s.skip(2))),
                None => Err(malformed(Malformation::BadFieldValue)),
            }
        } else {
            Err(malformed(Malformation::BadIntegerSuffix))
        }
    } else if s[0] == '\\' {
        if s.len() < 2 {
            Err(malformed(Malformation::UnterminatedFieldValue))
        } else {
            unquoted_spec(s.skip(2), buf.push(s[1]))
        }
    } else {
        unquoted_spec(s.drop_first(), buf.push(s[0]))
    }
}

/// Reads a quoted string body and the `,` or space after its closing quote.
pub open spec fn string_spec(s: Seq<char>) -> ValueScanned {
    match scan(s, '"', None, None) {
        Err(e) => Err(e),
        Ok((t, _, r)) => if r.len() > 0 && (r[0] == ',' || r[0] == ' ') {
            Ok((FieldView::Str(t), r[0], r.drop_first()))
        } else {
            Err(malformed(Malformation::UnexpectedAfterString))
        },
    }
}

/// Reads a field value and the `,` or space that ends it.
pub open spec fn value_spec(s: Seq<char>) -> ValueScanned {
    if s.len() == 0 {
        Err(malformed(Malformation::UnterminatedFieldValue))
    } else if s[0] == '"' {
        string_spec(s.drop_first())
    } else if s[0] == ',' || s[0] == ' ' {
        Err(malformed(Malformation::BadFieldValue))
    } else {
        unquoted_spec(s.drop_first(), seq![s[0]])
    }
}

proof fn lemma_unquoted_shrinks(s: Seq<char>, buf: Seq<char>)
    ensures
        unquoted_spec(s, buf) matches Ok((_, c, rest)) ==> rest.len() < s.len() && (c == ',' || c == ' '),
    decreases s.len(),
{
    if s.len() >= 2 && s[0] == '\\' {
        lemma_unquoted_shrinks(s.skip(2), buf.push(s[1]));
    } else if s.len() > 0 && s[0] != ',' && s[0] != ' ' && s[0] != 'i' && s[0] != '\\' {
        lemma_unquoted_shrinks(s.drop_first(), buf.push(s[0]));
    }
}

/// A field value that reads consumes something, and ends at `,` or a space.
pub proof fn lemma_value_shrinks(s: Seq<char>)
    ensures
        value_spec(s) matches Ok((_, c, rest)) ==> rest.len() < s.len() && (c == ',' || c == ' '),
{
    if s.len() > 0 {
        if s[0] == '"' {
            lemma_scan_shrinks(s.drop_first(), '"', None, None);
        } else if s[0] != ',' && s[0] != ' ' {
            lemma_unquoted_shrinks(s.drop_first(), seq![s[0]]);
        }
    }
}

/// Reads `key=value` fields separated by `,` up to a space, adding them to
/// `acc`; returns the fields and what follows the space.
pub open spec fn fields_spec(s: Seq<char>, acc: Map<Seq<char>, FieldView>) -> FieldsScanned
    decreases s.len(),
    via fields_spec_decreases
{
    match scan(s, '=', None, None) {
        Err(e) => Err(e),
        Ok((k, _, r)) => match value_spec(r) {
            Err(e) => Err(e),
            Ok((v, c, r2)) => if c == ',' {
                fields_spec(r2, acc.insert(k, v))
            } else {
                Ok((acc.insert(k, v), r2))
            },
        },
    }
}

#[via_fn]
proof fn fields_spec_decreases(s: Seq<char>, acc: Map<Seq<char>, FieldView>) {
    lemma_scan_shrinks(s, '=', None, None);
    if let Ok((k, c, r)) = scan(s, '=', None, None) {
        lemma_value_shrinks(r);
    }
}

/// The data point that a line denotes, or why it denotes none.
pub open spec fn parse_spec(data: Seq<char>) -> Result<DatapointView, DecodeError> {
    let s = strip_newlines(data);
    if s.len() == 0 {
        Err(malformed(Malformation::Empty))
    } else {
        match scan(s, ',', Some(' '), None) {
            Err(e) => Err(e),
            Ok((m, c, r)) => {
                let tags = if c == ',' {
                    tags_spec(r, Map::empty())
                } else {
                    Ok((Map::empty(), r))
                };
                match tags {
                    Err(e) => Err(e),
                    Ok((tags, r2)) => match fields_spec(r2, Map::empty()) {
                        Err(e) => Err(e),
                        Ok((fields, r3)) => match parse_u64_spec(r3) {
                            None => Err(malformed(Malformation::BadTimestamp)),
                            Some(ts) => Ok(
                                DatapointView { measurement: m, tags, fields, timestamp: ts },
                            ),
                        },
                    },
                }
            },
        }
    }
}

pub open spec fn result_view(r: Result<InfluxDatapoint, DecodeError>) -> Result<DatapointView, DecodeError> {
    match r {
        Ok(p) => Ok(p@),
        Err(e) => Err(e),
    }
}

/// Reads the tags of a line, up to the space that ends them.
pub fn parse_tags(chars: &mut Cursor) -> (r: Result<TagMap, DecodeError>)
    requires
        old(chars).wf(),
    ensures
        final(chars).wf(),
        match tags_spec(old(chars)@, Map::empty()) {
            Ok((m, rest)) => r matches Ok(t) && tag_entries(t) == m && final(chars)@ == rest,
            Err(e) => r matches Err(e2) && e2 == e,
        },
{
    let ghost start = chars@;
    let mut res = new_tag_map();
    assert(tag_entries(res) =~= Map::<Seq<char>, Seq<char>>::empty());
    loop
        invariant
            chars.wf(),
            start == old(chars)@,
            tags_spec(start, Map::empty()) == tags_spec(chars@, tag_entries(res)),
        decreases chars@.len(),
    {
        let ghost before = chars@;
        let ghost acc = tag_entries(res);
        proof {
            lemma_scan_shrinks(before, '=', Some(' '), Some(','));
        }
        let (key, c) = match parse_to_char3(chars, '=', Some(' '), Some(',')) {
            Ok(kc) => kc,
            Err(e) => {
                return Err(e);
            },
        };
        if c != '=' {
            return Err(DecodeError::Malformed(Malformation::TagWithoutValue));
        }
        let ghost mid = chars@;
        proof {
            lemma_scan_shrinks(mid, '=', Some(' '), Some(','));
        }
        let (val, c) = match parse_to_char3(chars, '=', Some(' '), Some(',')) {
            Ok(vc) => vc,
            Err(e) => {
                return Err(e);
            },
        };
        if c == '=' {
            return Err(DecodeError::Malformed(Malformation::EqualsInTagValue));
        }
        let ghost k = key@;
        let ghost v = val@;
        tag_map_insert(&mut res, key, val);
        assert(tags_spec(before, acc) == if c == ',' {
            tags_spec(chars@, acc.insert(k, v))
        } else {
            Ok((acc.insert(k, v), chars@))
        });
        if c == ' ' {
            return Ok(res);
        }
    }
}

/// Reads the body of a quoted string and the character after it.
pub fn parse_string(chars: &mut Cursor) -> (r: Result<(FieldValue, char), DecodeError>)
    requires
        old(chars).wf(),
    ensures
        final(chars).wf(),
        match string_spec(old(chars)@) {
            Ok((v, c, rest)) => r matches Ok((fv, e)) && fv@ == v && e == c && final(chars)@ == rest,
            Err(e) => r matches Err(e2) && e2 == e,
        },
{
    let val = match parse_to_char(chars, '"') {
        Ok(v) => v,
        Err(e) => {
            return Err(e);
        },
    };
    match chars.next() {
        Some(',') => Ok((FieldValue::Str(val), ',')),
        Some(' ') => Ok((FieldValue::Str(val), ' ')),
        _ => Err(DecodeError::Malformed(Malformation::UnexpectedAfterString)),
    }
}

/// The boolean or float that an unquoted token stands for.
pub fn float_or_bool(s: &str) -> (r: Result<FieldValue, DecodeError>)
    ensures
        match classify(s@) {
            Some(v) => r matches Ok(fv) && fv@ == v,
            None => r matches Err(e) && e == malformed(Malformation::BadFieldValue),
        },
{
    let chars = chars_of(s);
    match bool_literal_exec(&chars) {
        Some(b) => Ok(FieldValue::Bool(b)),
        None => if float_literal_ok(&chars) {
            Ok(FieldValue::Float(FloatLiteral::from_chars(&chars)))
        } else {
            Err(DecodeError::Malformed(Malformation::BadFieldValue))
        },
    }
}

/// Reads a field value and the `,` or space that ends it.
pub fn parse_value(chars: &mut Cursor) -> (r: Result<(FieldValue, char), DecodeError>)
    requires
        old(chars).wf(),
    ensures
        final(chars).wf(),
        match value_spec(old(chars)@) {
            Ok((v, c, rest)) => r matches Ok((fv, e)) && fv@ == v && e == c && final(chars)@ == rest,
            Err(e) => r matches Err(e2) && e2 == e,
        },
{
    let ghost start = chars@;
    let mut res: Vec<char> = Vec::new();
    match chars.next() {
        Some('"') => {
            return parse_string(chars);
        },
        Some(' ') | Some(',') => {
            return Err(DecodeError::Malformed(Malformation::BadFieldValue));
        },
        None => {
            return Err(DecodeError::Malformed(Malformation::UnterminatedFieldValue));
        },
        Some(c) => {
            res.push(c);
            assert(res@ =~= seq![c]);
        },
    }
    loop
        invariant
            chars.wf(),
            start == old(chars)@,
            value_spec(start) == unquoted_spec(chars@, res@),
        decreases chars@.len(),
    {
        let ghost before = chars@;
        match chars.next() {
            None => {
                return Err(DecodeError::Malformed(Malformation::UnterminatedFieldValue));
            },
            Some(c) => {
                if c == ',' || c == ' ' {
                    let token = string_of(&res);
                    return match float_or_bool(token.as_str()) {
                        Ok(v) => Ok((v, c)),
                        Err(e) => Err(e),
                    };
                } else if c == 'i' {
                    match chars.next() {
                        Some(d) => {
                            if d == ',' || d == ' ' {
                                assert(chars@ =~= before.skip(2));
                                return match parse_i64(&res) {
                                    Some(n) => Ok((FieldValue::Integer(n), d)),
                                    None => Err(DecodeError::Malformed(Malformation::BadFieldValue)),
                                };
                            } else {
                                return Err(DecodeError::Malformed(Malformation::BadIntegerSuffix));
                            }
                        },
                        None => {
                            return Err(DecodeError::Malformed(Malformation::BadIntegerSuffix));
                        },
                    }
                } else if c == '\\' {
                    match chars.next() {
                        Some(d) => {
                            assert(chars@ =~= before.skip(2));
                            res.push(d);
                        },
                        None => {
                            return Err(DecodeError::Malformed(Malformation::UnterminatedFieldValue));
                        },
                    }
                } else {
                    res.push(c);
                }
            },
        }
    }
}

/// Reads the fields of a line, up to the space that ends them.
pub fn parse_fields(chars: &mut Cursor) -> (r: Result<FieldMap, DecodeError>)
    requires
        old(chars).wf(),
    ensures
        final(chars).wf(),
        match fields_spec(old(chars)@, Map::empty()) {
            Ok((m, rest)) => r matches Ok(t) && field_entries(t) == m && final(chars)@ == rest,
            Err(e) => r matches Err(e2) && e2 == e,
        },
{
    let ghost start = chars@;
    let mut res = new_field_map();
    assert(field_entries(res) =~= Map::<Seq<char>, FieldView>::empty());
    loop
        invariant
            chars.wf(),
            start == old(chars)@,
            fields_spec(start, Map::empty()) == fields_spec(chars@, field_entries(res)),
        decreases chars@.len(),
    {
        let ghost before = chars@;
        proof {
            lemma_scan_shrinks(before, '=', None, None);
        }
        let key = match parse_to_char(chars, '=') {
            Ok(k) => k,
            Err(e) => {
                return Err(e);
            },
        };
        proof {
            lemma_value_shrinks(chars@);
        }
        let (val, c) = match parse_value(chars) {
            Ok(vc) => vc,
            Err(e) => {
                return Err(e);
            },
        };
        field_map_insert(&mut res, key, val);
        if c == ' ' {
            return Ok(res);
        }
    }
}

/// Parses one line into a data point.
pub fn parse(data: &str) -> (r: Result<InfluxDatapoint, DecodeError>)
    ensures
        result_view(r) == parse_spec(data@),
{
    let mut text = chars_of(data);
    while text.len() > 0 && text[text.len() - 1] == '\n'
        invariant
            strip_newlines(text@) == strip_newlines(data@),
        decreases text.len(),
    {
        let ghost before = text@;
        text.pop();
        assert(text@ =~= before.drop_last());
    }
    if text.len() == 0 {
        return Err(DecodeError::Malformed(Malformation::Empty));
    }
    let mut chars = Cursor::new(text);
    let (measurement, c) = match parse_to_char2(&mut chars, ',', ' ') {
        Ok(mc) => mc,
        Err(e) => {
            return Err(e);
        },
    };
    let tags = if c == ',' {
        match parse_tags(&mut chars) {
            Ok(t) => t,
            Err(e) => {
                return Err(e);
            },
        }
    } else {
        let t = new_tag_map();
        assert(tag_entries(t) =~= Map::<Seq<char>, Seq<char>>::empty());
        t
    };
    let fields = match parse_fields(&mut chars) {
        Ok(f) => f,
        Err(e) => {
            return Err(e);
        },
    };
    let rest = chars.rest();
    assert(rest@.subrange(0, rest@.len() as int) =~= rest@);
    let timestamp = match parse_u64_range(&rest, 0, rest.len()) {
        Some(ts) => ts,
        None => {
            return Err(DecodeError::Malformed(Malformation::BadTimestamp));
        },
    };
    Ok(InfluxDatapoint { measurement, tags, fields, timestamp })
}

} // verus!
