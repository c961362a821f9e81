//! The serialiser: writes a data point as a line, escaping each region.
use crate::error::EncodeError;
use crate::number::{decimal_digits, int_text, push_decimal, push_int};
use crate::point::{
    field_pairs, field_pairs_view, lists_exactly, tag_pairs, tag_pairs_view,
    DatapointView, FieldValue, FieldView, InfluxDatapoint,
};
use crate::text::{chars_of, string_of};
use vstd::prelude::*;
use vstd::utf8::encode_utf8;

verus! {

/// The characters that take a backslash: `\` and `"` everywhere, and also
/// `,`, space and `=` outside quoted strings.
pub open spec fn needs_escape(c: char, in_string: bool) -> bool {
    c == '\\' || c == '"' || (!in_string && (c == ',' || c == ' ' || c == '='))
}

pub open spec fn escape_char(c: char, in_string: bool) -> Seq<char> {
    if needs_escape(c, in_string) {
        seq!['\\', c]
    } else {
        seq![c]
    }
}

/// `s` with a backslash before each character that needs one.
pub open spec fn escaped(s: Seq<char>, in_string: bool) -> Seq<char>
    decreases s.len(),
{
    if s.len() == 0 {
        Seq::empty()
    } else {
        escape_char(s[0], in_string) + escaped(s.drop_first(), in_string)
    }
}

/// A string field value as written: escaped, between double quotes.
pub open spec fn quoted(s: Seq<char>) -> Seq<char> {
    seq!['"'] + escaped(s, true) + seq!['"']
}

pub open spec fn render_value(v: FieldView) -> Seq<char> {
    match v {
        FieldView::Integer(n) => int_text(n).push('i'),
        FieldView::Float(t) => t,
        FieldView::Bool(b) => if b {
            seq!['t', 'r', 'u', 'e']
        } else {
            seq!['f', 'a', 'l', 's', 'e']
        },
        FieldView::Str(s) => quoted(s),
        FieldView::NonScalar => Seq::empty(),
    }
}

pub open spec fn render_pair(k: Seq<char>, value_text: Seq<char>) -> Seq<char> {
    escaped(k, false) + seq!['='] + value_text
}

/// Each tag, preceded by a comma.
pub open spec fn render_tags(ps: Seq<(Seq<char>, Seq<char>)>) -> Seq<char>
    decreases ps.len(),
{
    if ps.len() == 0 {
        Seq::empty()
    } else {
        seq![','] + render_pair(ps[0].0, escaped(ps[0].1, false)) + render_tags(ps.drop_first())
    }
}

/// Each field, preceded by a comma.
pub open spec fn render_more_fields(ps: Seq<(Seq<char>, FieldView)>) -> Seq<char>
    decreases ps.len(),
{
    if ps.len() == 0 {
        Seq::empty()
    } else {
        seq![','] + render_pair(ps[0].0, render_value(ps[0].1)) + render_more_fields(ps.drop_first())
    }
}

/// The fields, separated by commas.
pub open spec fn render_fields(ps: Seq<(Seq<char>, FieldView)>) -> Seq<char> {
    if ps.len() == 0 {
        Seq::empty()
    } else {
        render_pair(ps[0].0, render_value(ps[0].1)) + render_more_fields(ps.drop_first())
    }
}

/// The line for a measurement, tags and fields in the given order, and a
/// timestamp.
pub open spec fn render_line(
    m: Seq<char>,
    tags: Seq<(Seq<char>, Seq<char>)>,
    fields: Seq<(Seq<char>, FieldView)>,
    ts: u64,
) -> Seq<char> {
    escaped(m, false) + render_tags(tags) + seq![' '] + render_fields(fields) + seq![' '] + decimal_digits(
        ts as nat,
    )
}

/// `out` is the line of `p`, with its tags and fields in some order.
pub open spec fn is_line_of(out: Seq<char>, p: DatapointView) -> bool {
    exists|tags: Seq<(Seq<char>, Seq<char>)>, fields: Seq<(Seq<char>, FieldView)>|
        lists_exactly(tags, p.tags) && lists_exactly(fields, p.fields) && out == #[trigger] render_line(
            p.measurement,
            tags,
            fields,
            p.timestamp,
        )
}

pub open spec fn has_non_scalar(fields: Map<Seq<char>, FieldView>) -> bool {
    exists|k: Seq<char>| #[trigger] fields.contains_key(k) && fields[k] is NonScalar
}

/// Relies on `String::into_bytes`: the bytes are the UTF-8 encoding of the
/// string.
#[verifier::external_body]
fn utf8_bytes(s: String) -> (r: Vec<u8>)
    ensures
        r@ == encode_utf8(s@),
{
    s.into_bytes()
}

/// Appends `s` with a backslash before each character that needs one.
fn push_escaped(out: &mut Vec<char>, s: &str, in_string: bool)
    ensures
        final(out)@ == old(out)@ + escaped(s@, in_string),
{
    let chars = chars_of(s);
    let mut i: usize = 0;
    assert(chars@.skip(0) =~= chars@);
    while i < chars.len()
        invariant
            i <= chars@.len(),
            chars@ == s@,
            out@ + escaped(chars@.skip(i as int), in_string) == old(out)@ + escaped(s@, in_string),
        decreases chars@.len() - i,
    {
        let c = chars[i];
        let ghost before = out@;
        assert(chars@.skip(i as int).drop_first() =~= chars@.skip(i + 1));
        assert(chars@.skip(i as int)[0] == c);
        if c == '\\' || c == '"' || (!in_string && (c == ',' || c == ' ' || c == '=')) {
            out.push('\\');
            out.push(c);
            assert(out@ =~= before + seq!['\\', c]);
        } else {
            out.push(c);
            assert(out@ =~= before + seq![c]);
        }
        i = i + 1;
    }
    assert(escaped(chars@.skip(i as int), in_string) =~= Seq::<char>::empty());
    assert(out@ =~= out@ + Seq::<char>::empty());
}

/// `s` with a backslash before `,`, space, `\`, `=` and `"`.
pub fn escape(s: &str) -> (r: String)
    ensures
        r@ == escaped(s@, false),
{
    let mut out: Vec<char> = Vec::new();
    push_escaped(&mut out, s, false);
    assert(out@ =~= escaped(s@, false));
    string_of(&out)
}

/// `s` as a quoted string value: `\` and `"` escaped, between double quotes.
pub fn process_string(s: &str) -> (r: String)
    ensures
        r@ == quoted(s@),
{
    let mut out: Vec<char> = Vec::new();
    out.push('"');
    push_escaped(&mut out, s, true);
    out.push('"');
    assert(out@ =~= quoted(s@));
    string_of(&out)
}

/// Appends the text of a field value, or fails on a non-scalar one.
fn push_value(out: &mut Vec<char>, v: &FieldValue) -> (r: Result<(), EncodeError>)
    ensures
        r is Err <==> v@ is NonScalar,
        r is Ok ==> final(out)@ == old(out)@ + render_value(v@),
{
    match v {
        FieldValue::Integer(n) => {
            push_int(out, *n);
            out.push('i');
            Ok(())
        },
        FieldValue::Float(f) => {
            let ghost before = out@;
            let cs = chars_of(f.as_str());
            let mut i: usize = 0;
            while i < cs.len()
                invariant
                    i <= cs@.len(),
                    out@ == before + cs@.take(i as int),
                decreases cs@.len() - i,
            {
                out.push(cs[i]);
                i = i + 1;
                assert(out@ =~= before + cs@.take(i as int));
            }
            assert(cs@.take(i as int) =~= cs@);
            Ok(())
        },
        FieldValue::Bool(b) => {
            let ghost before = out@;
            if *b {
                out.push('t');
                out.push('r');
                out.push('u');
                out.push('e');
                assert(out@ =~= before + seq!['t', 'r', 'u', 'e']);
            } else {
                out.push('f');
                out.push('a');
                out.push('l');
                out.push('s');
                out.push('e');
                assert(out@ =~= before + seq!['f', 'a', 'l', 's', 'e']);
            }
            Ok(())
        },
        FieldValue::Str(s) => {
            let ghost before = out@;
            out.push('"');
            push_escaped(out, s.as_str(), true);
            out.push('"');
            assert(out@ =~= before + quoted(s@));
            Ok(())
        },
        FieldValue::NonScalar(_) => Err(EncodeError::NonScalarField),
    }
}

impl InfluxDatapoint {
    /// The line of this data point, as UTF-8 bytes.
    ///
    /// Tags and fields come in the order in which their maps are walked;
    /// fields are separated by commas.
    pub fn try_to_bytes(&self) -> (r: Result<Vec<u8>, EncodeError>)
        ensures
            r is Err <==> has_non_scalar(self@.fields),
            r matches Ok(b) ==> crate::codec::encodes(b@, self@),
    {
        let mut out: Vec<char> = Vec::new();
        push_escaped(&mut out, self.measurement.as_str(), false);
        let ghost head = out@;
        let tags = tag_pairs(&self.tags);
        let ghost tv = tag_pairs_view(tags@);
        let mut i: usize = 0;
        assert(tv.skip(0) =~= tv);
        while i < tags.len()
            invariant
                i <= tags@.len(),
                tv == tag_pairs_view(tags@),
                lists_exactly(tv, self@.tags),
                out@ + render_tags(tv.skip(i as int)) == head + render_tags(tv),
            decreases tags@.len() - i,
        {
            let ghost before = out@;
            assert(tv.skip(i as int).drop_first() =~= tv.skip(i + 1));
            assert(tv.skip(i as int)[0] == (tags@[i as int].0@, tags@[i as int].1@));
            out.push(',');
            push_escaped(&mut out, tags[i].0.as_str(), false);
            out.push('=');
            push_escaped(&mut out, tags[i].1.as_str(), false);
            assert(out@ =~= before + seq![','] + render_pair(tags@[i as int].0@, escaped(tags@[i as int].1@, false)));
            i = i + 1;
        }
        assert(render_tags(tv.skip(i as int)) =~= Seq::<char>::empty());
        assert(out@ =~= head + render_tags(tv));
        out.push(' ');
        let ghost mid = out@;
        let fields = field_pairs(&self.fields);
        let ghost fv = field_pairs_view(fields@);
        let mut j: usize = 0;
        while j < fields.len()
            invariant
                j <= fields@.len(),
                fv == field_pairs_view(fields@),
                lists_exactly(tv, self@.tags),
                lists_exactly(fv, self@.fields),
                forall|k: int| 0 <= k < j ==> !(#[trigger] fv[k].1 is NonScalar),
                j == 0 ==> out@ == mid,
                j > 0 ==> out@ + render_more_fields(fv.skip(j as int)) == mid + render_fields(fv),
            decreases fields@.len() - j,
        {
            let ghost before = out@;
            assert(fv.skip(j as int).drop_first() =~= fv.skip(j + 1));
            assert(fv[j as int] == (fields@[j as int].0@, fields@[j as int].1@));
            if j > 0 {
                out.push(',');
            }
            push_escaped(&mut out, fields[j].0.as_str(), false);
            out.push('=');
            match push_value(&mut out, fields[j].1) {
                Ok(()) => {},
                Err(e) => {
                    proof {
                        assert(self@.fields.contains_key(fv[j as int].0));
                    }
                    return Err(e);
                },
            }
            proof {
                let pair = render_pair(fv[j as int].0, render_value(fv[j as int].1));
                if j > 0 {
                    assert(out@ =~= before + seq![','] + pair);
                } else {
                    assert(out@ =~= before + pair);
                    assert(fv.drop_first() =~= fv.skip(1));
                }
            }
            j = j + 1;
        }
        proof {
            assert forall|k: Seq<char>| #[trigger] self@.fields.contains_key(k) implies !(self@.fields[k] is NonScalar) by {
                let w = choose|w: int| 0 <= w < fv.len() && #[trigger] fv[w].0 == k;
                assert(!(fv[w].1 is NonScalar));
            }
            if j > 0 {
                assert(render_more_fields(fv.skip(j as int)) =~= Seq::<char>::empty());
                assert(out@ =~= mid + render_fields(fv));
            } else {
                assert(out@ =~= mid + render_fields(fv));
            }
        }
        out.push(' ');
        push_decimal(&mut out, self.timestamp);
        proof {
            assert(out@ =~= render_line(self@.measurement, tv, fv, self@.timestamp));
            assert(is_line_of(out@, self@));
            vstd::utf8::encode_utf8_valid_utf8(out@);
            vstd::utf8::encode_utf8_decode_utf8(out@);
        }
        let text = string_of(&out);
        Ok(utf8_bytes(text))
    }
}

} // verus!
