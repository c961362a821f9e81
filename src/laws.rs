//! What holds of the codec across calls: decoding what was encoded gives the
//! data point back, and the value classifier reads back what the serialiser
//! writes.
use crate::codec::{decode_spec, encodes};
use crate::error::DecodeError;
use crate::number::{
    all_digits, bool_literal, decimal_digits, decimal_value, int_text, is_digit, is_float_literal,
    is_exponent, is_mantissa, is_number, is_sign, lemma_decimal_digits, lemma_parse_i64_text,
    lemma_parse_u64_digits, parse_i64_spec, same_letter, spells,
};
use crate::parser::{
    classify, fields_spec, lemma_value_shrinks, parse_spec, strip_newlines, tags_spec,
    unquoted_spec, value_spec,
};
use crate::point::{lists_exactly, DatapointView, FieldView};
use crate::scanner::{is_stop, lemma_scan_shrinks, scan};
use crate::serializer::{
    escaped, needs_escape, render_fields, render_line, render_more_fields, render_tags, render_value,
};
use vstd::prelude::*;
use vstd::utf8::decode_utf8;

verus! {

/// `m` has one key at least.
pub open spec fn has_key<V>(m: Map<Seq<char>, V>) -> bool {
    exists|k: Seq<char>| #[trigger] m.contains_key(k)
}

/// `s` holds no `c`.
pub open spec fn lacks(s: Seq<char>, c: char) -> bool {
    forall|i: int| 0 <= i < s.len() ==> s[i] != c
}

/// A field value that the serialiser writes and the parser reads back: a
/// scalar, and for a float a valid literal with no `i` after its first
/// character (the parser takes such an `i` for an integer suffix).
pub open spec fn writable(v: FieldView) -> bool {
    match v {
        FieldView::Float(t) => is_float_literal(t) && forall|i: int| 1 <= i < t.len() ==> t[i] != 'i',
        FieldView::NonScalar => false,
        _ => true,
    }
}

/// A data point whose every region reads back as it was written.
///
/// An escape that the scanner of a region does not undo stays in the text:
/// `=` and `"` in the measurement, `"` in tags, and `,`, space and `"` in
/// field keys. Fields must not be empty.
pub open spec fn round_trippable(p: DatapointView) -> bool {
    &&& lacks(p.measurement, '=') && lacks(p.measurement, '"')
    &&& forall|k: Seq<char>| #[trigger] p.tags.contains_key(k) ==> lacks(k, '"') && lacks(p.tags[k], '"')
    &&& forall|k: Seq<char>| #[trigger]
        p.fields.contains_key(k) ==> lacks(k, ',') && lacks(k, ' ') && lacks(k, '"') && writable(p.fields[k])
    &&& has_key(p.fields)
}

/// `acc` with the pairs of `ps` inserted in order.
pub open spec fn insert_all<V>(acc: Map<Seq<char>, V>, ps: Seq<(Seq<char>, V)>) -> Map<Seq<char>, V>
    decreases ps.len(),
{
    if ps.len() == 0 {
        acc
    } else {
        insert_all(acc.insert(ps[0].0, ps[0].1), ps.drop_first())
    }
}

pub open spec fn plain(c: char) -> bool {
    c != ',' && c != ' ' && c != 'i' && c != '\\'
}

pub open spec fn float_char(c: char) -> bool {
    c != ',' && c != ' ' && c != '\\' && c != '"'
}

proof fn lemma_scan_escaped(
    s: Seq<char>,
    flag: bool,
    e1: char,
    e2: Option<char>,
    e3: Option<char>,
    t: char,
    rest: Seq<char>,
)
    requires
        is_stop(t, e1, e2, e3),
        !is_stop('\\', e1, e2, e3),
        forall|c: char| is_stop(c, e1, e2, e3) ==> needs_escape(c, flag),
        forall|i: int|
            0 <= i < s.len() && needs_escape(#[trigger] s[i], flag) ==> s[i] == '\\' || is_stop(s[i], e1, e2, e3),
    ensures
        scan(escaped(s, flag) + seq![t] + rest, e1, e2, e3) == Ok::<(Seq<char>, char, Seq<char>), DecodeError>(
            (s, t, rest),
        ),
    decreases s.len(),
{
    let input = escaped(s, flag) + seq![t] + rest;
    if s.len() == 0 {
        assert(input =~= seq![t] + rest);
        assert(input.drop_first() =~= rest);
        assert(Seq::<char>::empty() =~= s);
    } else {
        let s2 = s.drop_first();
        assert forall|i: int| 0 <= i < s2.len() && needs_escape(#[trigger] s2[i], flag) implies s2[i] == '\\'
            || is_stop(s2[i], e1, e2, e3) by {
            assert(s2[i] == s[i + 1]);
        }
        lemma_scan_escaped(s2, flag, e1, e2, e3, t, rest);
        let tail = escaped(s2, flag) + seq![t] + rest;
        let c = s[0];
        assert(seq![c] + s2 =~= s);
        if needs_escape(c, flag) {
            assert(input =~= seq!['\\', c] + tail);
            assert(input.skip(2) =~= tail);
        } else {
            assert(input =~= seq![c] + tail);
            assert(input.drop_first() =~= tail);
        }
    }
}

proof fn lemma_unquoted_plain(w: Seq<char>, tail: Seq<char>, buf: Seq<char>)
    requires
        forall|i: int| 0 <= i < w.len() ==> plain(#[trigger] w[i]),
    ensures
        unquoted_spec(w + tail, buf) == unquoted_spec(tail, buf + w),
    decreases w.len(),
{
    if w.len() == 0 {
        assert(w + tail =~= tail);
        assert(buf + w =~= buf);
    } else {
        let w2 = w.drop_first();
        assert forall|i: int| 0 <= i < w2.len() implies plain(#[trigger] w2[i]) by {
            assert(w2[i] == w[i + 1]);
        }
        lemma_unquoted_plain(w2, tail, buf.push(w[0]));
        assert((w + tail)[0] == w[0]);
        assert((w + tail).drop_first() =~= w2 + tail);
        assert(buf.push(w[0]) + w2 =~= buf + w);
    }
}

proof fn lemma_spelled_chars(body: Seq<char>, word: Seq<char>)
    requires
        spells(body, word),
        forall|i: int| 0 <= i < word.len() ==> 'a' <= #[trigger] word[i] <= 'z',
    ensures
        forall|i: int| 0 <= i < body.len() ==> float_char(#[trigger] body[i]),
{
    assert forall|i: int| 0 <= i < body.len() implies float_char(#[trigger] body[i]) by {
        assert(same_letter(body[i], word[i]));
        assert('a' <= word[i] <= 'z');
    }
}

/// The characters of a float literal, and how it begins.
proof fn lemma_float_chars(t: Seq<char>)
    requires
        is_float_literal(t),
    ensures
        t.len() > 0,
        forall|i: int| 0 <= i < t.len() ==> float_char(#[trigger] t[i]),
        is_sign(t[0]) || is_digit(t[0]) || t[0] == '.' || same_letter(t[0], 'i') || same_letter(t[0], 'n'),
{
    let signed = t.len() > 0 && is_sign(t[0]);
    let body = if signed { t.drop_first() } else { t };
    let w_inf = seq!['i', 'n', 'f'];
    let w_infinity = seq!['i', 'n', 'f', 'i', 'n', 'i', 't', 'y'];
    let w_nan = seq!['n', 'a', 'n'];
    if spells(body, w_inf) {
        lemma_spelled_chars(body, w_inf);
        assert(same_letter(body[0], w_inf[0]));
    } else if spells(body, w_infinity) {
        lemma_spelled_chars(body, w_infinity);
        assert(same_letter(body[0], w_infinity[0]));
    } else if spells(body, w_nan) {
        lemma_spelled_chars(body, w_nan);
        assert(same_letter(body[0], w_nan[0]));
    } else {
        let j = choose|j: int| 0 <= j <= body.len() && is_mantissa(#[trigger] body.take(j)) && is_exponent(body.skip(j));
        let m = body.take(j);
        let x = body.skip(j);
        assert(m.len() > 0);
        assert(body[0] == m[0]);
        assert forall|i: int| 0 <= i < body.len() implies float_char(#[trigger] body[i]) by {
            if i < j {
                assert(body[i] == m[i]);
                assert(is_digit(m[i]) || m[i] == '.');
            } else {
                assert(body[i] == x[i - j]);
                if i - j >= 2 {
                    if is_sign(x[1]) {
                        assert(x.skip(2)[i - j - 2] == x[i - j]);
                    } else {
                        assert(x.skip(1)[i - j - 1] == x[i - j]);
                    }
                } else if i - j == 1 {
                    if !is_sign(x[1]) {
                        assert(x.skip(1)[0] == x[1]);
                    }
                }
            }
        }
    }
    assert forall|i: int| 0 <= i < t.len() implies float_char(#[trigger] t[i]) by {
        if signed {
            if i > 0 {
                assert(t[i] == body[i - 1]);
            }
        } else {
            assert(t[i] == body[i]);
        }
    }
    if !signed {
        assert(t[0] == body[0]);
    }
}

/// A float literal is no boolean literal.
proof fn lemma_float_not_bool(t: Seq<char>)
    requires
        is_float_literal(t),
    ensures
        bool_literal(t) is None,
{
    lemma_float_chars(t);
    if bool_literal(t) is Some {
        assert(t[0] == 't' || t[0] == 'T' || t[0] == 'f' || t[0] == 'F');
    }
}

/// Reading back a written value: every value that the serialiser writes,
/// followed by `,` or a space, reads back as the same value.
pub proof fn lemma_value_round_trip(v: FieldView, t: char, rest: Seq<char>)
    requires
        writable(v),
        t == ',' || t == ' ',
    ensures
        value_spec(render_value(v) + seq![t] + rest) == Ok::<(FieldView, char, Seq<char>), DecodeError>(
            (v, t, rest),
        ),
{
    let input = render_value(v) + seq![t] + rest;
    match v {
        FieldView::Integer(n) => {
            lemma_parse_i64_text(n);
            let w = int_text(n);
            let tail = seq!['i', t] + rest;
            assert(input =~= seq![w[0]] + (w.drop_first() + tail));
            assert(input.drop_first() =~= w.drop_first() + tail);
            assert forall|i: int| 0 <= i < w.drop_first().len() implies plain(#[trigger] w.drop_first()[i]) by {
                assert(w.drop_first()[i] == w[i + 1]);
            }
            lemma_unquoted_plain(w.drop_first(), tail, seq![w[0]]);
            assert(seq![w[0]] + w.drop_first() =~= w);
            assert(tail.skip(2) =~= rest);
        },
        FieldView::Float(txt) => {
            lemma_float_chars(txt);
            lemma_float_not_bool(txt);
            let tail = seq![t] + rest;
            assert(input =~= seq![txt[0]] + (txt.drop_first() + tail));
            assert(input.drop_first() =~= txt.drop_first() + tail);
            assert forall|i: int| 0 <= i < txt.drop_first().len() implies plain(#[trigger] txt.drop_first()[i]) by {
                assert(txt.drop_first()[i] == txt[i + 1]);
            }
            lemma_unquoted_plain(txt.drop_first(), tail, seq![txt[0]]);
            assert(seq![txt[0]] + txt.drop_first() =~= txt);
            assert(tail.drop_first() =~= rest);
        },
        FieldView::Bool(b) => {
            let w = if b { seq!['t', 'r', 'u', 'e'] } else { seq!['f', 'a', 'l', 's', 'e'] };
            let tail = seq![t] + rest;
            assert(input =~= seq![w[0]] + (w.drop_first() + tail));
            assert(input.drop_first() =~= w.drop_first() + tail);
            lemma_unquoted_plain(w.drop_first(), tail, seq![w[0]]);
            assert(seq![w[0]] + w.drop_first() =~= w);
            assert(tail.drop_first() =~= rest);
        },
        FieldView::Str(s) => {
            let tail = seq![t] + rest;
            assert(input =~= seq!['"'] + (escaped(s, true) + seq!['"'] + tail));
            assert(input.drop_first() =~= escaped(s, true) + seq!['"'] + tail);
            lemma_scan_escaped(s, true, '"', None, None, '"', tail);
            assert(tail.drop_first() =~= rest);
        },
        FieldView::NonScalar => {},
    }
}

proof fn lemma_insert_all<V>(acc: Map<Seq<char>, V>, ps: Seq<(Seq<char>, V)>)
    requires
        forall|i: int, j: int| 0 <= i < j < ps.len() ==> #[trigger] ps[i].0 != #[trigger] ps[j].0,
    ensures
        forall|k: Seq<char>| #[trigger]
            insert_all(acc, ps).contains_key(k) <==> acc.contains_key(k) || exists|i: int|
                0 <= i < ps.len() && #[trigger] ps[i].0 == k,
        forall|i: int| 0 <= i < ps.len() ==> insert_all(acc, ps)[#[trigger] ps[i].0] == ps[i].1,
        forall|k: Seq<char>|
            acc.contains_key(k) && !(exists|i: int| 0 <= i < ps.len() && #[trigger] ps[i].0 == k) ==> #[trigger] insert_all(
                acc,
                ps,
            )[k] == acc[k],
    decreases ps.len(),
{
    if ps.len() > 0 {
        let ps2 = ps.drop_first();
        let acc2 = acc.insert(ps[0].0, ps[0].1);
        assert(insert_all(acc, ps) == insert_all(acc2, ps2));
        assert forall|i: int, j: int| 0 <= i < j < ps2.len() implies #[trigger] ps2[i].0 != #[trigger] ps2[j].0 by {
            assert(ps2[i] == ps[i + 1] && ps2[j] == ps[j + 1]);
        }
        lemma_insert_all(acc2, ps2);
        assert forall|k: Seq<char>| #[trigger]
            insert_all(acc, ps).contains_key(k) <==> acc.contains_key(k) || exists|i: int|
                0 <= i < ps.len() && #[trigger] ps[i].0 == k by {
            if exists|i: int| 0 <= i < ps2.len() && #[trigger] ps2[i].0 == k {
                let i = choose|i: int| 0 <= i < ps2.len() && #[trigger] ps2[i].0 == k;
                assert(ps[i + 1].0 == k);
            }
            if exists|i: int| 0 <= i < ps.len() && #[trigger] ps[i].0 == k {
                let i = choose|i: int| 0 <= i < ps.len() && #[trigger] ps[i].0 == k;
                if i > 0 {
                    assert(ps2[i - 1].0 == k);
                }
            }
        }
        assert forall|i: int| 0 <= i < ps.len() implies insert_all(acc, ps)[#[trigger] ps[i].0] == ps[i].1 by {
            if i > 0 {
                assert(ps2[i - 1] == ps[i]);
                assert(insert_all(acc2, ps2)[ps2[i - 1].0] == ps2[i - 1].1);
            } else {
                assert forall|j: int| 0 <= j < ps2.len() implies #[trigger] ps2[j].0 != ps[0].0 by {
                    assert(ps2[j] == ps[j + 1]);
                }
                assert(acc2.contains_key(ps[0].0));
            }
        }
        assert forall|k: Seq<char>|
            acc.contains_key(k) && !(exists|i: int| 0 <= i < ps.len() && #[trigger] ps[i].0 == k) implies #[trigger] insert_all(
                acc,
                ps,
            )[k] == acc[k] by {
            assert(ps[0].0 != k);
            if exists|i: int| 0 <= i < ps2.len() && #[trigger] ps2[i].0 == k {
                let i = choose|i: int| 0 <= i < ps2.len() && #[trigger] ps2[i].0 == k;
                assert(ps[i + 1].0 == k);
            }
        }
    }
}

/// Inserting, in order, pairs that list a map exactly gives that map.
proof fn lemma_insert_all_lists<V>(ps: Seq<(Seq<char>, V)>, m: Map<Seq<char>, V>)
    requires
        lists_exactly(ps, m),
    ensures
        insert_all(Map::empty(), ps) == m,
{
    lemma_insert_all(Map::empty(), ps);
    let r = insert_all(Map::empty(), ps);
    assert forall|k: Seq<char>| #[trigger] r.contains_key(k) <==> m.contains_key(k) by {
        if r.contains_key(k) {
            let i = choose|i: int| 0 <= i < ps.len() && #[trigger] ps[i].0 == k;
        }
    }
    assert forall|k: Seq<char>| #[trigger] m.contains_key(k) implies r[k] == m[k] by {
        let i = choose|i: int| 0 <= i < ps.len() && #[trigger] ps[i].0 == k;
    }
    assert(r =~= m);
}

proof fn lemma_tags_round_trip(ps: Seq<(Seq<char>, Seq<char>)>, acc: Map<Seq<char>, Seq<char>>, x: Seq<char>)
    requires
        ps.len() > 0,
        forall|i: int| 0 <= i < ps.len() ==> lacks(#[trigger] ps[i].0, '"') && lacks(ps[i].1, '"'),
    ensures
        tags_spec(render_tags(ps).drop_first() + seq![' '] + x, acc) == Ok::<
            (Map<Seq<char>, Seq<char>>, Seq<char>),
            DecodeError,
        >((insert_all(acc, ps), x)),
    decreases ps.len(),
{
    let k = ps[0].0;
    let v = ps[0].1;
    let ps2 = ps.drop_first();
    let c2 = if ps2.len() > 0 { ',' } else { ' ' };
    let after = if ps2.len() > 0 { render_tags(ps2).drop_first() + seq![' '] + x } else { x };
    assert(lacks(ps[0].0, '"') && lacks(ps[0].1, '"'));
    let input = render_tags(ps).drop_first() + seq![' '] + x;
    if ps2.len() > 0 {
        assert(render_tags(ps2) =~= seq![','] + render_tags(ps2).drop_first());
        assert forall|i: int| 0 <= i < ps2.len() implies lacks(#[trigger] ps2[i].0, '"') && lacks(ps2[i].1, '"') by {
            assert(ps2[i] == ps[i + 1]);
        }
        lemma_tags_round_trip(ps2, acc.insert(k, v), x);
    } else {
        assert(render_tags(ps2) =~= Seq::<char>::empty());
    }
    let vtail = escaped(v, false) + seq![c2] + after;
    assert(input =~= escaped(k, false) + seq!['='] + vtail);
    lemma_scan_escaped(k, false, '=', Some(' '), Some(','), '=', vtail);
    lemma_scan_escaped(v, false, '=', Some(' '), Some(','), c2, after);
}

proof fn lemma_fields_round_trip(fs: Seq<(Seq<char>, FieldView)>, acc: Map<Seq<char>, FieldView>, x: Seq<char>)
    requires
        fs.len() > 0,
        forall|i: int|
            0 <= i < fs.len() ==> lacks(#[trigger] fs[i].0, ',') && lacks(fs[i].0, ' ') && lacks(fs[i].0, '"')
                && writable(fs[i].1),
    ensures
        fields_spec(render_fields(fs) + seq![' '] + x, acc) == Ok::<
            (Map<Seq<char>, FieldView>, Seq<char>),
            DecodeError,
        >((insert_all(acc, fs), x)),
    decreases fs.len(),
{
    let k = fs[0].0;
    let v = fs[0].1;
    let fs2 = fs.drop_first();
    let c = if fs2.len() > 0 { ',' } else { ' ' };
    let after = if fs2.len() > 0 { render_fields(fs2) + seq![' '] + x } else { x };
    assert(lacks(fs[0].0, ',') && lacks(fs[0].0, ' ') && lacks(fs[0].0, '"') && writable(fs[0].1));
    if fs2.len() > 0 {
        assert(render_more_fields(fs2) =~= seq![','] + render_fields(fs2));
        assert forall|i: int| 0 <= i < fs2.len() implies lacks(#[trigger] fs2[i].0, ',') && lacks(fs2[i].0, ' ')
            && lacks(fs2[i].0, '"') && writable(fs2[i].1) by {
            assert(fs2[i] == fs[i + 1]);
        }
        lemma_fields_round_trip(fs2, acc.insert(k, v), x);
    } else {
        assert(render_more_fields(fs2) =~= Seq::<char>::empty());
    }
    let vtail = render_value(v) + seq![c] + after;
    assert(render_fields(fs) + seq![' '] + x =~= escaped(k, false) + seq!['='] + vtail);
    lemma_scan_escaped(k, false, '=', None, None, '=', vtail);
    lemma_value_round_trip(v, c, after);
}

proof fn lemma_parse_line(
    p: DatapointView,
    tags: Seq<(Seq<char>, Seq<char>)>,
    fields: Seq<(Seq<char>, FieldView)>,
)
    requires
        round_trippable(p),
        lists_exactly(tags, p.tags),
        lists_exactly(fields, p.fields),
    ensures
        parse_spec(render_line(p.measurement, tags, fields, p.timestamp)) == Ok::<DatapointView, DecodeError>(p),
{
    let line = render_line(p.measurement, tags, fields, p.timestamp);
    let digits = decimal_digits(p.timestamp as nat);
    lemma_decimal_digits(p.timestamp as nat);
    lemma_parse_u64_digits(p.timestamp);
    assert(line.last() == digits.last());
    assert(is_digit(digits[digits.len() - 1]));
    assert(strip_newlines(line) == line);
    assert(has_key(p.fields));
    let k0 = choose|k: Seq<char>| #[trigger] p.fields.contains_key(k);
    let i0 = choose|i: int| 0 <= i < fields.len() && #[trigger] fields[i].0 == k0;
    assert(fields.len() > 0);
    assert forall|i: int| 0 <= i < tags.len() implies lacks(#[trigger] tags[i].0, '"') && lacks(tags[i].1, '"') by {
        assert(p.tags.contains_key(tags[i].0));
    }
    assert forall|i: int|
        0 <= i < fields.len() implies lacks(#[trigger] fields[i].0, ',') && lacks(fields[i].0, ' ') && lacks(
        fields[i].0,
        '"',
    ) && writable(fields[i].1) by {
        assert(p.fields.contains_key(fields[i].0));
    }
    let rf = render_fields(fields) + seq![' '] + digits;
    lemma_fields_round_trip(fields, Map::empty(), digits);
    lemma_insert_all_lists(tags, p.tags);
    lemma_insert_all_lists(fields, p.fields);
    if tags.len() > 0 {
        let rt = render_tags(tags).drop_first() + seq![' '] + rf;
        assert(render_tags(tags) =~= seq![','] + render_tags(tags).drop_first());
        assert(line =~= escaped(p.measurement, false) + seq![','] + rt);
        lemma_scan_escaped(p.measurement, false, ',', Some(' '), None, ',', rt);
        lemma_tags_round_trip(tags, Map::empty(), rf);
    } else {
        assert(render_tags(tags) =~= Seq::<char>::empty());
        assert(line =~= escaped(p.measurement, false) + seq![' '] + rf);
        lemma_scan_escaped(p.measurement, false, ',', Some(' '), None, ' ', rf);
        assert(insert_all(Map::<Seq<char>, Seq<char>>::empty(), tags) == Map::<Seq<char>, Seq<char>>::empty());
    }
}

/// Decoding what the encoder wrote gives the data point back.
///
/// This holds for every data point whose regions survive their escapes (see
/// `round_trippable`); `bytes` is any output that `Influx::encode` may give
/// for `p`, whatever order it wrote the tags and fields in.
pub proof fn law_decode_encode(p: DatapointView, bytes: Seq<u8>)
    requires
        round_trippable(p),
        encodes(bytes, p),
    ensures
        decode_spec(bytes) == Ok::<DatapointView, DecodeError>(p),
{
    let out = decode_utf8(bytes);
    let (tags, fields) = choose|tags: Seq<(Seq<char>, Seq<char>)>, fields: Seq<(Seq<char>, FieldView)>|
        lists_exactly(tags, p.tags) && lists_exactly(fields, p.fields) && out == #[trigger] render_line(
            p.measurement,
            tags,
            fields,
            p.timestamp,
        );
    lemma_parse_line(p, tags, fields);
}

proof fn lemma_fields_nonempty(s: Seq<char>, acc: Map<Seq<char>, FieldView>)
    ensures
        fields_spec(s, acc) is Ok ==> has_key(fields_spec(s, acc)->Ok_0.0),
    decreases s.len(),
{
    lemma_scan_shrinks(s, '=', None, None);
    if let Ok((k, _, r)) = scan(s, '=', None, None) {
        lemma_value_shrinks(r);
        if value_spec(r) is Err {
            assert(fields_spec(s, acc) is Err);
        }
        if let Ok((v, c, r2)) = value_spec(r) {
            if c == ',' {
                lemma_fields_nonempty(r2, acc.insert(k, v));
                assert(fields_spec(s, acc) == fields_spec(r2, acc.insert(k, v)));
            } else {
                assert(fields_spec(s, acc) == Ok::<(Map<Seq<char>, FieldView>, Seq<char>), DecodeError>(
                    (acc.insert(k, v), r2),
                ));
                assert(acc.insert(k, v).contains_key(k));
                assert(has_key(acc.insert(k, v)));
            }
        }
    } else {
        assert(fields_spec(s, acc) is Err);
    }
}

/// A line that decodes has one field at least.
pub proof fn law_decoded_fields_nonempty(bytes: Seq<u8>)
    ensures
        decode_spec(bytes) is Ok ==> has_key(decode_spec(bytes)->Ok_0.fields),
{
    let s = strip_newlines(decode_utf8(bytes));
    if let Ok((m, c, r)) = scan(s, ',', Some(' '), None) {
        let tags = if c == ',' {
            tags_spec(r, Map::empty())
        } else {
            Ok((Map::empty(), r))
        };
        if let Ok((t, r2)) = tags {
            lemma_fields_nonempty(r2, Map::empty());
        }
    }
}

/// Encoding a decoded line and decoding the result gives the same data point
/// again, for a data point whose regions survive their escapes.
pub proof fn law_reencode(bytes: Seq<u8>, again: Seq<u8>)
    requires
        decode_spec(bytes) is Ok,
        round_trippable(decode_spec(bytes)->Ok_0),
        encodes(again, decode_spec(bytes)->Ok_0),
    ensures
        decode_spec(again) == decode_spec(bytes),
{
    law_decode_encode(decode_spec(bytes)->Ok_0, again);
}

/// Each of the ten boolean literals, followed by `,` or a space, reads as its
/// boolean.
pub proof fn law_bool_literals(lit: Seq<char>, t: char, rest: Seq<char>)
    requires
        bool_literal(lit) is Some,
        t == ',' || t == ' ',
    ensures
        value_spec(lit + seq![t] + rest) == Ok::<(FieldView, char, Seq<char>), DecodeError>(
            (FieldView::Bool(bool_literal(lit)->Some_0), t, rest),
        ),
{
    let tail = seq![t] + rest;
    let input = lit + tail;
    assert(input =~= lit + seq![t] + rest);
    assert(lit.len() > 0);
    assert forall|i: int| 0 <= i < lit.len() implies plain(#[trigger] lit[i]) && lit[i] != '"' by {}
    assert(input =~= seq![lit[0]] + (lit.drop_first() + tail));
    assert(input[0] == lit[0]);
    assert(tail[0] == t);
    assert(input.drop_first() =~= lit.drop_first() + tail);
    assert forall|i: int| 0 <= i < lit.drop_first().len() implies plain(#[trigger] lit.drop_first()[i]) by {
        assert(lit.drop_first()[i] == lit[i + 1]);
    }
    lemma_unquoted_plain(lit.drop_first(), tail, seq![lit[0]]);
    assert(seq![lit[0]] + lit.drop_first() =~= lit);
    assert(tail.drop_first() =~= rest);
    let b = bool_literal(lit)->Some_0;
    assert(classify(lit) == Some(FieldView::Bool(b)));
    assert(unquoted_spec(tail, lit) == Ok::<(FieldView, char, Seq<char>), DecodeError>(
        (FieldView::Bool(b), t, rest),
    ));
    assert(value_spec(input) == unquoted_spec(input.drop_first(), seq![lit[0]]));
}

/// The suffix `i` decides the type: a run of digits followed by `i` reads as
/// the integer it denotes, and without the suffix as a float literal.
pub proof fn law_integer_suffix(d: Seq<char>, t: char, rest: Seq<char>)
    requires
        d.len() > 0,
        all_digits(d),
        decimal_value(d) <= i64::MAX,
        t == ',' || t == ' ',
    ensures
        value_spec(d + seq!['i', t] + rest) == Ok::<(FieldView, char, Seq<char>), DecodeError>(
            (FieldView::Integer(decimal_value(d) as i64), t, rest),
        ),
        value_spec(d + seq![t] + rest) == Ok::<(FieldView, char, Seq<char>), DecodeError>(
            (FieldView::Float(d), t, rest),
        ),
{
    assert forall|i: int| 0 <= i < d.len() implies plain(#[trigger] d[i]) by {
        assert(is_digit(d[i]));
    }
    assert forall|i: int| 0 <= i < d.drop_first().len() implies plain(#[trigger] d.drop_first()[i]) by {
        assert(d.drop_first()[i] == d[i + 1]);
    }
    assert(is_digit(d[0]));
    assert(seq![d[0]] + d.drop_first() =~= d);
    let int_tail = seq!['i', t] + rest;
    let int_input = d + int_tail;
    assert(int_input =~= d + seq!['i', t] + rest);
    assert(int_input =~= seq![d[0]] + (d.drop_first() + int_tail));
    assert(int_input.drop_first() =~= d.drop_first() + int_tail);
    lemma_unquoted_plain(d.drop_first(), int_tail, seq![d[0]]);
    assert(int_tail.skip(2) =~= rest);
    assert(parse_i64_spec(d) == Some(decimal_value(d) as i64));
    let tail = seq![t] + rest;
    let input = d + tail;
    assert(input =~= d + seq![t] + rest);
    assert(input =~= seq![d[0]] + (d.drop_first() + tail));
    assert(input.drop_first() =~= d.drop_first() + tail);
    lemma_unquoted_plain(d.drop_first(), tail, seq![d[0]]);
    assert(tail.drop_first() =~= rest);
    assert(d.take(d.len() as int) =~= d);
    assert(d.skip(d.len() as int) =~= Seq::<char>::empty());
    assert(is_mantissa(d.take(d.len() as int)));
    assert(is_number(d));
    assert(is_float_literal(d));
    assert(bool_literal(d) is None);
    assert(classify(d) == Some(FieldView::Float(d)));
}

} // verus!
