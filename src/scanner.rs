//! A forward cursor over the characters of a line, and the scan that reads a
//! region up to one of a few stop characters.
use crate::error::{DecodeError, Malformation};
use vstd::prelude::*;

verus! {

pub open spec fn is_stop(c: char, end1: char, end2: Option<char>, end3: Option<char>) -> bool {
    c == end1 || end2 == Some(c) || end3 == Some(c)
}

/// A scanned region: its unescaped text, the stop character that closed it,
/// and what follows that character.
pub type Scanned = Result<(Seq<char>, char, Seq<char>), DecodeError>;

/// Puts `p` in front of the text of a scanned region.
pub open spec fn prepend(p: Seq<char>, r: Scanned) -> Scanned {
    match r {
        Ok((t, c, rest)) => Ok((p + t, c, rest)),
        Err(e) => Err(e),
    }
}

/// Reads `s` up to the first stop character outside an escape.
///
/// A backslash followed by a backslash or a stop character stands for that
/// character; followed by anything else, both characters stay.
pub open spec fn scan(s: Seq<char>, end1: char, end2: Option<char>, end3: Option<char>) -> Scanned
    decreases s.len(),
{
    if s.len() == 0 {
        Err(DecodeError::Malformed(Malformation::UnterminatedRegion))
    } else if is_stop(s[0], end1, end2, end3) {
        Ok((Seq::empty(), s[0], s.drop_first()))
    } else if s[0] == '\\' {
        if s.len() < 2 {
            Err(DecodeError::Malformed(Malformation::UnterminatedEscape))
        } else if s[1] == '\\' || is_stop(s[1], end1, end2, end3) {
            prepend(seq![s[1]], scan(s.skip(2), end1, end2, end3))
        } else {
            prepend(seq!['\\', s[1]], scan(s.skip(2), end1, end2, end3))
        }
    } else {
        prepend(seq![s[0]], scan(s.drop_first(), end1, end2, end3))
    }
}

/// A scan that succeeds ends at a stop character, and consumes it at least.
pub proof fn lemma_scan_shrinks(s: Seq<char>, end1: char, end2: Option<char>, end3: Option<char>)
    ensures
        scan(s, end1, end2, end3) matches Ok((_, c, rest)) ==> rest.len() < s.len() && is_stop(
            c,
            end1,
            end2,
            end3,
        ),
    decreases s.len(),
{
    if s.len() > 0 && !is_stop(s[0], end1, end2, end3) {
        if s[0] == '\\' {
            if s.len() >= 2 {
                lemma_scan_shrinks(s.skip(2), end1, end2, end3);
            }
        } else {
            lemma_scan_shrinks(s.drop_first(), end1, end2, end3);
        }
    }
}

proof fn lemma_prepend_prepend(a: Seq<char>, b: Seq<char>, r: Scanned)
    ensures
        prepend(a, prepend(b, r)) == prepend(a + b, r),
{
    if let Ok((t, c, rest)) = r {
        assert(a + (b + t) =~= (a + b) + t);
    }
}

/// A position in the characters of a line.
pub struct Cursor {
    text: Vec<char>,
    pos: usize,
}

impl View for Cursor {
    type V = Seq<char>;

    /// What is left to read.
    closed spec fn view(&self) -> Seq<char> {
        self.text@.skip(self.pos as int)
    }
}

impl Cursor {
    pub closed spec fn wf(&self) -> bool {
        self.pos <= self.text@.len()
    }

    /// A cursor at the start of `text`.
    pub fn new(text: Vec<char>) -> (r: Cursor)
        ensures
            r.wf(),
            r@ == text@,
    {
        let r = Cursor { text, pos: 0 };
        assert(r.text@.skip(0) =~= r.text@);
        r
    }

    /// A cursor at the start of `s`.
    pub fn from_str(s: &str) -> (r: Cursor)
        ensures
            r.wf(),
            r@ == s@,
    {
        Cursor::new(crate::text::chars_of(s))
    }

    /// The next character, if any, and the cursor moves past it.
    pub fn next(&mut self) -> (r: Option<char>)
        requires
            old(self).wf(),
        ensures
            final(self).wf(),
            old(self)@.len() == 0 ==> r is None && final(self)@ == old(self)@,
            old(self)@.len() > 0 ==> r == Some(old(self)@[0]) && final(self)@ == old(self)@.drop_first(),
    {
        if self.pos < self.text.len() {
            let c = self.text[self.pos];
            self.pos = self.pos + 1;
            assert(self.text@.skip(self.pos as int) =~= old(self)@.drop_first());
            Some(c)
        } else {
            None
        }
    }

    /// What is left to read, as characters.
    pub fn rest(&self) -> (r: Vec<char>)
        requires
            self.wf(),
        ensures
            r@ == self@,
    {
        let mut out: Vec<char> = Vec::new();
        let mut i: usize = self.pos;
        while i < self.text.len()
            invariant
                self.pos <= i <= self.text@.len(),
                out@ == self.text@.subrange(self.pos as int, i as int),
            decreases self.text@.len() - i,
        {
            out.push(self.text[i]);
            i = i + 1;
            assert(out@ =~= self.text@.subrange(self.pos as int, i as int));
        }
        assert(out@ =~= self@);
        out
    }
}

fn is_stop_exec(c: char, end1: char, end2: Option<char>, end3: Option<char>) -> (r: bool)
    ensures
        r == is_stop(c, end1, end2, end3),
{
    c == end1 || match end2 {
        Some(e) => e == c,
        None => false,
    } || match end3 {
        Some(e) => e == c,
        None => false,
    }
}

/// Reads a region up to `end1`, `end2` or `end3`; returns its unescaped text
/// and the stop character that closed it.
pub fn parse_to_char3(chars: &mut Cursor, end1: char, end2: Option<char>, end3: Option<char>) -> (r:
    Result<(String, char), DecodeError>)
    requires
        old(chars).wf(),
    ensures
        final(chars).wf(),
        match scan(old(chars)@, end1, end2, end3) {
            Ok((t, c, rest)) => r matches Ok((s, e)) && s@ == t && e == c && final(chars)@ == rest,
            Err(err) => r == Err::<(String, char), DecodeError>(err),
        },
{
    let ghost start = chars@;
    let mut res: Vec<char> = Vec::new();
    proof {
        if let Ok((t, _, _)) = scan(start, end1, end2, end3) {
            assert(res@ + t =~= t);
        }
    }
    while chars.pos < chars.text.len()
        invariant
            chars.wf(),
            start == old(chars)@,
            scan(start, end1, end2, end3) == prepend(res@, scan(chars@, end1, end2, end3)),
        decreases chars.text@.len() - chars.pos,
    {
        let ghost before = chars@;
        let ghost old_res = res@;
        let c = chars.text[chars.pos];
        chars.pos = chars.pos + 1;
        assert(before[0] == c);
        assert(chars@ =~= before.drop_first());
        if is_stop_exec(c, end1, end2, end3) {
            assert(res@ + Seq::<char>::empty() =~= res@);
            return Ok((crate::text::string_of(&res), c));
        }
        if c == '\\' {
            if chars.pos < chars.text.len() {
                let d = chars.text[chars.pos];
                assert(before[1] == d);
                chars.pos = chars.pos + 1;
                assert(chars@ =~= before.skip(2));
                if d == '\\' || is_stop_exec(d, end1, end2, end3) {
                    proof {
                        lemma_prepend_prepend(res@, seq![d], scan(chars@, end1, end2, end3));
                    }
                    res.push(d);
                    assert(res@ =~= old_res + seq![d]);
                } else {
                    proof {
                        lemma_prepend_prepend(res@, seq!['\\', d], scan(chars@, end1, end2, end3));
                    }
                    res.push('\\');
                    res.push(d);
                    assert(res@ =~= old_res + seq!['\\', d]);
                }
            } else {
                return Err(DecodeError::Malformed(Malformation::UnterminatedEscape));
            }
        } else {
            proof {
                lemma_prepend_prepend(res@, seq![c], scan(chars@, end1, end2, end3));
            }
            res.push(c);
            assert(res@ =~= old_res + seq![c]);
        }
    }
    Err(DecodeError::Malformed(Malformation::UnterminatedRegion))
}

/// Reads a region up to `end1` or `end2`.
pub fn parse_to_char2(chars: &mut Cursor, end1: char, end2: char) -> (r: Result<(String, char), DecodeError>)
    requires
        old(chars).wf(),
    ensures
        final(chars).wf(),
        match scan(old(chars)@, end1, Some(end2), None) {
            Ok((t, c, rest)) => r matches Ok((s, e)) && s@ == t && e == c && final(chars)@ == rest,
            Err(err) => r == Err::<(String, char), DecodeError>(err),
        },
{
    parse_to_char3(chars, end1, Some(end2), None)
}

/// Reads a region up to `end`.
pub fn parse_to_char(chars: &mut Cursor, end: char) -> (r: Result<String, DecodeError>)
    requires
        old(chars).wf(),
    ensures
        final(chars).wf(),
        match scan(old(chars)@, end, None, None) {
            Ok((t, _, rest)) => r matches Ok(s) && s@ == t && final(chars)@ == rest,
            Err(err) => r == Err::<String, DecodeError>(err),
        },
{
    match parse_to_char3(chars, end, None, None) {
        Ok((res, _)) => Ok(res),
        Err(e) => Err(e),
    }
}

} // verus!
