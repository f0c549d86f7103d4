use vstd::prelude::*;
use vstd::string::StrSliceExecFns;
use crate::shape::{ext_views, Extension, ExtensionShape, Matcher};

verus! {

/// Ends the payload of a `Prefix` shape; consumed, but not part of the token.
pub const SEPARATOR: char = '_';

/// Why a match or a parse failed.
#[derive(Debug, PartialEq, Eq, Structural)]
pub enum ParseError {
    /// One matcher does not apply to the head of the input; the scanner then
    /// tries the next one.
    NoMatch,
    /// No matcher applies at this byte offset of the input.
    UnmatchedRemainder { offset: usize },
}

pub open spec fn starts_with(s: Seq<char>, p: Seq<char>) -> bool {
    p.len() <= s.len() && s.take(p.len() as int) == p
}

/// The first index at or after `from` that holds the separator, or the length
/// of `s` where there is none.
pub open spec fn run_end(s: Seq<char>, from: int) -> int
    decreases s.len() - from,
{
    if from >= s.len() || s[from] == SEPARATOR {
        from
    } else {
        run_end(s, from + 1)
    }
}

/// What one matcher does at the head of `s`: the number of characters that it
/// consumes and the tokens that it produces, or `None` where it does not apply.
pub open spec fn step(m: Matcher, s: Seq<char>) -> Option<(int, Seq<Seq<char>>)> {
    let id = m.shape.id_view();
    if !starts_with(s, id) {
        None
    } else {
        match m.shape {
            ExtensionShape::Tag(_) => Some((id.len() as int, seq![id])),
            ExtensionShape::Prefix(_) => {
                let end = run_end(s, id.len() as int);
                if end == id.len() {
                    None
                } else if end < s.len() {
                    Some((end + 1, seq![s.take(end)]))
                } else {
                    Some((end, seq![s.take(end)]))
                }
            },
            ExtensionShape::Multi(_) => Some((id.len() as int, ext_views(m.expansion@))),
        }
    }
}

/// The number of bytes in the UTF-8 encoding of `s`.
pub open spec fn byte_len(s: Seq<char>) -> nat {
    vstd::utf8::encode_utf8(s).len()
}

/// The encoding of a concatenation is the concatenation of the encodings.
pub proof fn lemma_encode_utf8_concat(a: Seq<char>, b: Seq<char>)
    ensures
        vstd::utf8::encode_utf8(a + b) == vstd::utf8::encode_utf8(a) + vstd::utf8::encode_utf8(b),
    decreases a.len(),
{
    if a.len() == 0 {
        assert(a + b =~= b);
        assert(vstd::utf8::encode_utf8(a) + vstd::utf8::encode_utf8(b) =~= vstd::utf8::encode_utf8(b));
    } else {
        assert((a + b)[0] == a[0]);
        assert((a + b).drop_first() =~= a.drop_first() + b);
        lemma_encode_utf8_concat(a.drop_first(), b);
        assert(vstd::utf8::encode_utf8(a + b) =~= vstd::utf8::encode_utf8(a) + vstd::utf8::encode_utf8(b));
    }
}

/// The end of the encoding of `a` is a character boundary of the encoding of
/// `a + b`.
pub proof fn lemma_char_boundary_concat(a: Seq<char>, b: Seq<char>)
    ensures
        vstd::utf8::is_char_boundary(
            vstd::utf8::encode_utf8(a + b),
            vstd::utf8::encode_utf8(a).len() as int,
        ),
    decreases a.len(),
{
    let bytes = vstd::utf8::encode_utf8(a + b);
    vstd::utf8::encode_utf8_valid_utf8(a + b);
    if a.len() > 0 {
        assert((a + b)[0] == a[0]);
        assert((a + b).drop_first() =~= a.drop_first() + b);
        vstd::utf8::encode_utf8_first_scalar(a + b);
        assert(vstd::utf8::pop_first_scalar(bytes) =~= vstd::utf8::encode_utf8(a.drop_first() + b));
        lemma_encode_utf8_concat(a, b);
        lemma_char_boundary_concat(a.drop_first(), b);
    } else {
        assert(vstd::utf8::encode_utf8(a).len() == 0);
    }
}

pub proof fn lemma_run_end_bounds(s: Seq<char>, from: int)
    requires
        0 <= from,
    ensures
        from <= run_end(s, from),
        from <= s.len() ==> run_end(s, from) <= s.len(),
        run_end(s, from) < s.len() ==> s[run_end(s, from)] == SEPARATOR,
        forall|k: int| from <= k < run_end(s, from) ==> s[k] != SEPARATOR,
    decreases s.len() - from,
{
    if from < s.len() && s[from] != SEPARATOR {
        lemma_run_end_bounds(s, from + 1);
    }
}

/// `run_end` is the first separator at or after `from`.
pub proof fn lemma_run_end_is(s: Seq<char>, from: int, e: int)
    requires
        0 <= from <= e <= s.len(),
        e < s.len() ==> s[e] == SEPARATOR,
        forall|k: int| from <= k < e ==> s[k] != SEPARATOR,
    ensures
        run_end(s, from) == e,
    decreases e - from,
{
    if from < e {
        lemma_run_end_is(s, from + 1, e);
    }
}

/// A matcher that applies consumes no more than there is.
pub proof fn lemma_step_bounded(m: Matcher, s: Seq<char>)
    requires
        step(m, s) is Some,
    ensures
        0 <= step(m, s)->Some_0.0 <= s.len(),
{
    if m.shape is Prefix {
        lemma_run_end_bounds(s, m.shape.id_view().len() as int);
    }
}

/// A matcher with a non-empty identifier that applies consumes at least one
/// character, and no more than there are.
pub proof fn lemma_step_consumes(m: Matcher, s: Seq<char>)
    requires
        m.wf(),
        step(m, s) is Some,
    ensures
        1 <= step(m, s)->Some_0.0 <= s.len(),
{
    if m.shape is Prefix {
        lemma_run_end_bounds(s, m.shape.id_view().len() as int);
    }
}

/// A tag matcher applies exactly where the input starts with its identifier,
/// and then consumes the identifier: as many characters, and as many bytes.
pub proof fn lemma_tag_matches_iff_prefix(m: Matcher, s: Seq<char>)
    requires
        m.shape is Tag,
        m.wf(),
    ensures
        step(m, s) is Some <==> starts_with(s, m.shape.id_view()),
        step(m, s) is Some ==> {
            let c = step(m, s)->Some_0.0;
            &&& c == m.shape.id_view().len()
            &&& byte_len(s.take(c)) == byte_len(m.shape.id_view())
        },
{
}

/// The characters of `s`, in order.
pub(crate) fn chars_of(s: &str) -> (r: Vec<char>)
    ensures
        r@ == s@,
{
    let mut r: Vec<char> = Vec::new();
    for c in it: s.chars()
        invariant
            it.seq() == s@,
            r@ == it.seq().take(it.index() as int),
    {
        r.push(c);
    }
    r
}

/// `s` without its first `k` characters, found by walking those `k` only.
pub(crate) fn advance<'a>(s: &'a str, k: usize) -> (r: &'a str)
    requires
        k <= s@.len(),
    ensures
        r@ == s@.skip(k as int),
{
    let head = s.substring_char(0, k);
    let n = head.as_bytes().len();
    let ghost a = s@.take(k as int);
    let ghost b = s@.skip(k as int);
    proof {
        assert(s@ =~= a + b);
        assert(head@ =~= a);
        lemma_char_boundary_concat(a, b);
        lemma_encode_utf8_concat(a, b);
    }
    let (_, tail) = s.split_at(n);
    proof {
        assert(vstd::utf8::encode_utf8(tail@) =~= vstd::utf8::encode_utf8(b));
        vstd::utf8::encode_utf8_decode_utf8(tail@);
        vstd::utf8::encode_utf8_decode_utf8(b);
    }
    tail
}

/// Whether `text`, from `pos` on, starts with `id`.
fn starts_with_at(text: &Vec<char>, pos: usize, id: &Vec<char>) -> (r: bool)
    requires
        pos <= text.len(),
    ensures
        r == starts_with(text@.skip(pos as int), id@),
{
    if id.len() > text.len() - pos {
        return false;
    }
    let mut j: usize = 0;
    while j < id.len()
        invariant
            j <= id.len(),
            pos + id.len() <= text.len(),
            forall|k: int| 0 <= k < j ==> text@[pos + k] == id@[k],
        decreases id.len() - j,
    {
        if text[pos + j] != id[j] {
            assert(text@.skip(pos as int).take(id@.len() as int)[j as int] != id@[j as int]);
            return false;
        }
        j += 1;
    }
    assert(text@.skip(pos as int).take(id@.len() as int) =~= id@);
    true
}

/// The first index at or after `from` that holds the separator, or the
/// length of `text`.
fn find_run_end(text: &Vec<char>, from: usize) -> (r: usize)
    requires
        from <= text.len(),
    ensures
        from <= r <= text.len(),
        r < text.len() ==> text@[r as int] == SEPARATOR,
        forall|k: int| from <= k < r ==> text@[k] != SEPARATOR,
{
    let mut e: usize = from;
    while e < text.len() && text[e] != SEPARATOR
        invariant
            from <= e <= text.len(),
            forall|k: int| from <= k < e ==> text@[k] != SEPARATOR,
        decreases text.len() - e,
    {
        e += 1;
    }
    e
}

/// Copies of the tokens, in order.
fn copy_tokens(v: &Vec<Extension>) -> (r: Vec<Extension>)
    ensures
        ext_views(r@) == ext_views(v@),
{
    let mut r: Vec<Extension> = Vec::new();
    let mut i: usize = 0;
    while i < v.len()
        invariant
            i <= v.len(),
            r@.len() == i,
            forall|k: int| 0 <= k < i ==> r@[k]@ == v@[k]@,
        decreases v.len() - i,
    {
        let x = v[i].clone();
        r.push(x);
        i += 1;
    }
    assert(ext_views(r@) =~= ext_views(v@));
    r
}

/// Applies `m` to `text` from `pos` on; `src` is what is left of the text
/// from `pos` on, as a string.
pub(crate) fn match_at(text: &Vec<char>, src: &str, pos: usize, m: &Matcher) -> (r: Option<(usize, Vec<Extension>)>)
    requires
        src@ == text@.skip(pos as int),
        pos <= text.len(),
    ensures
        match r {
            None => step(*m, text@.skip(pos as int)) is None,
            Some((c, toks)) => step(*m, text@.skip(pos as int)) == Some((c as int, ext_views(toks@))),
        },
{
    let ghost s = text@.skip(pos as int);
    let id_str = m.shape.identifier();
    let id = chars_of(id_str);
    if !starts_with_at(text, pos, &id) {
        return None;
    }
    match &m.shape {
        ExtensionShape::Tag(_) => {
            let mut toks: Vec<Extension> = Vec::new();
            toks.push(Extension(id_str.to_owned()));
            assert(ext_views(toks@) =~= seq![id@]);
            Some((id.len(), toks))
        },
        ExtensionShape::Prefix(_) => {
            let e = find_run_end(text, pos + id.len());
            proof {
                lemma_run_end_is(s, id@.len() as int, e - pos);
            }
            if e == pos + id.len() {
                return None;
            }
            let mut toks: Vec<Extension> = Vec::new();
            let sub = src.substring_char(0, e - pos);
            assert(sub@ =~= s.take(e - pos));
            let tok = Extension(sub.to_owned());
            toks.push(tok);
            assert(ext_views(toks@) =~= seq![s.take(e - pos)]);
            if e < text.len() {
                Some((e - pos + 1, toks))
            } else {
                Some((e - pos, toks))
            }
        },
        ExtensionShape::Multi(_) => Some((id.len(), copy_tokens(&m.expansion))),
    }
}

/// Applies one matcher to the head of `input`: on success, the input that
/// is left and the tokens produced.
pub fn parse_one<'a>(input: &'a str, ext: &Matcher) -> (r: Result<(&'a str, Vec<Extension>), ParseError>)
    ensures
        match step(*ext, input@) {
            None => r is Err && r->Err_0 == ParseError::NoMatch,
            Some((c, toks)) => {
                &&& r is Ok
                &&& r->Ok_0.0@ == input@.skip(c)
                &&& ext_views(r->Ok_0.1@) == toks
            },
        },
{
    let text = chars_of(input);
    assert(text@.skip(0) =~= text@);
    match match_at(&text, input, 0, ext) {
        Some((c, toks)) => {
            proof {
                lemma_step_bounded(*ext, input@);
            }
            let rest = advance(input, c);
            assert(rest@ =~= input@.skip(c as int));
            Ok((rest, toks))
        },
        None => Err(ParseError::NoMatch),
    }
}

} // verus!
