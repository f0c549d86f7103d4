use vstd::prelude::*;
use crate::shape::{ext_views, Extension, Matcher};
use crate::step::{advance, byte_len, chars_of, lemma_encode_utf8_concat, lemma_step_consumes, match_at, step, ParseError};
use vstd::string::StrSliceExecFns;

verus! {

/// The tokens that the matcher at `index` of the list produced at one
/// position of the input.
pub struct Chunk {
    pub index: usize,
    pub tokens: Vec<Extension>,
}

impl View for Chunk {
    type V = (int, Seq<Seq<char>>);

    open spec fn view(&self) -> (int, Seq<Seq<char>>) {
        (self.index as int, ext_views(self.tokens@))
    }
}

pub open spec fn chunk_views(v: Seq<Chunk>) -> Seq<(int, Seq<Seq<char>>)> {
    v.map_values(|c: Chunk| c@)
}

/// Every matcher of the list carries a non-empty identifier.
pub open spec fn all_wf(ms: Seq<Matcher>) -> bool {
    forall|i: int| 0 <= i < ms.len() ==> #[trigger] ms[i].wf()
}

/// The first matcher at or after `from`, in list order, that applies to the
/// head of `s`.
pub open spec fn first_match(ms: Seq<Matcher>, s: Seq<char>, from: int) -> Option<int>
    decreases ms.len() - from,
{
    if from < 0 || from >= ms.len() {
        None
    } else if step(ms[from], s) is Some {
        Some(from)
    } else {
        first_match(ms, s, from + 1)
    }
}

/// Puts `a` in front of the chunks of a successful scan.
pub open spec fn prepend(
    a: Seq<(int, Seq<Seq<char>>)>,
    r: Result<Seq<(int, Seq<Seq<char>>)>, int>,
) -> Result<Seq<(int, Seq<Seq<char>>)>, int> {
    match r {
        Ok(rest) => Ok(a + rest),
        Err(p) => Err(p),
    }
}

/// Scans `s` from character `pos` on: the chunks in the order found, or the
/// character position at which no matcher applies.
pub open spec fn scan_from(ms: Seq<Matcher>, s: Seq<char>, pos: int) -> Result<
    Seq<(int, Seq<Seq<char>>)>,
    int,
>
    decreases s.len() - pos,
    when 0 <= pos && all_wf(ms)
    via scan_from_decreases
{
    if pos >= s.len() {
        Ok(seq![])
    } else {
        match first_match(ms, s.skip(pos), 0) {
            None => Err(pos),
            Some(i) => {
                let st = step(ms[i], s.skip(pos))->Some_0;
                prepend(seq![(i, st.1)], scan_from(ms, s, pos + st.0))
            },
        }
    }
}

pub proof fn lemma_first_match(ms: Seq<Matcher>, s: Seq<char>, from: int)
    requires
        0 <= from,
    ensures
        match first_match(ms, s, from) {
            None => forall|j: int| from <= j < ms.len() ==> step(#[trigger] ms[j], s) is None,
            Some(i) => {
                &&& from <= i < ms.len()
                &&& step(ms[i], s) is Some
                &&& forall|j: int| from <= j < i ==> step(#[trigger] ms[j], s) is None
            },
        },
    decreases ms.len() - from,
{
    if from < ms.len() && step(ms[from], s) is None {
        lemma_first_match(ms, s, from + 1);
    }
}

#[via_fn]
proof fn scan_from_decreases(ms: Seq<Matcher>, s: Seq<char>, pos: int) {
    if pos < s.len() {
        lemma_first_match(ms, s.skip(pos), 0);
        if let Some(i) = first_match(ms, s.skip(pos), 0) {
            lemma_step_consumes(ms[i], s.skip(pos));
        }
    }
}

/// A scan fails only at a position inside the input where no matcher of the
/// list applies to what is left.
pub proof fn lemma_unmatched_remainder(ms: Seq<Matcher>, s: Seq<char>, pos: int)
    requires
        all_wf(ms),
        0 <= pos,
        scan_from(ms, s, pos) is Err,
    ensures
        pos <= scan_from(ms, s, pos)->Err_0 < s.len(),
        forall|i: int|
            0 <= i < ms.len() ==> step(#[trigger] ms[i], s.skip(scan_from(ms, s, pos)->Err_0))
                is None,
    decreases s.len() - pos,
{
    lemma_first_match(ms, s.skip(pos), 0);
    if let Some(i) = first_match(ms, s.skip(pos), 0) {
        lemma_step_consumes(ms[i], s.skip(pos));
        let c = step(ms[i], s.skip(pos))->Some_0.0;
        lemma_unmatched_remainder(ms, s, pos + c);
    }
}

/// The tokens of the chunks of matcher `k`, in the order found.
pub open spec fn tokens_of(chunks: Seq<(int, Seq<Seq<char>>)>, k: int) -> Seq<Seq<char>>
    decreases chunks.len(),
{
    if chunks.len() == 0 {
        seq![]
    } else {
        tokens_of(chunks.drop_last(), k) + if chunks.last().0 == k {
            chunks.last().1
        } else {
            seq![]
        }
    }
}

/// The tokens of matchers `0 .. n`, matcher by matcher: the chunks sorted
/// stably by index, then flattened.
pub open spec fn by_priority(chunks: Seq<(int, Seq<Seq<char>>)>, n: int) -> Seq<Seq<char>>
    decreases n,
{
    if n <= 0 {
        seq![]
    } else {
        by_priority(chunks, n - 1) + tokens_of(chunks, n - 1)
    }
}

/// The first matcher, in list order, that applies to `text` from `pos` on:
/// its index, the characters it consumes and the tokens it produces. `src`
/// is what is left of the text from `pos` on, as a string.
fn first_match_at(text: &Vec<char>, src: &str, pos: usize, ms: &[Matcher]) -> (r: Option<(usize, usize, Vec<Extension>)>)
    requires
        src@ == text@.skip(pos as int),
        pos <= text.len(),
    ensures
        match r {
            None => first_match(ms@, text@.skip(pos as int), 0) is None,
            Some((i, c, toks)) => {
                &&& first_match(ms@, text@.skip(pos as int), 0) == Some(i as int)
                &&& step(ms@[i as int], text@.skip(pos as int)) == Some((c as int, ext_views(toks@)))
            },
        },
{
    let ghost s = text@.skip(pos as int);
    let mut i: usize = 0;
    while i < ms.len()
        invariant
            i <= ms.len(),
            src@ == text@.skip(pos as int),
            pos <= text.len(),
            s == text@.skip(pos as int),
            first_match(ms@, s, 0) == first_match(ms@, s, i as int),
        decreases ms.len() - i,
    {
        match match_at(text, src, pos, &ms[i]) {
            Some((c, toks)) => {
                return Some((i, c, toks));
            },
            None => {
                i += 1;
            },
        }
    }
    None
}

/// Appends copies of the tokens of `v` to `out`.
fn append_copies(out: &mut Vec<Extension>, v: &Vec<Extension>)
    ensures
        ext_views(final(out)@) == ext_views(old(out)@) + ext_views(v@),
{
    let ghost start = out@;
    let mut i: usize = 0;
    while i < v.len()
        invariant
            i <= v.len(),
            out@.len() == start.len() + i,
            forall|k: int| 0 <= k < start.len() ==> out@[k]@ == start[k]@,
            forall|k: int| 0 <= k < i ==> out@[start.len() + k]@ == v@[k]@,
        decreases v.len() - i,
    {
        let x = v[i].clone();
        out.push(x);
        i += 1;
    }
    assert(ext_views(out@) =~= ext_views(start) + ext_views(v@));
}

/// Scans the whole input: at each position the first matcher in list order
/// that applies consumes its span, and its tokens are recorded with its index.
pub fn scan(input: &str, ms: &[Matcher]) -> (r: Result<Vec<Chunk>, ParseError>)
    requires
        all_wf(ms@),
    ensures
        match scan_from(ms@, input@, 0) {
            Ok(chunks) => {
                &&& r is Ok
                &&& chunk_views(r->Ok_0@) == chunks
                &&& forall|j: int| 0 <= j < r->Ok_0@.len() ==> #[trigger] r->Ok_0@[j].index < ms@.len()
            },
            Err(p) => {
                &&& r matches Err(ParseError::UnmatchedRemainder { offset })
                &&& offset == byte_len(input@.take(p))
            },
        },
{
    let text = chars_of(input);
    let mut chunks: Vec<Chunk> = Vec::new();
    let mut pos: usize = 0;
    let mut rest: &str = input;
    assert(input@.skip(0) =~= input@);
    while pos < text.len()
        invariant
            text@ == input@,
            pos <= text.len(),
            rest@ == input@.skip(pos as int),
            all_wf(ms@),
            scan_from(ms@, input@, 0) == prepend(chunk_views(chunks@), scan_from(ms@, input@, pos as int)),
            forall|j: int| 0 <= j < chunks@.len() ==> #[trigger] chunks@[j].index < ms@.len(),
        decreases text.len() - pos,
    {
        let ghost s = input@.skip(pos as int);
        match first_match_at(&text, rest, pos, ms) {
            None => {
                proof {
                    assert(input@ =~= input@.take(pos as int) + rest@);
                    lemma_encode_utf8_concat(input@.take(pos as int), rest@);
                }
                let offset = input.as_bytes().len() - rest.as_bytes().len();
                return Err(ParseError::UnmatchedRemainder { offset });
            },
            Some((i, c, toks)) => {
                proof {
                    lemma_first_match(ms@, s, 0);
                    lemma_step_consumes(ms@[i as int], s);
                    let a = chunk_views(chunks@);
                    let x = seq![(i as int, ext_views(toks@))];
                    let tail = scan_from(ms@, input@, pos + c);
                    assert(scan_from(ms@, input@, pos as int) == prepend(x, tail));
                    match tail {
                        Ok(t) => assert(a + (x + t) =~= (a + x) + t),
                        Err(_) => {},
                    }
                }
                let chunk = Chunk { index: i, tokens: toks };
                let ghost before = chunks@;
                chunks.push(chunk);
                assert(chunk_views(chunks@) =~= chunk_views(before) + seq![chunk@]);
                rest = advance(rest, c);
                assert(rest@ =~= input@.skip(pos + c));
                pos = pos + c;
            },
        }
    }
    assert(chunk_views(chunks@) + seq![] =~= chunk_views(chunks@));
    Ok(chunks)
}

/// Orders the tokens of the chunks by matcher index, keeping the order in
/// which the chunks of one matcher were found, and flattens them.
pub fn reconcile(chunks: &Vec<Chunk>, matcher_count: usize) -> (r: Vec<Extension>)
    requires
        forall|j: int| 0 <= j < chunks@.len() ==> #[trigger] chunks@[j].index < matcher_count,
    ensures
        ext_views(r@) == by_priority(chunk_views(chunks@), matcher_count as int),
{
    let ghost cv = chunk_views(chunks@);
    let mut out: Vec<Extension> = Vec::new();
    let mut k: usize = 0;
    while k < matcher_count
        invariant
            k <= matcher_count,
            cv == chunk_views(chunks@),
            ext_views(out@) == by_priority(cv, k as int),
        decreases matcher_count - k,
    {
        let mut j: usize = 0;
        while j < chunks.len()
            invariant
                j <= chunks.len(),
                k < matcher_count,
                cv == chunk_views(chunks@),
                ext_views(out@) == by_priority(cv, k as int) + tokens_of(cv.take(j as int), k as int),
            decreases chunks.len() - j,
        {
            let ghost before = ext_views(out@);
            if chunks[j].index == k {
                append_copies(&mut out, &chunks[j].tokens);
            }
            proof {
                assert(cv.take(j + 1).drop_last() =~= cv.take(j as int));
                assert(cv.take(j + 1).last() == cv[j as int]);
                if chunks@[j as int].index != k {
                    assert(before + seq![] =~= before);
                }
                assert(ext_views(out@) =~= by_priority(cv, k as int) + tokens_of(cv.take(j + 1), k as int));
            }
            j += 1;
        }
        assert(cv.take(chunks@.len() as int) =~= cv);
        k += 1;
    }
    out
}

/// Parses the whole input with the matchers, tried in list order at each
/// position; the tokens come out ordered by the index of the matcher that
/// produced them.
pub fn parse(input: &str, extensions: Vec<Matcher>) -> (r: Result<Vec<Extension>, ParseError>)
    requires
        all_wf(extensions@),
    ensures
        match scan_from(extensions@, input@, 0) {
            Ok(chunks) => {
                &&& r is Ok
                &&& ext_views(r->Ok_0@) == by_priority(chunks, extensions@.len() as int)
            },
            Err(p) => {
                &&& r matches Err(ParseError::UnmatchedRemainder { offset })
                &&& offset == byte_len(input@.take(p))
            },
        },
{
    let chunks = scan(input, extensions.as_slice())?;
    Ok(reconcile(&chunks, extensions.len()))
}

} // verus!
