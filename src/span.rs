//! Text span matcher: wraps every span that runs from a start marker to the
//! nearest following end marker in a placeholder comment, keeping the span
//! itself verbatim and every other byte untouched.
use vstd::prelude::*;
use vstd::string::StringSliceAdditionalSpecFns;

verus! {

/// `pat` stands in `s` at position `j`.
pub open spec fn occurs_at(s: Seq<u8>, pat: Seq<u8>, j: int) -> bool {
    0 <= j && j + pat.len() <= s.len() && s.subrange(j, j + pat.len()) == pat
}

/// `pat` stands somewhere in `s`.
pub open spec fn contains(s: Seq<u8>, pat: Seq<u8>) -> bool {
    exists|j: int| occurs_at(s, pat, j)
}

/// The first position at or after `from` where `pat` stands in `s`.
pub open spec fn first_occurrence(s: Seq<u8>, pat: Seq<u8>, from: int) -> Option<int>
    decreases s.len() + 1 - from,
{
    if from + pat.len() > s.len() {
        None
    } else if occurs_at(s, pat, from) {
        Some(from)
    } else {
        first_occurrence(s, pat, from + 1)
    }
}

/// The text that opens a placeholder comment.
pub open spec fn placeholder_open() -> Seq<u8> {
    "<!--The mod Reduced UI Animations replaced an element here: ".spec_bytes()
}

/// The text that closes a placeholder comment.
pub open spec fn placeholder_close() -> Seq<u8> {
    "-->".spec_bytes()
}

/// A span kept verbatim inside a placeholder comment.
pub open spec fn placeholder(span: Seq<u8>) -> Seq<u8> {
    placeholder_open() + span + placeholder_close()
}

/// What remains of `s` from `from` on once every span from `start` to the
/// nearest following `end` has been put in a placeholder; `Err(p)` when the
/// start marker at `p` has no end marker after it.
pub open spec fn commented_out(s: Seq<u8>, start: Seq<u8>, end: Seq<u8>, from: int) -> Result<
    Seq<u8>,
    int,
>
    decreases s.len() + 1 - from,
    via commented_out_decreases
{
    if from < 0 || from > s.len() || start.len() == 0 {
        Ok(Seq::empty())
    } else {
        match first_occurrence(s, start, from) {
            None => Ok(s.subrange(from, s.len() as int)),
            Some(j) => match first_occurrence(s, end, j + start.len()) {
                None => Err(j),
                Some(k) => {
                    let after = k + end.len();
                    match commented_out(s, start, end, after) {
                        Ok(rest) => Ok(
                            s.subrange(from, j) + placeholder(s.subrange(j, after)) + rest,
                        ),
                        Err(p) => Err(p),
                    }
                },
            },
        }
    }
}

#[via_fn]
proof fn commented_out_decreases(s: Seq<u8>, start: Seq<u8>, end: Seq<u8>, from: int) {
    if from < 0 || from > s.len() || start.len() == 0 {
    } else {
        lemma_first_occurrence(s, start, from);
        if let Some(j) = first_occurrence(s, start, from) {
            lemma_first_occurrence(s, end, j + start.len());
        }
    }
}

/// A found occurrence is the first one at or after `from`.
pub proof fn lemma_first_occurrence(s: Seq<u8>, pat: Seq<u8>, from: int)
    ensures
        match first_occurrence(s, pat, from) {
            Some(j) => from <= j && occurs_at(s, pat, j) && forall|t: int|
                from <= t < j ==> !occurs_at(s, pat, t),
            None => forall|t: int| from <= t ==> !occurs_at(s, pat, t),
        },
    decreases s.len() + 1 - from,
{
    if from + pat.len() > s.len() {
    } else if occurs_at(s, pat, from) {
    } else {
        lemma_first_occurrence(s, pat, from + 1);
    }
}

/// The error of the span matcher: a start marker with no end marker after it.
#[derive(Debug, Clone, Copy, PartialEq, Eq)]
pub struct UnclosedSpan {
    /// Byte position of the start marker.
    pub position: usize,
}

/// Whether `pat` stands in `s` at position `j`.
pub fn occurs_at_exec(s: &[u8], pat: &[u8], j: usize) -> (r: bool)
    ensures
        r == occurs_at(s@, pat@, j as int),
{
    if j > s.len() || pat.len() > s.len() - j {
        return false;
    }
    let n = s.len();
    let mut i: usize = 0;
    while i < pat.len()
        invariant
            n == s@.len(),
            j + pat@.len() <= s@.len(),
            i <= pat@.len(),
            forall|t: int| 0 <= t < i ==> s@[j + t] == pat@[t],
        decreases pat@.len() - i,
    {
        if s[j + i] != pat[i] {
            assert(s@.subrange(j as int, j + pat@.len())[i as int] != pat@[i as int]);
            return false;
        }
        i = i + 1;
    }
    assert(s@.subrange(j as int, j + pat@.len()) =~= pat@);
    true
}

/// The first position at or after `from` where `pat` stands in `s`.
pub fn find_from(s: &[u8], pat: &[u8], from: usize) -> (r: Option<usize>)
    ensures
        match r {
            Some(j) => first_occurrence(s@, pat@, from as int) == Some(j as int) && from <= j
                && occurs_at(s@, pat@, j as int),
            None => first_occurrence(s@, pat@, from as int) is None,
        },
{
    if from > s.len() || pat.len() > s.len() - from {
        return None;
    }
    let mut j: usize = from;
    loop
        invariant
            from <= j,
            j + pat@.len() <= s@.len(),
            first_occurrence(s@, pat@, from as int) == first_occurrence(s@, pat@, j as int),
        decreases s@.len() - j,
    {
        if occurs_at_exec(s, pat, j) {
            return Some(j);
        }
        if j == s.len() - pat.len() {
            assert(first_occurrence(s@, pat@, j + 1) is None);
            return None;
        }
        j = j + 1;
    }
}

/// Appends `s[lo..hi]` to `out`.
fn push_range(out: &mut Vec<u8>, s: &[u8], lo: usize, hi: usize)
    requires
        lo <= hi <= s@.len(),
    ensures
        final(out)@ == old(out)@ + s@.subrange(lo as int, hi as int),
{
    let mut i: usize = lo;
    while i < hi
        invariant
            lo <= i <= hi <= s@.len(),
            out@ == old(out)@ + s@.subrange(lo as int, i as int),
        decreases hi - i,
    {
        out.push(s[i]);
        assert(s@.subrange(lo as int, i + 1) =~= s@.subrange(lo as int, i as int).push(s@[i as int]));
        i = i + 1;
    }
}

fn placeholder_open_exec() -> (r: &'static [u8])
    ensures
        r@ == placeholder_open(),
{
    "<!--The mod Reduced UI Animations replaced an element here: ".as_bytes()
}

fn placeholder_close_exec() -> (r: &'static [u8])
    ensures
        r@ == placeholder_close(),
{
    "-->".as_bytes()
}

/// `o` with `p` put in front of a successful result.
pub open spec fn prefixed(p: Seq<u8>, o: Result<Seq<u8>, int>) -> Result<Seq<u8>, int> {
    match o {
        Ok(x) => Ok(p + x),
        Err(e) => Err(e),
    }
}

/// Wraps every span of `doc` from an occurrence of `start` to the nearest
/// following occurrence of `end` (both included) in a placeholder comment,
/// left to right; fails on a start marker that no end marker follows.
pub fn comment_out_spans(doc: &[u8], start: &[u8], end: &[u8]) -> (r: Result<Vec<u8>, UnclosedSpan>)
    requires
        start@.len() > 0,
    ensures
        match r {
            Ok(out) => commented_out(doc@, start@, end@, 0) == Ok::<Seq<u8>, int>(out@),
            Err(e) => commented_out(doc@, start@, end@, 0) == Err::<Seq<u8>, int>(
                e.position as int,
            ),
        },
{
    let open = placeholder_open_exec();
    let close = placeholder_close_exec();
    let mut out: Vec<u8> = Vec::new();
    let n = doc.len();
    let mut from: usize = 0;
    loop
        invariant
            n == doc@.len(),
            from <= doc@.len(),
            commented_out(doc@, start@, end@, 0) == prefixed(
                out@,
                commented_out(doc@, start@, end@, from as int),
            ),
            open@ == placeholder_open(),
            close@ == placeholder_close(),
            start@.len() > 0,
        decreases doc@.len() - from,
    {
        match find_from(doc, start, from) {
            None => {
                let ghost before = out@;
                push_range(&mut out, doc, from, doc.len());
                assert(before + doc@.subrange(from as int, doc@.len() as int) == out@);
                return Ok(out);
            },
            Some(j) => {
                match find_from(doc, end, j + start.len()) {
                    None => {
                        return Err(UnclosedSpan { position: j });
                    },
                    Some(k) => {
                        let after = k + end.len();
                        let ghost before = out@;
                        push_range(&mut out, doc, from, j);
                        push_range(&mut out, open, 0, open.len());
                        push_range(&mut out, doc, j, after);
                        push_range(&mut out, close, 0, close.len());
                        assert(open@.subrange(0, open@.len() as int) =~= open@);
                        assert(close@.subrange(0, close@.len() as int) =~= close@);
                        assert(out@ =~= before + (doc@.subrange(from as int, j as int)
                            + placeholder(doc@.subrange(j as int, after as int))));
                        proof {
                            match commented_out(doc@, start@, end@, after as int) {
                                Ok(rest) => {
                                    assert(before + (doc@.subrange(from as int, j as int)
                                        + placeholder(doc@.subrange(j as int, after as int)))
                                        + rest =~= before + (doc@.subrange(from as int, j as int)
                                        + placeholder(doc@.subrange(j as int, after as int))
                                        + rest));
                                },
                                Err(p) => {},
                            }
                        }
                        from = after;
                    },
                }
            },
        }
    }
}

} // verus!
