//! Textual patch engine: the two removal rules as start and end markers over
//! the raw bytes of a file, so that all other bytes stay as they were.
//!
//! This is the alternative engine. It does not apply the rewrite of the fade
//! rectangle, which needs the element's attributes; the mod is assembled with
//! the structural engine of `markup`, which does.
use vstd::prelude::*;
use vstd::string::StringSliceAdditionalSpecFns;
use vstd::utf8::{decode_utf8, valid_utf8};

use crate::span::{
    comment_out_spans, commented_out, contains, find_from, first_occurrence, lemma_first_occurrence,
    occurs_at, placeholder_close, placeholder_open,
};

verus! {

/// Start marker of the blur effect element.
pub open spec fn blur_marker() -> Seq<u8> {
    "<local:Age2BlurEffect".spec_bytes()
}

/// Start marker of the swipe effect element.
pub open spec fn swipe_marker() -> Seq<u8> {
    "<local:Age2SwipeEffect".spec_bytes()
}

/// End marker of a removed element: its self-closing end.
pub open spec fn element_end() -> Seq<u8> {
    "/>".spec_bytes()
}

/// `s` without a leading UTF-8 byte order mark.
pub open spec fn without_bom(s: Seq<u8>) -> Seq<u8> {
    if s.len() >= 3 && s[0] == 0xEFu8 && s[1] == 0xBBu8 && s[2] == 0xBFu8 {
        s.subrange(3, s.len() as int)
    } else {
        s
    }
}

/// The textual engine on a document: `Ok(None)` when no removal rule
/// matches, else the document with the blur effect spans and then the swipe
/// effect spans put in placeholders; `Err(p)` for an unclosed span at `p`.
pub open spec fn patched_text(doc: Seq<u8>) -> Result<Option<Seq<u8>>, int> {
    if !contains(doc, blur_marker()) && !contains(doc, swipe_marker()) {
        Ok(None)
    } else {
        match commented_out(doc, blur_marker(), element_end(), 0) {
            Err(p) => Err(p),
            Ok(once) => match commented_out(once, swipe_marker(), element_end(), 0) {
                Err(p) => Err(p),
                Ok(twice) => Ok(Some(twice)),
            },
        }
    }
}

/// Why a file could not be patched.
#[derive(Debug, Clone, Copy, PartialEq, Eq)]
pub enum PatchError {
    /// The content is not UTF-8 once a byte order mark is dropped.
    InvalidUtf8,
    /// A removed element's start marker has no end marker after it; the
    /// position is that of the marker in the text as the failing rule saw it.
    UnclosedElement { position: usize },
    /// In some element of a parsed document, attribute names do not strictly
    /// ascend.
    AttributesOutOfOrder,
}

fn blur_marker_exec() -> (r: &'static [u8])
    ensures
        r@ == blur_marker(),
{
    "<local:Age2BlurEffect".as_bytes()
}

fn swipe_marker_exec() -> (r: &'static [u8])
    ensures
        r@ == swipe_marker(),
{
    "<local:Age2SwipeEffect".as_bytes()
}

fn element_end_exec() -> (r: &'static [u8])
    ensures
        r@ == element_end(),
{
    "/>".as_bytes()
}

proof fn lemma_markers_not_empty()
    ensures
        blur_marker().len() > 0,
        swipe_marker().len() > 0,
{
    reveal_strlit("<local:Age2BlurEffect");
    reveal_strlit("<local:Age2SwipeEffect");
    vstd::string::is_ascii_spec_bytes("<local:Age2BlurEffect");
    vstd::string::is_ascii_spec_bytes("<local:Age2SwipeEffect");
}

/// Whether `pat` stands anywhere in `s`.
pub fn contains_exec(s: &[u8], pat: &[u8]) -> (r: bool)
    ensures
        r == contains(s@, pat@),
{
    proof {
        lemma_first_occurrence(s@, pat@, 0);
    }
    find_from(s, pat, 0).is_some()
}

/// Runs the textual engine on a document.
pub fn patch_xaml_text(doc: &[u8]) -> (r: Result<Option<Vec<u8>>, PatchError>)
    ensures
        match r {
            Ok(None) => patched_text(doc@) == Ok::<Option<Seq<u8>>, int>(None),
            Ok(Some(out)) => patched_text(doc@) == Ok::<Option<Seq<u8>>, int>(Some(out@)),
            Err(PatchError::UnclosedElement { position }) => patched_text(doc@) == Err::<
                Option<Seq<u8>>,
                int,
            >(position as int),
            Err(_) => false,
        },
{
    let blur = blur_marker_exec();
    let swipe = swipe_marker_exec();
    let end = element_end_exec();
    proof {
        lemma_markers_not_empty();
    }
    if !contains_exec(doc, blur) && !contains_exec(doc, swipe) {
        return Ok(None);
    }
    match comment_out_spans(doc, blur, end) {
        Err(e) => Err(PatchError::UnclosedElement { position: e.position }),
        Ok(once) => match comment_out_spans(once.as_slice(), swipe, end) {
            Err(e) => Err(PatchError::UnclosedElement { position: e.position }),
            Ok(twice) => Ok(Some(twice)),
        },
    }
}

/// Relies on encoding_rs's `UTF_8.decode_with_bom_removal`: a leading UTF-8
/// byte order mark is dropped and the rest decoded as UTF-8; the flag is set
/// exactly when malformed sequences were met.
#[verifier::external_body]
fn decode_utf8_with_bom_removal(bytes: &[u8]) -> (r: (String, bool))
    ensures
        r.1 == !valid_utf8(without_bom(bytes@)),
        !r.1 ==> r.0@ == decode_utf8(without_bom(bytes@)),
{
    let (text, malformed) = encoding_rs::UTF_8.decode_with_bom_removal(bytes);
    (text.into_owned(), malformed)
}

/// What patching one file gives: its bytes without a byte order mark must be
/// UTF-8; then the textual engine decides.
pub open spec fn text_file_outcome(content: Seq<u8>) -> Result<Option<Seq<u8>>, PatchError> {
    if !valid_utf8(without_bom(content)) {
        Err(PatchError::InvalidUtf8)
    } else {
        match patched_text(without_bom(content)) {
            Ok(out) => Ok(out),
            Err(p) => Err(PatchError::UnclosedElement { position: p as usize }),
        }
    }
}

/// The model of what a patch of one file returned.
pub open spec fn outcome_model(r: Result<Option<Vec<u8>>, PatchError>) -> Result<
    Option<Seq<u8>>,
    PatchError,
> {
    match r {
        Ok(Some(out)) => Ok(Some(out@)),
        Ok(None) => Ok(None),
        Err(e) => Err(e),
    }
}

/// Decodes a file's bytes as UTF-8 after dropping a leading byte order mark.
pub fn decode_xaml(content: &[u8]) -> (r: Result<String, PatchError>)
    ensures
        valid_utf8(without_bom(content@)) ==> r is Ok && r->Ok_0@ == decode_utf8(
            without_bom(content@),
        ),
        !valid_utf8(without_bom(content@)) ==> r == Err::<String, PatchError>(
            PatchError::InvalidUtf8,
        ),
{
    let (text, malformed) = decode_utf8_with_bom_removal(content);
    if malformed {
        Err(PatchError::InvalidUtf8)
    } else {
        Ok(text)
    }
}

/// Patches one file with the textual engine: `Ok(None)` when nothing in it
/// matches, else its patched content.
pub fn modify_xaml_text_file(content: &[u8]) -> (r: Result<Option<Vec<u8>>, PatchError>)
    ensures
        outcome_model(r) == text_file_outcome(content@),
{
    let (text, malformed) = decode_utf8_with_bom_removal(content);
    if malformed {
        return Err(PatchError::InvalidUtf8);
    }
    let bytes = text.as_str().as_bytes();
    proof {
        vstd::utf8::decode_utf8_encode_utf8(without_bom(content@));
    }
    patch_xaml_text(bytes)
}

/// Patching is deterministic: byte-identical files give identical outcomes.
pub proof fn lemma_patch_deterministic(a: Seq<u8>, b: Seq<u8>)
    requires
        a == b,
    ensures
        text_file_outcome(a) == text_file_outcome(b),
{
}

/// Nothing is ever shortened: where the span matcher succeeds, its output is
/// at least as long as the part of the input from `from` on.
pub proof fn lemma_commented_out_not_shorter(s: Seq<u8>, start: Seq<u8>, end: Seq<u8>, from: int)
    requires
        0 <= from <= s.len(),
        start.len() > 0,
    ensures
        match commented_out(s, start, end, from) {
            Ok(out) => out.len() >= s.len() - from,
            Err(_) => true,
        },
    decreases s.len() + 1 - from,
{
    lemma_first_occurrence(s, start, from);
    if let Some(j) = first_occurrence(s, start, from) {
        lemma_first_occurrence(s, end, j + start.len());
        if let Some(k) = first_occurrence(s, end, j + start.len()) {
            lemma_commented_out_not_shorter(s, start, end, k + end.len());
        }
    }
}

/// Textual-engine output is never shorter than its input.
pub proof fn lemma_patched_text_not_shorter(doc: Seq<u8>)
    ensures
        match patched_text(doc) {
            Ok(Some(out)) => out.len() >= doc.len(),
            _ => true,
        },
{
    lemma_markers_not_empty();
    lemma_commented_out_not_shorter(doc, blur_marker(), element_end(), 0);
    if let Ok(once) = commented_out(doc, blur_marker(), element_end(), 0) {
        lemma_commented_out_not_shorter(once, swipe_marker(), element_end(), 0);
    }
}

/// Text in which no start marker stands passes the span matcher unchanged.
pub proof fn lemma_commented_out_without_marker(s: Seq<u8>, start: Seq<u8>, end: Seq<u8>)
    requires
        start.len() > 0,
        !contains(s, start),
    ensures
        commented_out(s, start, end, 0) == Ok::<Seq<u8>, int>(s),
{
    lemma_first_occurrence(s, start, 0);
    assert(s.subrange(0, s.len() as int) =~= s);
}

/// The opening and closing texts of a placeholder hold the start marker of no
/// removal rule, and text without any start marker is reported unchanged.
/// The span kept inside a placeholder still begins with its marker, so a
/// second pass over patched output wraps that span again.
pub proof fn lemma_placeholder_never_matches(doc: Seq<u8>)
    ensures
        !contains(placeholder_open(), blur_marker()),
        !contains(placeholder_open(), swipe_marker()),
        !contains(placeholder_close(), blur_marker()),
        !contains(placeholder_close(), swipe_marker()),
        !contains(doc, blur_marker()) && !contains(doc, swipe_marker()) ==> patched_text(doc)
            == Ok::<Option<Seq<u8>>, int>(None),
{
    reveal_strlit("<local:Age2BlurEffect");
    reveal_strlit("<local:Age2SwipeEffect");
    reveal_strlit("<!--The mod Reduced UI Animations replaced an element here: ");
    reveal_strlit("-->");
    vstd::string::is_ascii_spec_bytes("<local:Age2BlurEffect");
    vstd::string::is_ascii_spec_bytes("<local:Age2SwipeEffect");
    vstd::string::is_ascii_spec_bytes("<!--The mod Reduced UI Animations replaced an element here: ");
    vstd::string::is_ascii_spec_bytes("-->");
    let open = placeholder_open();
    let close = placeholder_close();
    assert forall|j: int| occurs_at(open, blur_marker(), j) || occurs_at(open, swipe_marker(), j)
        implies false by {
        assert(open.subrange(j, j + 2)[0] == open[j]);
        assert(open.subrange(j, j + 2)[1] == open[j + 1]);
        assert(open[j] == 60u8 && open[j + 1] == 108u8);
    }
    assert forall|j: int| occurs_at(close, blur_marker(), j) || occurs_at(close, swipe_marker(), j)
        implies false by {
    }
}

} // verus!
