use reduced_ui_animations::span::{comment_out_spans, UnclosedSpan};
use reduced_ui_animations::textual::{decode_xaml, modify_xaml_text_file, patch_xaml_text, PatchError};

const OPEN: &str = "<!--The mod Reduced UI Animations replaced an element here: ";

fn patch(doc: &str) -> Result<Option<String>, PatchError> {
    patch_xaml_text(doc.as_bytes()).map(|o| o.map(|b| String::from_utf8(b).unwrap()))
}

#[test]
fn textual_swipe_effect_alone_is_wrapped_once() {
    let out = patch("<local:Age2SwipeEffect/>").unwrap().unwrap();
    assert_eq!(format!("{}<local:Age2SwipeEffect/>-->", OPEN), out);
    assert_eq!(1, out.matches("<!--").count());
}

#[test]
fn textual_sibling_matches_get_separate_placeholders() {
    let out = patch("<a><local:Age2SwipeEffect/><local:Age2SwipeEffect/></a>").unwrap().unwrap();
    assert_eq!(
        format!(
            "<a>{o}<local:Age2SwipeEffect/>-->{o}<local:Age2SwipeEffect/>--></a>",
            o = OPEN
        ),
        out
    );
}

#[test]
fn textual_keeps_other_bytes_and_whitespace() {
    let doc = "<T>\n    <Canvas.Effect>\n        <local:Age2BlurEffect\n            P1=\"40,0\"\n            />\n    </Canvas.Effect>\n</T>\n";
    let out = patch(doc).unwrap().unwrap();
    assert_eq!(
        format!(
            "<T>\n    <Canvas.Effect>\n        {}<local:Age2BlurEffect\n            P1=\"40,0\"\n            />-->\n    </Canvas.Effect>\n</T>\n",
            OPEN
        ),
        out
    );
    assert!(out.len() >= doc.len());
}

#[test]
fn textual_no_match_is_unchanged() {
    assert_eq!(Ok(None), patch("<Test xmlns=\"test\"></Test>"));
    assert_eq!(Ok(None), patch(""));
}

#[test]
fn textual_placeholder_text_alone_does_not_retrigger() {
    let doc = format!("{}-->", OPEN);
    assert_eq!(Ok(None), patch(&doc));
}

#[test]
fn textual_unclosed_element_is_an_error() {
    assert_eq!(
        Err(PatchError::UnclosedElement { position: 3 }),
        patch("<a><local:Age2SwipeEffect")
    );
}

#[test]
fn span_matcher_reports_position_of_unclosed_start() {
    assert_eq!(Err(UnclosedSpan { position: 2 }), comment_out_spans(b"xx[abc", b"[", b"]"));
}

#[test]
fn span_matcher_wraps_each_span_left_to_right() {
    let out = comment_out_spans(b"a[1]b[2]c", b"[", b"]").unwrap();
    assert_eq!(
        format!("a{o}[1]-->b{o}[2]-->c", o = OPEN),
        String::from_utf8(out).unwrap()
    );
}

#[test]
fn span_matcher_end_is_nearest_after_start() {
    let out = comment_out_spans(b"]x[y]z]", b"[", b"]").unwrap();
    assert_eq!(format!("]x{}[y]-->z]", OPEN), String::from_utf8(out).unwrap());
}

#[test]
fn file_with_byte_order_mark_is_decoded_without_it() {
    let mut content = vec![0xEF, 0xBB, 0xBF];
    content.extend_from_slice(b"<local:Age2BlurEffect />");
    let out = modify_xaml_text_file(&content).unwrap().unwrap();
    assert_eq!(format!("{}<local:Age2BlurEffect />-->", OPEN).into_bytes(), out);
}

#[test]
fn file_that_is_not_utf8_is_an_error() {
    assert_eq!(Err(PatchError::InvalidUtf8), modify_xaml_text_file(&[0x3C, 0xFF, 0x3E]));
}

#[test]
fn file_without_match_gives_none() {
    assert_eq!(Ok(None), modify_xaml_text_file(b"<Grid/>"));
}

#[test]
fn patching_twice_gives_the_same_bytes() {
    let doc = b"<a><local:Age2SwipeEffect x=\"1\"/></a>";
    assert_eq!(modify_xaml_text_file(doc), modify_xaml_text_file(doc));
}

#[test]
fn decoding_drops_the_byte_order_mark() {
    let content = [0xEF, 0xBB, 0xBF, b'<', b'a', b'/', b'>'];
    assert_eq!(Ok("<a/>".to_string()), decode_xaml(&content));
    assert_eq!(Err(PatchError::InvalidUtf8), decode_xaml(&[0xFF]));
}
