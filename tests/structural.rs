use reduced_ui_animations::markup::{
    is_fade_brush_rectangle, is_well_formed, modify_xaml_file, patch_xaml, xml_to_string, Attribute,
    Element, Node,
};
use reduced_ui_animations::textual::PatchError;

fn element(name: &str, attributes: &[(&str, &str)], children: Vec<Node>) -> Element {
    let mut e = Element { name: name.to_string(), attributes: Vec::new(), children };
    for (key, value) in attributes {
        e.set_attribute(key.to_string(), value.to_string());
    }
    e
}

fn el(name: &str, attributes: &[(&str, &str)], children: Vec<Node>) -> Node {
    Node::Element(element(name, attributes, children))
}

fn text(t: &str) -> Node {
    Node::Text(t.to_string())
}

fn comment(t: &str) -> Node {
    Node::Comment(t.to_string())
}

fn patch(nodes: Vec<Node>) -> Option<String> {
    patch_xaml(nodes).map(|out| xml_to_string(&out))
}

#[test]
fn test_patch_xaml_tiny() {
    assert_eq!(None, patch(vec![el("Test", &[("xmlns", "test")], vec![])]));
}

#[test]
fn test_patch_xaml_swipe_effect() {
    assert_eq!(
        Some("<Test xmlns=\"test\" xmlns:local=\"bla\"><!--The mod Reduced UI Animations replaced an element here: local:Age2SwipeEffect--></Test>".to_string()),
        patch(vec![el(
            "Test",
            &[("xmlns", "test"), ("xmlns:local", "bla")],
            vec![el("local:Age2SwipeEffect", &[], vec![])]
        )])
    );
}

#[test]
fn test_patch_xaml_blur_effect() {
    assert_eq!(
        Some("<Test xmlns=\"test\" xmlns:local=\"bla\"><Canvas.Effect>\\n<!--The mod Reduced UI Animations replaced an element here: local:Age2BlurEffect--></Canvas.Effect></Test>".to_string()),
        patch(vec![el(
            "Test",
            &[("xmlns", "test"), ("xmlns:local", "bla")],
            vec![el(
                "Canvas.Effect",
                &[],
                vec![text("\\n"), el("local:Age2BlurEffect", &[], vec![])]
            )]
        )])
    );
}

#[test]
fn test_patch_xaml_fade_brush() {
    assert_eq!(
        Some(
            "<Test xmlns=\"test\"><!--a fade over the screen, but under the modals--><Rectangle Canvas.Left=\"-1\" Canvas.Top=\"-1\" Fill=\"Green\" Height=\"1\" Visibility=\"Hidden\" Width=\"1\" x:Name=\"Fade\"></Rectangle></Test>"
                .to_string()
        ),
        patch(vec![el(
            "Test",
            &[("xmlns", "test")],
            vec![
                comment("a fade over the screen, but under the modals"),
                el(
                    "Rectangle",
                    &[
                        ("x:Name", "Fade"),
                        ("Fill", "{Binding ElementName=window, Path=FadeBrush}"),
                        ("Visibility", "Hidden"),
                        ("Height", "{Binding ElementName=window, Path=ActualHeight}"),
                        ("Width", "{Binding ElementName=window, Path=ActualWidth}"),
                    ],
                    vec![]
                )
            ]
        )])
    );
}

#[test]
fn test_patch_xaml_two_different_effects() {
    assert_eq!(
        Some("<Test xmlns=\"test\" xmlns:local=\"bla\"><Canvas.Effect>\\n<!--The mod Reduced UI Animations replaced an element here: local:Age2BlurEffect--></Canvas.Effect><!--The mod Reduced UI Animations replaced an element here: local:Age2SwipeEffect--></Test>".to_string()),
        patch(vec![el(
            "Test",
            &[("xmlns", "test"), ("xmlns:local", "bla")],
            vec![
                el(
                    "Canvas.Effect",
                    &[],
                    vec![text("\\n"), el("local:Age2BlurEffect", &[], vec![])]
                ),
                el("local:Age2SwipeEffect", &[], vec![])
            ]
        )])
    );
}

#[test]
fn test_patch_xaml_same_effect_twice() {
    assert_eq!(
        Some("<Test xmlns=\"test\" xmlns:local=\"bla\"><!--The mod Reduced UI Animations replaced an element here: local:Age2SwipeEffect--><!--The mod Reduced UI Animations replaced an element here: local:Age2SwipeEffect--></Test>".to_string()),
        patch(vec![el(
            "Test",
            &[("xmlns", "test"), ("xmlns:local", "bla")],
            vec![
                el("local:Age2SwipeEffect", &[], vec![]),
                el("local:Age2SwipeEffect", &[], vec![])
            ]
        )])
    );
}

#[test]
fn test_patch_xaml_realistic() {
    let swipe = el(
        "local:Age2SwipeEffect",
        &[
            ("SwipeLow", "{Binding ElementName=Page,Path=SwipeLow}"),
            ("SwipeHigh", "{Binding ElementName=Page,Path=SwipeHigh}"),
            ("PixelWidth", "3840"),
            ("PixelHeight", "2160"),
            ("ScreenWidth", "{Binding ElementName=Page, Path=ActualWidth}"),
            ("ScreenHeight", "{Binding ElementName=Page, Path=ActualHeight}"),
        ],
        vec![],
    );
    let blur = el(
        "local:Age2BlurEffect",
        &[
            ("BlurMask", "{StaticResource ribbon00_BBAA_blurmask}"),
            ("SwipeLow", "{Binding ElementName=Page,Path=SwipeLow}"),
            ("SwipeHigh", "{Binding ElementName=Page,Path=SwipeHigh}"),
            ("PixelTop", "0"),
            ("PixelLeft", "235"),
            ("PixelWidth", "1000"),
            ("PixelHeight", "2160"),
            ("P1", "40,0"),
            ("P2", "40,0"),
            ("TextureSize", "128,128"),
            ("ScreenWidth", "{Binding ElementName=Page, Path=ActualWidth}"),
            ("ScreenHeight", "{Binding ElementName=Page, Path=ActualHeight}"),
        ],
        vec![],
    );
    let document = vec![el(
        "local:Age2ScreenSimpleMainMenu",
        &[
            ("x:Name", "Page"),
            ("d:DesignHeight", "2160"),
            ("d:DesignWidth", "3840"),
            ("mc:Ignorable", "d"),
            ("xmlns", "http://schemas.microsoft.com/winfx/2006/xaml/presentation"),
            ("xmlns:d", "http://schemas.microsoft.com/expression/blend/2008"),
            ("xmlns:local", "clr-namespace:aoe2wpfg"),
            ("xmlns:mc", "http://schemas.openxmlformats.org/markup-compatibility/2006"),
            ("xmlns:x", "http://schemas.microsoft.com/winfx/2006/xaml"),
        ],
        vec![
            el(
                "Canvas",
                &[("Width", "3840"), ("Height", "2160"), ("Background", "Transparent")],
                vec![el("Canvas.Effect", &[], vec![swipe])],
            ),
            el(
                "Canvas",
                &[
                    ("Width", "1000"),
                    ("Height", "2160"),
                    ("Canvas.Left", "235"),
                    ("Background", "Transparent"),
                ],
                vec![el("Canvas.Effect", &[], vec![blur])],
            ),
        ],
    )];
    assert_eq!(
        Some("<local:Age2ScreenSimpleMainMenu d:DesignHeight=\"2160\" d:DesignWidth=\"3840\" mc:Ignorable=\"d\" x:Name=\"Page\" xmlns=\"http://schemas.microsoft.com/winfx/2006/xaml/presentation\" xmlns:d=\"http://schemas.microsoft.com/expression/blend/2008\" xmlns:local=\"clr-namespace:aoe2wpfg\" xmlns:mc=\"http://schemas.openxmlformats.org/markup-compatibility/2006\" xmlns:x=\"http://schemas.microsoft.com/winfx/2006/xaml\"><Canvas Background=\"Transparent\" Height=\"2160\" Width=\"3840\"><Canvas.Effect><!--The mod Reduced UI Animations replaced an element here: local:Age2SwipeEffect--></Canvas.Effect></Canvas><Canvas Background=\"Transparent\" Canvas.Left=\"235\" Height=\"2160\" Width=\"1000\"><Canvas.Effect><!--The mod Reduced UI Animations replaced an element here: local:Age2BlurEffect--></Canvas.Effect></Canvas></local:Age2ScreenSimpleMainMenu>".to_string()),
        patch(document)
    );
}

#[test]
fn swipe_effect_alone_becomes_one_placeholder() {
    let out = patch_xaml(vec![el("local:Age2SwipeEffect", &[], vec![])]).unwrap();
    assert_eq!(1, out.len());
    assert_eq!(
        "<!--The mod Reduced UI Animations replaced an element here: local:Age2SwipeEffect-->",
        xml_to_string(&out)
    );
}

#[test]
fn fade_rectangle_scenario_rewrites_five_attributes() {
    let out = patch(vec![el(
        "Rectangle",
        &[("x:Name", "Fade"), ("Fill", "X"), ("Width", "A"), ("Height", "B")],
        vec![],
    )]);
    assert_eq!(
        Some("<Rectangle Canvas.Left=\"-1\" Canvas.Top=\"-1\" Fill=\"Green\" Height=\"1\" Width=\"1\" x:Name=\"Fade\"></Rectangle>".to_string()),
        out
    );
}

#[test]
fn rectangle_with_other_name_is_not_rewritten() {
    let e = element("Rectangle", &[("x:Name", "Other"), ("Fill", "X")], vec![]);
    assert!(!is_fade_brush_rectangle(&e));
    assert_eq!(None, patch(vec![Node::Element(e)]));
}

#[test]
fn other_tag_named_fade_is_not_rewritten() {
    let e = element("Ellipse", &[("x:Name", "Fade"), ("Fill", "X")], vec![]);
    assert!(!is_fade_brush_rectangle(&e));
    assert_eq!(None, patch(vec![Node::Element(e)]));
}

#[test]
fn set_attribute_keeps_names_ascending_and_replaces_values() {
    let mut e = element("E", &[("b", "1"), ("a", "2")], vec![]);
    e.set_attribute("a".to_string(), "3".to_string());
    e.set_attribute("c".to_string(), "4".to_string());
    let pairs: Vec<(String, String)> =
        e.attributes.iter().map(|a: &Attribute| (a.name.clone(), a.value.clone())).collect();
    assert_eq!(
        vec![
            ("a".to_string(), "3".to_string()),
            ("b".to_string(), "1".to_string()),
            ("c".to_string(), "4".to_string())
        ],
        pairs
    );
}

#[test]
fn serialization_does_not_depend_on_attribute_insertion_order() {
    let first = vec![el("E", &[("z", "1"), ("a", "2"), ("m", "3")], vec![])];
    let second = vec![el("E", &[("m", "3"), ("z", "1"), ("a", "2")], vec![])];
    assert_eq!(xml_to_string(&first), xml_to_string(&second));
    assert_eq!("<E a=\"2\" m=\"3\" z=\"1\"></E>", xml_to_string(&first));
}

#[test]
fn removed_element_is_not_descended_into() {
    let out = patch(vec![el(
        "local:Age2BlurEffect",
        &[],
        vec![el("Rectangle", &[("x:Name", "Fade")], vec![])],
    )]);
    assert_eq!(
        Some("<!--The mod Reduced UI Animations replaced an element here: local:Age2BlurEffect-->".to_string()),
        out
    );
}

#[test]
fn text_and_attribute_values_are_escaped() {
    let doc = vec![el("E", &[("v", "a & \"b\" < c")], vec![text("x < y & z")])];
    assert_eq!(
        "<E v=\"a &amp; &quot;b&quot; &lt; c\">x &lt; y &amp; z</E>",
        xml_to_string(&doc)
    );
}

#[test]
fn structural_file_patch_rewrites_fade_rectangle() {
    let doc = vec![el(
        "Rectangle",
        &[("x:Name", "Fade"), ("Fill", "X"), ("Width", "A"), ("Height", "B")],
        vec![],
    )];
    assert_eq!(
        Ok(Some(
            "<Rectangle Canvas.Left=\"-1\" Canvas.Top=\"-1\" Fill=\"Green\" Height=\"1\" Width=\"1\" x:Name=\"Fade\"></Rectangle>"
                .as_bytes()
                .to_vec()
        )),
        modify_xaml_file(doc)
    );
}

#[test]
fn structural_file_patch_checks_attribute_order() {
    let e = Element {
        name: "E".to_string(),
        attributes: vec![
            Attribute { name: "b".to_string(), value: "1".to_string() },
            Attribute { name: "a".to_string(), value: "2".to_string() },
        ],
        children: vec![],
    };
    let nodes = vec![Node::Element(e)];
    assert!(!is_well_formed(&nodes));
    assert_eq!(Err(PatchError::AttributesOutOfOrder), modify_xaml_file(nodes));
}

#[test]
fn patched_output_patches_to_nothing_more() {
    let out = patch_xaml(vec![el("T", &[], vec![el("local:Age2BlurEffect", &[], vec![])])]).unwrap();
    assert!(patch_xaml(out).is_none());
}
