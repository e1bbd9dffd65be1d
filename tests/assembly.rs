use reduced_ui_animations::assembly::{
    generate_mod, modify_wpfg, modify_xaml_files, wpfg_path, wpfg_subdirectory_names, FileEntry,
};
use reduced_ui_animations::directory::{write_directory, Directory, DirectoryEntry, FileWrite};
use reduced_ui_animations::markup::{Attribute, Element, Node};
use reduced_ui_animations::textual::PatchError;

const INFO: &str = "{\"Author\":\"Flauschfuchs\",\"CacheStatus\":0,\"Description\":\"Recreation of <b>0xDB No UI Transitions 1.4</b> by Flauschfuchs so that it works in May 2024.\",\"Title\":\"Reduced UI Animations\"}";

const SWIPE_PLACEHOLDER: &str =
    "<!--The mod Reduced UI Animations replaced an element here: local:Age2SwipeEffect-->";

fn el(name: &str, attributes: &[(&str, &str)], children: Vec<Node>) -> Node {
    let mut e = Element { name: name.to_string(), attributes: Vec::new(), children };
    for (key, value) in attributes {
        e.set_attribute(key.to_string(), value.to_string());
    }
    Node::Element(e)
}

fn swipe() -> Vec<Node> {
    vec![el("local:Age2SwipeEffect", &[], vec![])]
}

fn blur() -> Vec<Node> {
    vec![el("local:Age2BlurEffect", &[], vec![])]
}

fn grid() -> Vec<Node> {
    vec![el("Grid", &[], vec![])]
}

fn file(name: &str, document: Vec<Node>) -> FileEntry {
    FileEntry { name: name.to_string(), document }
}

fn names(d: &Directory) -> Vec<String> {
    d.entries.iter().map(|e| e.0.clone()).collect()
}

fn paths(writes: &[FileWrite]) -> Vec<String> {
    writes.iter().map(|w| w.path.join("/")).collect()
}

fn listings(mut pick: impl FnMut(&str) -> Vec<FileEntry>) -> Vec<(String, Vec<FileEntry>)> {
    wpfg_subdirectory_names()
        .into_iter()
        .map(|n| {
            let files = pick(&n);
            (n, files)
        })
        .collect()
}

fn info_json() -> Vec<u8> {
    let mut map = serde_json::Map::new();
    map.insert("Author".to_string(), serde_json::Value::from("Flauschfuchs"));
    map.insert("CacheStatus".to_string(), serde_json::Value::from(0));
    map.insert(
        "Description".to_string(),
        serde_json::Value::from(
            "Recreation of <b>0xDB No UI Transitions 1.4</b> by Flauschfuchs so that it works in May 2024.",
        ),
    );
    map.insert("Title".to_string(), serde_json::Value::from("Reduced UI Animations"));
    serde_json::Value::Object(map).to_string().into_bytes()
}

#[test]
fn unchanged_files_are_omitted() {
    let files = vec![file("b.xaml", swipe()), file("a.xaml", grid()), file("c.xaml", blur())];
    let d = modify_xaml_files(files).ok().unwrap();
    assert_eq!(vec!["b.xaml".to_string(), "c.xaml".to_string()], names(&d));
    match &d.entries[0].1 {
        DirectoryEntry::File(c) => assert_eq!(SWIPE_PLACEHOLDER.as_bytes().to_vec(), *c),
        DirectoryEntry::Subdirectory(_) => panic!("expected a file"),
    }
}

#[test]
fn fade_rectangle_alone_is_staged() {
    let files = vec![file(
        "fade.xaml",
        vec![el("Rectangle", &[("x:Name", "Fade"), ("Fill", "X"), ("Width", "A"), ("Height", "B")], vec![])],
    )];
    let d = modify_xaml_files(files).ok().unwrap();
    match &d.entries[0].1 {
        DirectoryEntry::File(c) => assert_eq!(
            "<Rectangle Canvas.Left=\"-1\" Canvas.Top=\"-1\" Fill=\"Green\" Height=\"1\" Width=\"1\" x:Name=\"Fade\"></Rectangle>"
                .as_bytes()
                .to_vec(),
            *c
        ),
        DirectoryEntry::Subdirectory(_) => panic!("expected a file"),
    }
}

#[test]
fn failing_file_is_reported_by_name() {
    let unsorted = Element {
        name: "E".to_string(),
        attributes: vec![
            Attribute { name: "x:Name".to_string(), value: "Fade".to_string() },
            Attribute { name: "Fill".to_string(), value: "X".to_string() },
        ],
        children: vec![],
    };
    let files = vec![file("ok.xaml", grid()), file("bad.xaml", vec![Node::Element(unsorted)])];
    let e = modify_xaml_files(files).err().unwrap();
    assert_eq!("bad.xaml", e.name);
    assert_eq!(PatchError::AttributesOutOfOrder, e.error);
}

#[test]
fn directory_insertion_order_leaves_no_trace() {
    let mut first = Directory::new();
    first.insert("b".to_string(), DirectoryEntry::File(vec![1]));
    first.insert("a".to_string(), DirectoryEntry::File(vec![2]));
    let mut second = Directory::new();
    second.insert("a".to_string(), DirectoryEntry::File(vec![2]));
    second.insert("b".to_string(), DirectoryEntry::File(vec![1]));
    assert_eq!(names(&first), names(&second));
    assert!(first.is_sorted() && second.is_sorted());
    assert_eq!(paths(&write_directory(&first)), paths(&write_directory(&second)));
}

#[test]
fn unsorted_directory_is_detected() {
    let d = Directory {
        entries: vec![
            ("b".to_string(), DirectoryEntry::File(vec![])),
            ("a".to_string(), DirectoryEntry::File(vec![])),
        ],
    };
    assert!(!d.is_sorted());
}

#[test]
fn wpfg_names_and_path() {
    assert_eq!(vec!["dialog", "panel", "screen", "tab"], wpfg_subdirectory_names());
    assert_eq!(vec!["resources", "_common", "wpfg"], wpfg_path());
}

#[test]
fn wpfg_stages_all_four_subdirectories_even_when_empty() {
    let root = vec![file("main.xaml", blur())];
    let subs = listings(|n| {
        if n == "dialog" {
            vec![file("d.xaml", swipe())]
        } else {
            vec![file("t.xaml", grid())]
        }
    });
    let d = modify_wpfg(root, subs).ok().unwrap();
    assert_eq!(
        vec!["dialog", "main.xaml", "panel", "screen", "tab"],
        names(&d)
    );
    assert_eq!(vec!["dialog/d.xaml", "main.xaml"], paths(&write_directory(&d)));
}

#[test]
fn generated_mod_has_fixed_layout() {
    let root = vec![file("main.xaml", blur()), file("same.xaml", grid())];
    let subs = listings(|n| {
        if n == "panel" {
            vec![file("p.xaml", vec![el("x", &[], swipe())])]
        } else {
            vec![]
        }
    });
    let d = generate_mod(info_json(), root, subs).ok().unwrap();
    assert!(d.is_sorted());
    let writes = write_directory(&d);
    assert_eq!(
        vec![
            "info.json",
            "resources/_common/wpfg/main.xaml",
            "resources/_common/wpfg/panel/p.xaml",
        ],
        paths(&writes)
    );
    assert_eq!(INFO.as_bytes().to_vec(), writes[0].content);
    assert_eq!(format!("<x>{}</x>", SWIPE_PLACEHOLDER).into_bytes(), writes[2].content);
}

#[test]
fn metadata_file_is_the_same_whatever_changed() {
    let none = generate_mod(info_json(), vec![], listings(|_| vec![])).ok().unwrap();
    let some =
        generate_mod(info_json(), vec![file("a.xaml", swipe())], listings(|_| vec![])).ok().unwrap();
    let a = write_directory(&none);
    let b = write_directory(&some);
    assert_eq!(vec!["info.json"], paths(&a));
    assert_eq!(INFO.as_bytes().to_vec(), a[0].content);
    assert_eq!(a[0].content, b[0].content);
}
