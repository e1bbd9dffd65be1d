//! Structural patch engine: the patch rules applied to a parsed markup tree,
//! and a serializer whose output depends on the tree alone.
//!
//! This is the engine the mod is assembled with. Besides the two removal
//! rules it rewrites the fade rectangle; whether that rewrite belongs to the
//! mod is an open choice, kept here and left out of the textual engine.
use vstd::prelude::*;
use vstd::string::{StrSliceExecFns, StringExecFns};

use crate::order::{name_less, name_less_exec};
use crate::textual::{outcome_model, PatchError};

verus! {

/// An attribute of an element.
pub struct Attribute {
    pub name: String,
    pub value: String,
}

/// A node of a markup document.
pub enum Node {
    Element(Element),
    Text(String),
    Comment(String),
}

/// An element: its tag, its attributes in ascending order of their names,
/// and its children in document order.
pub struct Element {
    pub name: String,
    pub attributes: Vec<Attribute>,
    pub children: Vec<Node>,
}

/// Attributes as pairs of name and value.
pub type AttributesModel = Seq<(Seq<char>, Seq<char>)>;

/// The model of a list of attributes.
pub open spec fn attributes_model(attributes: Seq<Attribute>) -> AttributesModel {
    attributes.map_values(|a: Attribute| (a.name@, a.value@))
}

/// The value of the first attribute named `name`.
pub open spec fn attribute_value(attributes: AttributesModel, name: Seq<char>) -> Option<Seq<char>>
    decreases attributes.len(),
{
    if attributes.len() == 0 {
        None
    } else if attributes[0].0 == name {
        Some(attributes[0].1)
    } else {
        attribute_value(attributes.drop_first(), name)
    }
}

/// `attributes` with `name` set to `value`: an attribute of that name takes
/// the value; else a new one goes before the first name after it.
pub open spec fn with_attribute(attributes: AttributesModel, name: Seq<char>, value: Seq<char>) -> AttributesModel
    decreases attributes.len(),
{
    if attributes.len() == 0 {
        seq![(name, value)]
    } else if attributes[0].0 == name {
        seq![(name, value)] + attributes.drop_first()
    } else if name_less(attributes[0].0, name) {
        seq![attributes[0]] + with_attribute(attributes.drop_first(), name, value)
    } else {
        seq![(name, value)] + attributes
    }
}

/// Tag of the blur effect, removed.
pub open spec fn blur_effect_tag() -> Seq<char> {
    "local:Age2BlurEffect"@
}

/// Tag of the swipe effect, removed.
pub open spec fn swipe_effect_tag() -> Seq<char> {
    "local:Age2SwipeEffect"@
}

/// An element with this tag is replaced by a placeholder comment.
pub open spec fn is_removed_tag(name: Seq<char>) -> bool {
    name == blur_effect_tag() || name == swipe_effect_tag()
}

/// The text of the comment that stands where an element named `name` was.
pub open spec fn placeholder_text(name: Seq<char>) -> Seq<char> {
    "The mod Reduced UI Animations replaced an element here: "@ + name
}

/// The rectangle that fades the screen: tag `Rectangle` and `x:Name="Fade"`.
pub open spec fn is_fade_brush(name: Seq<char>, attributes: AttributesModel) -> bool {
    name == "Rectangle"@ && attribute_value(attributes, "x:Name"@) == Some("Fade"@)
}

/// The attributes of the fade rectangle once it is shrunk out of sight.
pub open spec fn rewritten_fade_brush(attributes: AttributesModel) -> AttributesModel {
    with_attribute(
        with_attribute(
            with_attribute(
                with_attribute(with_attribute(attributes, "Canvas.Left"@, "-1"@), "Canvas.Top"@, "-1"@),
                "Fill"@,
                "Green"@,
            ),
            "Height"@,
            "1"@,
        ),
        "Width"@,
        "1"@,
    )
}

/// `b` is `a` with the patch rules applied to it and, where it stays an
/// element, to all of its descendants.
pub open spec fn patched(a: Node, b: Node) -> bool
    decreases a,
{
    match a {
        Node::Element(e) => if is_removed_tag(e.name@) {
            b is Comment && b->Comment_0@ == placeholder_text(e.name@)
        } else {
            &&& b is Element
            &&& b->Element_0.name@ == e.name@
            &&& attributes_model(b->Element_0.attributes@) == if is_fade_brush(
                e.name@,
                attributes_model(e.attributes@),
            ) {
                rewritten_fade_brush(attributes_model(e.attributes@))
            } else {
                attributes_model(e.attributes@)
            }
            &&& b->Element_0.children@.len() == e.children@.len()
            &&& forall|i: int|
                0 <= i < e.children@.len() ==> patched(
                    #[trigger] e.children@[i],
                    b->Element_0.children@[i],
                )
        },
        Node::Text(t) => b is Text && b->Text_0@ == t@,
        Node::Comment(c) => b is Comment && b->Comment_0@ == c@,
    }
}

/// Some rule fires on `n` or on one of its descendants.
pub open spec fn changes(n: Node) -> bool
    decreases n,
{
    match n {
        Node::Element(e) => is_removed_tag(e.name@) || is_fade_brush(
            e.name@,
            attributes_model(e.attributes@),
        ) || exists|i: int| 0 <= i < e.children@.len() && changes(#[trigger] e.children@[i]),
        _ => false,
    }
}

/// A character as markup writes it in text and attribute values.
pub open spec fn escape_char(c: char) -> Seq<char> {
    if c == '&' {
        "&amp;"@
    } else if c == '<' {
        "&lt;"@
    } else if c == '"' {
        "&quot;"@
    } else {
        seq![c]
    }
}

/// `s` with `&`, `<` and `"` written as entity references.
pub open spec fn escaped(s: Seq<char>) -> Seq<char>
    decreases s.len(),
{
    if s.len() == 0 {
        Seq::empty()
    } else {
        escaped(s.drop_last()) + escape_char(s.last())
    }
}

/// The markup text of `nodes`: attributes in the order they are kept, text
/// and attribute values escaped, comments in comment delimiters.
pub open spec fn rendered(nodes: Seq<Node>) -> Seq<char>
    decreases nodes,
{
    if nodes.len() == 0 {
        Seq::empty()
    } else {
        rendered(nodes.drop_last()) + match nodes.last() {
            Node::Element(e) => "<"@ + e.name@ + rendered_attributes(attributes_model(e.attributes@))
                + ">"@ + rendered(e.children@) + "</"@ + e.name@ + ">"@,
            Node::Text(t) => escaped(t@),
            Node::Comment(c) => "<!--"@ + c@ + "-->"@,
        }
    }
}

/// The markup text of a list of attributes, each after a space.
pub open spec fn rendered_attributes(attributes: AttributesModel) -> Seq<char>
    decreases attributes.len(),
{
    if attributes.len() == 0 {
        Seq::empty()
    } else {
        rendered_attributes(attributes.drop_last()) + " "@ + attributes.last().0 + "=\""@
            + escaped(attributes.last().1) + "\""@
    }
}

/// Attribute names strictly ascend, so every name stands once.
pub open spec fn names_strictly_ascend(attributes: AttributesModel) -> bool {
    forall|i: int, j: int|
        0 <= i < j < attributes.len() ==> name_less(
            #[trigger] attributes[i].0,
            #[trigger] attributes[j].0,
        )
}

/// In every element of `nodes`, at any depth, attribute names strictly ascend.
pub open spec fn well_formed(nodes: Seq<Node>) -> bool
    decreases nodes,
{
    forall|i: int|
        0 <= i < nodes.len() ==> match #[trigger] nodes[i] {
            Node::Element(e) => names_strictly_ascend(attributes_model(e.attributes@))
                && well_formed(e.children@),
            _ => true,
        }
}

/// The attributes an element keeps once patched.
pub open spec fn patched_attributes(name: Seq<char>, attributes: AttributesModel) -> AttributesModel {
    if is_fade_brush(name, attributes) {
        rewritten_fade_brush(attributes)
    } else {
        attributes
    }
}

/// The markup text of `nodes` once patched: removed elements give their
/// placeholder comment, the fade rectangle its rewritten attributes.
pub open spec fn rendered_patched(nodes: Seq<Node>) -> Seq<char>
    decreases nodes,
{
    if nodes.len() == 0 {
        Seq::empty()
    } else {
        rendered_patched(nodes.drop_last()) + match nodes.last() {
            Node::Element(e) => if is_removed_tag(e.name@) {
                "<!--"@ + placeholder_text(e.name@) + "-->"@
            } else {
                "<"@ + e.name@ + rendered_attributes(
                    patched_attributes(e.name@, attributes_model(e.attributes@)),
                ) + ">"@ + rendered_patched(e.children@) + "</"@ + e.name@ + ">"@
            },
            Node::Text(t) => escaped(t@),
            Node::Comment(c) => "<!--"@ + c@ + "-->"@,
        }
    }
}

/// The patched tree prints as `rendered_patched` of the tree it came from.
pub proof fn lemma_rendered_patched(a: Seq<Node>, b: Seq<Node>)
    requires
        a.len() == b.len(),
        forall|i: int| 0 <= i < a.len() ==> patched(#[trigger] a[i], b[i]),
    ensures
        rendered(b) == rendered_patched(a),
    decreases a,
{
    if a.len() > 0 {
        let n = a.len() - 1;
        assert(patched(a[n], b[n]));
        lemma_rendered_patched(a.drop_last(), b.drop_last());
        if let Node::Element(e) = a.last() {
            if !is_removed_tag(e.name@) {
                let f = b.last()->Element_0;
                assert forall|i: int| 0 <= i < e.children@.len() implies patched(
                    #[trigger] e.children@[i],
                    f.children@[i],
                ) by {
                    assert(patched(a[n], b[n]));
                }
                lemma_rendered_patched(e.children@, f.children@);
            }
        }
    }
}

/// Setting an attribute keeps names strictly ascending, and every name after
/// `low` stays after it.
pub proof fn lemma_with_attribute_ascends(
    m: AttributesModel,
    name: Seq<char>,
    value: Seq<char>,
    low: Option<Seq<char>>,
)
    requires
        names_strictly_ascend(m),
        low is Some ==> name_less(low->0, name),
        low is Some ==> forall|t: int| 0 <= t < m.len() ==> name_less(low->0, #[trigger] m[t].0),
    ensures
        names_strictly_ascend(with_attribute(m, name, value)),
        low is Some ==> forall|k: int|
            0 <= k < with_attribute(m, name, value).len() ==> name_less(
                low->0,
                #[trigger] with_attribute(m, name, value)[k].0,
            ),
    decreases m.len(),
{
    let w = with_attribute(m, name, value);
    if m.len() == 0 {
    } else if m[0].0 == name {
        assert forall|i: int, j: int| 0 <= i < j < w.len() implies name_less(
            #[trigger] w[i].0,
            #[trigger] w[j].0,
        ) by {
            assert(w[j] == m[j]);
            if i > 0 {
                assert(w[i] == m[i]);
            }
        }
        assert forall|k: int| 0 <= k < w.len() && low is Some implies name_less(
            low->0,
            #[trigger] w[k].0,
        ) by {
            if k > 0 {
                assert(w[k] == m[k]);
            }
        }
    } else if name_less(m[0].0, name) {
        let rest = m.drop_first();
        assert forall|i: int, j: int| 0 <= i < j < rest.len() implies name_less(
            #[trigger] rest[i].0,
            #[trigger] rest[j].0,
        ) by {
            assert(rest[i] == m[i + 1] && rest[j] == m[j + 1]);
        }
        assert forall|t: int| 0 <= t < rest.len() implies name_less(m[0].0, #[trigger] rest[t].0) by {
            assert(rest[t] == m[t + 1]);
        }
        lemma_with_attribute_ascends(rest, name, value, Some(m[0].0));
        let wr = with_attribute(rest, name, value);
        assert(w == seq![m[0]] + wr);
        assert forall|i: int, j: int| 0 <= i < j < w.len() implies name_less(
            #[trigger] w[i].0,
            #[trigger] w[j].0,
        ) by {
            assert(w[j] == wr[j - 1]);
            if i > 0 {
                assert(w[i] == wr[i - 1]);
            }
        }
        assert forall|k: int| 0 <= k < w.len() && low is Some implies name_less(
            low->0,
            #[trigger] w[k].0,
        ) by {
            if k > 0 {
                assert(w[k] == wr[k - 1]);
                crate::order::lemma_bytes_less_transitive(
                    crate::order::utf8_of(low->0),
                    crate::order::utf8_of(m[0].0),
                    crate::order::utf8_of(wr[k - 1].0),
                );
            }
        }
    } else {
        crate::order::lemma_name_less_total(m[0].0, name);
        assert forall|i: int, j: int| 0 <= i < j < w.len() implies name_less(
            #[trigger] w[i].0,
            #[trigger] w[j].0,
        ) by {
            assert(w[j] == m[j - 1]);
            if i > 0 {
                assert(w[i] == m[i - 1]);
            } else if j > 1 {
                crate::order::lemma_bytes_less_transitive(
                    crate::order::utf8_of(name),
                    crate::order::utf8_of(m[0].0),
                    crate::order::utf8_of(m[j - 1].0),
                );
            }
        }
        assert forall|k: int| 0 <= k < w.len() && low is Some implies name_less(
            low->0,
            #[trigger] w[k].0,
        ) by {
            if k > 0 {
                assert(w[k] == m[k - 1]);
            }
        }
    }
}

proof fn lemma_rewrite_ascends(m: AttributesModel)
    requires
        names_strictly_ascend(m),
    ensures
        names_strictly_ascend(rewritten_fade_brush(m)),
{
    let m1 = with_attribute(m, "Canvas.Left"@, "-1"@);
    lemma_with_attribute_ascends(m, "Canvas.Left"@, "-1"@, None);
    let m2 = with_attribute(m1, "Canvas.Top"@, "-1"@);
    lemma_with_attribute_ascends(m1, "Canvas.Top"@, "-1"@, None);
    let m3 = with_attribute(m2, "Fill"@, "Green"@);
    lemma_with_attribute_ascends(m2, "Fill"@, "Green"@, None);
    let m4 = with_attribute(m3, "Height"@, "1"@);
    lemma_with_attribute_ascends(m3, "Height"@, "1"@, None);
    lemma_with_attribute_ascends(m4, "Width"@, "1"@, None);
}

/// Patching keeps a document well formed: the fade rectangle's new
/// attributes go where the order of names puts them.
pub proof fn lemma_patched_well_formed(a: Seq<Node>, b: Seq<Node>)
    requires
        a.len() == b.len(),
        forall|i: int| 0 <= i < a.len() ==> patched(#[trigger] a[i], b[i]),
        well_formed(a),
    ensures
        well_formed(b),
    decreases a,
{
    assert forall|i: int| 0 <= i < b.len() implies match #[trigger] b[i] {
        Node::Element(e) => names_strictly_ascend(attributes_model(e.attributes@)) && well_formed(
            e.children@,
        ),
        _ => true,
    } by {
        assert(patched(a[i], b[i]));
        if let Node::Element(e) = a[i] {
            assert(match a[i] {
                Node::Element(e) => names_strictly_ascend(attributes_model(e.attributes@))
                    && well_formed(e.children@),
                _ => true,
            });
            if !is_removed_tag(e.name@) {
                let f = b[i]->Element_0;
                if is_fade_brush(e.name@, attributes_model(e.attributes@)) {
                    lemma_rewrite_ascends(attributes_model(e.attributes@));
                }
                assert forall|k: int| 0 <= k < e.children@.len() implies patched(
                    #[trigger] e.children@[k],
                    f.children@[k],
                ) by {
                    assert(patched(a[i], b[i]));
                }
                assert(decreases_to!(a => a[i]));
                lemma_patched_well_formed(e.children@, f.children@);
            }
        }
    }
}

/// Some element at or below `n` carries a tag that a removal rule matches.
pub open spec fn holds_removed_tag(n: Node) -> bool
    decreases n,
{
    match n {
        Node::Element(e) => is_removed_tag(e.name@) || exists|i: int|
            0 <= i < e.children@.len() && holds_removed_tag(#[trigger] e.children@[i]),
        _ => false,
    }
}

/// After patching, no element is left that a removal rule matches: the
/// placeholder comments never trigger a removal rule again.
pub proof fn lemma_patched_holds_no_removed_tag(a: Node, b: Node)
    requires
        patched(a, b),
    ensures
        !holds_removed_tag(b),
    decreases a,
{
    if let Node::Element(e) = a {
        if !is_removed_tag(e.name@) {
            let f = b->Element_0;
            assert forall|i: int| 0 <= i < f.children@.len() implies !holds_removed_tag(
                #[trigger] f.children@[i],
            ) by {
                assert(patched(e.children@[i], f.children@[i]));
                lemma_patched_holds_no_removed_tag(e.children@[i], f.children@[i]);
            }
        }
    }
}

/// Only the fade rectangle is rewritten: an element that is not removed and
/// has another tag, or another `x:Name`, keeps its attributes as they were.
pub proof fn lemma_fade_brush_selective(a: Node, b: Node)
    requires
        a is Element,
        patched(a, b),
        !is_removed_tag(a->Element_0.name@),
        a->Element_0.name@ != "Rectangle"@ || attribute_value(
            attributes_model(a->Element_0.attributes@),
            "x:Name"@,
        ) != Some("Fade"@),
    ensures
        b is Element,
        attributes_model(b->Element_0.attributes@) == attributes_model(a->Element_0.attributes@),
{
}

/// The serialized text of a document depends on the document alone.
pub proof fn lemma_render_deterministic(a: Seq<Node>, b: Seq<Node>)
    requires
        a == b,
    ensures
        rendered(a) == rendered(b),
{
}

/// Whether the names of `attributes` strictly ascend.
pub fn attributes_ascend(attributes: &Vec<Attribute>) -> (r: bool)
    ensures
        r == names_strictly_ascend(attributes_model(attributes@)),
{
    let ghost m = attributes_model(attributes@);
    let mut i: usize = 0;
    while i < attributes.len()
        invariant
            m == attributes_model(attributes@),
            i <= attributes@.len(),
            forall|a: int, b: int| 0 <= a < i && a < b < m.len() ==> name_less(#[trigger] m[a].0, #[trigger] m[b].0),
        decreases attributes@.len() - i,
    {
        let mut j: usize = i + 1;
        while j < attributes.len()
            invariant
                m == attributes_model(attributes@),
                i < attributes@.len(),
                i + 1 <= j <= attributes@.len(),
                forall|a: int, b: int| 0 <= a < i && a < b < m.len() ==> name_less(#[trigger] m[a].0, #[trigger] m[b].0),
                forall|b: int| i < b < j ==> name_less(m[i as int].0, #[trigger] m[b].0),
            decreases attributes@.len() - j,
        {
            if !name_less_exec(&attributes[i].name, &attributes[j].name) {
                assert(!name_less(m[i as int].0, m[j as int].0));
                return false;
            }
            j = j + 1;
        }
        i = i + 1;
    }
    true
}

/// Whether `nodes` is well formed: in every element, attribute names
/// strictly ascend.
pub fn is_well_formed(nodes: &Vec<Node>) -> (r: bool)
    ensures
        r == well_formed(nodes@),
    decreases nodes,
{
    let mut i: usize = 0;
    while i < nodes.len()
        invariant
            i <= nodes@.len(),
            forall|k: int|
                0 <= k < i ==> match #[trigger] nodes@[k] {
                    Node::Element(e) => names_strictly_ascend(attributes_model(e.attributes@))
                        && well_formed(e.children@),
                    _ => true,
                },
        decreases nodes@.len() - i,
    {
        if let Node::Element(e) = &nodes[i] {
            if !attributes_ascend(&e.attributes) {
                return false;
            }
            proof {
                assert(decreases_to!(nodes => nodes@[i as int]));
            }
            if !is_well_formed(&e.children) {
                return false;
            }
        }
        i = i + 1;
    }
    true
}

/// The value of the first attribute of `attributes` named `name`.
pub fn get_attribute<'a>(attributes: &'a Vec<Attribute>, name: &String) -> (r: Option<&'a String>)
    ensures
        match r {
            Some(v) => attribute_value(attributes_model(attributes@), name@) == Some(v@),
            None => attribute_value(attributes_model(attributes@), name@) is None,
        },
{
    let ghost m = attributes_model(attributes@);
    let mut i: usize = 0;
    assert(m.subrange(0, m.len() as int) =~= m);
    while i < attributes.len()
        invariant
            m == attributes_model(attributes@),
            i <= attributes@.len(),
            attribute_value(m, name@) == attribute_value(m.subrange(i as int, m.len() as int), name@),
        decreases attributes@.len() - i,
    {
        assert(m.subrange(i as int, m.len() as int).drop_first() =~= m.subrange(i + 1, m.len() as int));
        if attributes[i].name == *name {
            return Some(&attributes[i].value);
        }
        i = i + 1;
    }
    None
}

/// Whether `element` is the rectangle that fades the screen.
pub fn is_fade_brush_rectangle(element: &Element) -> (r: bool)
    ensures
        r == is_fade_brush(element.name@, attributes_model(element.attributes@)),
{
    let rectangle = "Rectangle".to_string();
    if element.name != rectangle {
        return false;
    }
    let key = "x:Name".to_string();
    match get_attribute(&element.attributes, &key) {
        Some(value) => {
            let fade = "Fade".to_string();
            *value == fade
        },
        None => false,
    }
}

proof fn lemma_with_attribute_step(m: AttributesModel, name: Seq<char>, value: Seq<char>, i: int)
    requires
        0 <= i < m.len(),
        name_less(m[i].0, name),
    ensures
        with_attribute(m.subrange(i, m.len() as int), name, value) == seq![m[i]] + with_attribute(
            m.subrange(i + 1, m.len() as int),
            name,
            value,
        ),
{
    if m[i].0 == name {
        crate::order::lemma_bytes_less_irreflexive(crate::order::utf8_of(name));
    }
    assert(m.subrange(i, m.len() as int).drop_first() =~= m.subrange(i + 1, m.len() as int));
}

impl Element {
    /// Sets the attribute `name` to `value`: an attribute of that name takes
    /// the value, else a new one goes where the ascending order of names puts it.
    pub fn set_attribute(&mut self, name: String, value: String)
        ensures
            attributes_model(final(self).attributes@) == with_attribute(
                attributes_model(old(self).attributes@),
                name@,
                value@,
            ),
            final(self).name == old(self).name,
            final(self).children == old(self).children,
    {
        let ghost m = attributes_model(self.attributes@);
        let mut p: usize = 0;
        assert(m.subrange(0, m.len() as int) =~= m);
        while p < self.attributes.len() && name_less_exec(&self.attributes[p].name, &name)
            invariant
                m == attributes_model(self.attributes@),
                p <= self.attributes@.len(),
                with_attribute(m, name@, value@) == m.subrange(0, p as int) + with_attribute(
                    m.subrange(p as int, m.len() as int),
                    name@,
                    value@,
                ),
            decreases self.attributes@.len() - p,
        {
            proof {
                lemma_with_attribute_step(m, name@, value@, p as int);
                assert(m.subrange(0, p + 1) =~= m.subrange(0, p as int) + seq![m[p as int]]);
            }
            p = p + 1;
        }
        let ghost tail = m.subrange(p as int, m.len() as int);
        if p < self.attributes.len() && self.attributes[p].name == name {
            assert(tail.drop_first() =~= m.subrange(p + 1, m.len() as int));
            self.attributes.remove(p);
            self.attributes.insert(p, Attribute { name, value });
            assert(attributes_model(self.attributes@) =~= m.subrange(0, p as int) + (seq![
                (name@, value@),
            ] + tail.drop_first()));
        } else {
            let ghost nv = (name@, value@);
            self.attributes.insert(p, Attribute { name, value });
            assert(attributes_model(self.attributes@) =~= m.subrange(0, p as int) + (seq![nv]
                + tail));
        }
    }
}

/// The comment that stands where an element named `name` was.
fn placeholder_comment(name: &String) -> (r: Node)
    ensures
        r is Comment && r->Comment_0@ == placeholder_text(name@),
{
    let mut text = "The mod Reduced UI Animations replaced an element here: ".to_string();
    text.append(name.as_str());
    Node::Comment(text)
}

/// Shrinks the fade rectangle out of sight.
fn rewrite_fade_brush(element: &mut Element)
    ensures
        attributes_model(final(element).attributes@) == rewritten_fade_brush(
            attributes_model(old(element).attributes@),
        ),
        final(element).name == old(element).name,
        final(element).children == old(element).children,
{
    element.set_attribute("Canvas.Left".to_string(), "-1".to_string());
    element.set_attribute("Canvas.Top".to_string(), "-1".to_string());
    element.set_attribute("Fill".to_string(), "Green".to_string());
    element.set_attribute("Height".to_string(), "1".to_string());
    element.set_attribute("Width".to_string(), "1".to_string());
}

/// Applies the patch rules to every node of `nodes` and to their
/// descendants, depth first; the flag tells whether any rule fired.
pub fn patch_xaml_recursively(nodes: Vec<Node>) -> (r: (Vec<Node>, bool))
    ensures
        r.0@.len() == nodes@.len(),
        forall|i: int| 0 <= i < nodes@.len() ==> patched(#[trigger] nodes@[i], r.0@[i]),
        r.1 == exists|i: int| 0 <= i < nodes@.len() && changes(#[trigger] nodes@[i]),
    decreases nodes,
{
    let ghost orig = nodes@;
    let mut rest = nodes;
    let total = rest.len();
    let mut out: Vec<Node> = Vec::new();
    let mut changed = false;
    let mut k: usize = 0;
    while rest.len() > 0
        invariant
            k + rest@.len() == orig.len(),
            total == orig.len(),
            rest@ == orig.subrange(k as int, orig.len() as int),
            out@.len() == k,
            forall|i: int| 0 <= i < k ==> patched(#[trigger] orig[i], out@[i]),
            changed == exists|i: int| 0 <= i < k && changes(#[trigger] orig[i]),
            orig == nodes@,
        decreases rest@.len(),
    {
        let node = rest.remove(0);
        assert(node == orig[k as int]);
        match node {
            Node::Element(e) => {
                if e.name == "local:Age2BlurEffect".to_string() || e.name
                    == "local:Age2SwipeEffect".to_string() {
                    out.push(placeholder_comment(&e.name));
                    changed = true;
                } else {
                    let fade = is_fade_brush_rectangle(&e);
                    let Element { name, attributes, children } = e;
                    let mut element = Element { name, attributes, children: Vec::new() };
                    if fade {
                        rewrite_fade_brush(&mut element);
                    }
                    proof {
                        assert(decreases_to!(nodes => nodes@[k as int]));
                    }
                    let (kids, kids_changed) = patch_xaml_recursively(children);
                    element.children = kids;
                    if fade || kids_changed {
                        changed = true;
                    }
                    out.push(Node::Element(element));
                }
            },
            Node::Text(t) => {
                out.push(Node::Text(t));
            },
            Node::Comment(c) => {
                out.push(Node::Comment(c));
            },
        }
        assert(patched(orig[k as int], out@[k as int]));
        k = k + 1;
    }
    (out, changed)
}

/// Patches a parsed document: `None` when no rule fires anywhere in it, else
/// the patched nodes.
pub fn patch_xaml(nodes: Vec<Node>) -> (r: Option<Vec<Node>>)
    requires
        well_formed(nodes@),
    ensures
        r is None <==> !exists|i: int| 0 <= i < nodes@.len() && changes(#[trigger] nodes@[i]),
        match r {
            Some(out) => out@.len() == nodes@.len() && well_formed(out@) && forall|i: int|
                0 <= i < nodes@.len() ==> patched(#[trigger] nodes@[i], out@[i]),
            None => true,
        },
{
    let ghost before = nodes@;
    let (out, changed) = patch_xaml_recursively(nodes);
    proof {
        lemma_patched_well_formed(before, out@);
    }
    if changed {
        Some(out)
    } else {
        None
    }
}

/// Appends `s` to `out`, escaped.
fn append_escaped(out: &mut String, s: &String)
    ensures
        final(out)@ == old(out)@ + escaped(s@),
{
    let text = s.as_str();
    let n = text.unicode_len();
    let mut i: usize = 0;
    assert(s@.subrange(0, 0) =~= Seq::<char>::empty());
    while i < n
        invariant
            n == s@.len(),
            text@ == s@,
            i <= n,
            out@ == old(out)@ + escaped(s@.subrange(0, i as int)),
        decreases n - i,
    {
        let c = text.get_char(i);
        assert(s@.subrange(0, i + 1).drop_last() =~= s@.subrange(0, i as int));
        assert(s@.subrange(0, i + 1).last() == c);
        if c == '&' {
            out.append("&amp;");
        } else if c == '<' {
            out.append("&lt;");
        } else if c == '"' {
            out.append("&quot;");
        } else {
            let one = text.substring_char(i, i + 1);
            assert(one@ =~= seq![c]);
            out.append(one);
        }
        assert(out@ =~= old(out)@ + escaped(s@.subrange(0, i + 1)));
        i = i + 1;
    }
    assert(s@.subrange(0, n as int) =~= s@);
}

/// Appends the markup text of `nodes` to `out`.
fn render_into(nodes: &Vec<Node>, out: &mut String)
    ensures
        final(out)@ == old(out)@ + rendered(nodes@),
    decreases nodes,
{
    let mut i: usize = 0;
    while i < nodes.len()
        invariant
            i <= nodes@.len(),
            out@ == old(out)@ + rendered(nodes@.subrange(0, i as int)),
        decreases nodes@.len() - i,
    {
        let ghost before = out@;
        assert(nodes@.subrange(0, i + 1).drop_last() =~= nodes@.subrange(0, i as int));
        match &nodes[i] {
            Node::Element(e) => {
                out.append("<");
                out.append(e.name.as_str());
                render_attributes_into(&e.attributes, out);
                out.append(">");
                proof {
                    assert(decreases_to!(nodes => nodes@[i as int]));
                }
                render_into(&e.children, out);
                out.append("</");
                out.append(e.name.as_str());
                out.append(">");
            },
            Node::Text(t) => {
                append_escaped(out, t);
            },
            Node::Comment(c) => {
                out.append("<!--");
                out.append(c.as_str());
                out.append("-->");
            },
        }
        assert(out@ =~= old(out)@ + rendered(nodes@.subrange(0, i + 1)));
        i = i + 1;
    }
    assert(nodes@.subrange(0, nodes@.len() as int) =~= nodes@);
}

/// Appends the markup text of `attributes` to `out`.
fn render_attributes_into(attributes: &Vec<Attribute>, out: &mut String)
    ensures
        final(out)@ == old(out)@ + rendered_attributes(attributes_model(attributes@)),
{
    let ghost m = attributes_model(attributes@);
    let mut i: usize = 0;
    while i < attributes.len()
        invariant
            m == attributes_model(attributes@),
            i <= attributes@.len(),
            out@ == old(out)@ + rendered_attributes(m.subrange(0, i as int)),
        decreases attributes@.len() - i,
    {
        assert(m.subrange(0, i + 1).drop_last() =~= m.subrange(0, i as int));
        out.append(" ");
        out.append(attributes[i].name.as_str());
        out.append("=\"");
        append_escaped(out, &attributes[i].value);
        out.append("\"");
        assert(out@ =~= old(out)@ + rendered_attributes(m.subrange(0, i + 1)));
        i = i + 1;
    }
    assert(m.subrange(0, m.len() as int) =~= m);
}

/// The markup text of a well-formed document, whose attributes therefore
/// come in ascending order of their names.
pub fn xml_to_string(nodes: &Vec<Node>) -> (r: String)
    requires
        well_formed(nodes@),
    ensures
        r@ == rendered(nodes@),
{
    let mut out = String::new();
    render_into(nodes, &mut out);
    out
}

/// What patching one parsed file gives: the document must be well formed;
/// then `None` when no rule fires, else the UTF-8 bytes of its patched text.
pub open spec fn file_outcome(document: Seq<Node>) -> Result<Option<Seq<u8>>, PatchError> {
    if !well_formed(document) {
        Err(PatchError::AttributesOutOfOrder)
    } else if exists|i: int| 0 <= i < document.len() && changes(#[trigger] document[i]) {
        Ok(Some(vstd::utf8::encode_utf8(rendered_patched(document))))
    } else {
        Ok(None)
    }
}

/// Patching is deterministic: identical documents give identical bytes.
pub proof fn lemma_patch_deterministic(a: Seq<Node>, b: Seq<Node>)
    requires
        a == b,
    ensures
        file_outcome(a) == file_outcome(b),
{
}

/// Patches one parsed file with the structural engine and prints it again:
/// `Ok(None)` when no rule fires anywhere in it, else its patched bytes.
pub fn modify_xaml_file(document: Vec<Node>) -> (r: Result<Option<Vec<u8>>, PatchError>)
    ensures
        outcome_model(r) == file_outcome(document@),
{
    if !is_well_formed(&document) {
        return Err(PatchError::AttributesOutOfOrder);
    }
    let ghost d = document@;
    match patch_xaml(document) {
        None => Ok(None),
        Some(out) => {
            let text = xml_to_string(&out);
            proof {
                lemma_rendered_patched(d, out@);
            }
            Ok(Some(vstd::slice::slice_to_vec(text.as_str().as_bytes())))
        },
    }
}

} // verus!
