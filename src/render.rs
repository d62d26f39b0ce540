//! Writing a tree out as markup, indented or compressed.
use vstd::prelude::*;
use crate::attributes::{
    Attribute, AttributeValue, merge_attributes_of_same_name, merge_function_call_values,
    merge_plain_attributes_values, merge_styles_attributes_values, function_call_parts, group_of,
    groups_of, join, merged_groups, merged_styles, merged_text, plain_parts,
};
use crate::node::{
    Element, Node, children_count, children_fit, element_count, element_fits, node_count,
    node_fits,
};

verus! {

/// The name of the attribute whose function-call values are spliced into the
/// element's body as raw markup.
pub open spec fn inner_html_name() -> Seq<char> {
    seq!['i', 'n', 'n', 'e', 'r', '_', 'h', 't', 'm', 'l']
}

/// `4 * level` spaces.
pub open spec fn spaces(level: nat) -> Seq<char> {
    Seq::new(4 * level, |i: int| ' ')
}

/// `name="text"`.
pub open spec fn name_value(name: Seq<char>, text: Seq<char>) -> Seq<char> {
    name + seq!['=', '"'] + text + seq!['"']
}

/// One attribute written out: `name="..."` with its merged plain values, then
/// `name="..."` with its merged style declarations, each only where there is
/// such a value.
pub open spec fn attribute_text(g: (Seq<char>, Seq<AttributeValue>)) -> Seq<char> {
    (match merged_text(plain_parts(g.1)) {
        Some(p) => name_value(g.0, p),
        None => Seq::empty(),
    }) + (match merged_styles(g.1) {
        Some(st) => name_value(g.0, st),
        None => Seq::empty(),
    })
}

/// The attributes of an opening tag: a space and the attribute's text for each
/// attribute whose name is not empty.
pub open spec fn attributes_text(groups: Seq<(Seq<char>, Seq<AttributeValue>)>) -> Seq<char>
    decreases groups.len(),
{
    if groups.len() == 0 {
        Seq::empty()
    } else {
        let g = groups.last();
        attributes_text(groups.drop_last()) + if g.0.len() > 0 {
            seq![' '] + attribute_text(g)
        } else {
            Seq::empty()
        }
    }
}

/// The raw-markup fragments: for each attribute named `inner_html` with
/// function-call values, those values joined by a space.
pub open spec fn inner_html_parts(groups: Seq<(Seq<char>, Seq<AttributeValue>)>) -> Seq<Seq<char>>
    decreases groups.len(),
{
    if groups.len() == 0 {
        Seq::empty()
    } else {
        let rest = inner_html_parts(groups.drop_last());
        let g = groups.last();
        if g.0 == inner_html_name() && function_call_parts(g.1).len() > 0 {
            rest.push(join(function_call_parts(g.1), seq![' ']))
        } else {
            rest
        }
    }
}

/// The raw markup of an element: its fragments joined by a space.
pub open spec fn inner_html_text(groups: Seq<(Seq<char>, Seq<AttributeValue>)>) -> Seq<char> {
    join(inner_html_parts(groups), seq![' '])
}

/// Whether the children are exactly one text node.
pub open spec fn is_lone_text(children: Seq<Node>) -> bool {
    children.len() == 1 && children[0] is Text
}

/// The markup of the tree rooted at `n`, placed at indentation level `level`.
pub open spec fn render_node(n: Node, level: nat, compressed: bool) -> Seq<char>
    decreases n,
{
    match n {
        Node::Text(t) => t@,
        Node::Element(e) => render_element(e, level, compressed),
    }
}

/// The markup of the tree rooted at `e`, placed at indentation level `level`.
pub open spec fn render_element(e: Element, level: nat, compressed: bool) -> Seq<char>
    decreases e,
{
    let groups = merged_groups(e.attrs@);
    let lone = is_lone_text(e.children@);
    seq!['<'] + e.tag@ + attributes_text(groups) + (if e.self_closing {
        seq!['/', '>']
    } else {
        seq!['>']
    }) + (if lone {
        render_node(e.children@[0], level, compressed)
    } else {
        render_children(e.children@, level, compressed)
    }) + (if !lone && e.children@.len() > 0 && !compressed {
        seq!['\n'] + spaces(level)
    } else {
        Seq::empty()
    }) + inner_html_text(groups) + (if e.self_closing {
        Seq::empty()
    } else {
        seq!['<', '/'] + e.tag@ + seq!['>']
    })
}

/// The children of an element at level `level`, each on a line of its own
/// indented one level deeper, or one after the other when compressed.
pub open spec fn render_children(s: Seq<Node>, level: nat, compressed: bool) -> Seq<char>
    decreases s,
{
    if s.len() == 0 {
        Seq::empty()
    } else {
        render_children(s.subrange(0, s.len() - 1), level, compressed) + (if compressed {
            Seq::empty()
        } else {
            seq!['\n'] + spaces(level + 1)
        }) + render_node(s[s.len() - 1], level + 1, compressed)
    }
}

/// The counter after `n` more nodes were visited; `None` stays `None`.
pub open spec fn advance(o: Option<usize>, n: nat) -> Option<usize> {
    match o {
        Some(k) => Some((k + n) as usize),
        None => None,
    }
}

proof fn lemma_children_fit_each(s: Seq<Node>, level: nat)
    requires
        children_fit(s, level),
    ensures
        forall|i: int| 0 <= i < s.len() ==> node_fits(#[trigger] s[i], level),
    decreases s.len(),
{
    if s.len() > 0 {
        let p = s.subrange(0, s.len() - 1);
        lemma_children_fit_each(p, level);
        assert forall|i: int| 0 <= i < s.len() implies node_fits(#[trigger] s[i], level) by {
            if i < s.len() - 1 {
                assert(s[i] == p[i]);
            }
        }
    }
}

proof fn lemma_children_count_prefix(s: Seq<Node>, i: int)
    requires
        0 <= i <= s.len(),
    ensures
        children_count(s.subrange(0, i)) <= children_count(s),
    decreases s.len(),
{
    if i == s.len() {
        assert(s.subrange(0, i) =~= s);
    } else {
        let p = s.subrange(0, s.len() - 1);
        lemma_children_count_prefix(p, i);
        assert(p.subrange(0, i) =~= s.subrange(0, i));
    }
}

/// Adds one to the counter, if there is one.
fn bump(node_idx: &mut Option<usize>)
    requires
        *old(node_idx) is Some ==> (*old(node_idx))->0 < usize::MAX,
    ensures
        *final(node_idx) == advance(*old(node_idx), 1),
{
    match *node_idx {
        Some(k) => {
            *node_idx = Some(k + 1);
        },
        None => {},
    }
}

/// Appends `4 * level` spaces.
fn write_spaces(buffer: &mut String, level: usize)
    ensures
        final(buffer)@ == old(buffer)@ + spaces(level as nat),
{
    let mut i: usize = 0;
    while i < level
        invariant
            i <= level,
            buffer@ == old(buffer)@ + spaces(i as nat),
        decreases level - i,
    {
        proof {
            reveal_strlit("    ");
        }
        buffer.append("    ");
        proof {
            assert(spaces(i as nat) + "    "@ =~= spaces((i + 1) as nat));
        }
        i = i + 1;
    }
    proof {
        assert(old(buffer)@ + spaces(i as nat) =~= old(buffer)@ + spaces(level as nat));
    }
}

/// Appends `name="text"`.
fn write_name_value(buffer: &mut String, name: &String, text: &String)
    ensures
        final(buffer)@ == old(buffer)@ + name_value(name@, text@),
{
    proof {
        reveal_strlit("=\"");
        reveal_strlit("\"");
    }
    buffer.append(name.as_str());
    buffer.append("=\"");
    buffer.append(text.as_str());
    buffer.append("\"");
    proof {
        assert(final(buffer)@ =~= old(buffer)@ + name_value(name@, text@));
    }
}

/// Appends one attribute: its merged plain values, then its merged styles.
fn write_attribute(a: &Attribute, buffer: &mut String)
    ensures
        final(buffer)@ == old(buffer)@ + attribute_text(group_of(*a)),
{
    let plain = merge_plain_attributes_values(&a.value);
    match &plain {
        Some(p) => write_name_value(buffer, &a.name, p),
        None => {},
    }
    let styles = merge_styles_attributes_values(&a.value);
    match &styles {
        Some(st) => write_name_value(buffer, &a.name, st),
        None => {},
    }
    proof {
        assert(final(buffer)@ =~= old(buffer)@ + attribute_text(group_of(*a)));
    }
}

/// Appends the attributes of an opening tag, each after a space, leaving out
/// those with an empty name.
fn write_attributes(merged: &Vec<Attribute>, buffer: &mut String)
    ensures
        final(buffer)@ == old(buffer)@ + attributes_text(groups_of(merged@)),
{
    let ghost groups = groups_of(merged@);
    let mut i: usize = 0;
    while i < merged.len()
        invariant
            i <= merged@.len(),
            groups == groups_of(merged@),
            buffer@ == old(buffer)@ + attributes_text(groups.subrange(0, i as int)),
        decreases merged@.len() - i,
    {
        proof {
            assert(groups.subrange(0, i + 1).drop_last() =~= groups.subrange(0, i as int));
            assert(groups.subrange(0, i + 1).last() == group_of(merged@[i as int]));
        }
        if merged[i].name.as_str().unicode_len() > 0 {
            proof {
                reveal_strlit(" ");
            }
            buffer.append(" ");
            write_attribute(&merged[i], buffer);
        }
        proof {
            assert(buffer@ =~= old(buffer)@ + attributes_text(groups.subrange(0, i + 1)));
        }
        i = i + 1;
    }
    proof {
        assert(groups.subrange(0, merged@.len() as int) =~= groups);
    }
}

/// The raw markup of an element from its merged attributes: the function-call
/// values of each attribute named `inner_html`, joined by a space.
pub fn extract_inner_html(merged_attributes: &Vec<Attribute>) -> (r: String)
    ensures
        r@ == inner_html_text(groups_of(merged_attributes@)),
{
    let ghost groups = groups_of(merged_attributes@);
    proof {
        reveal_strlit("inner_html");
        assert("inner_html"@ =~= inner_html_name());
    }
    let key = String::from_str("inner_html");
    let mut out = String::new();
    let mut found = false;
    let mut i: usize = 0;
    while i < merged_attributes.len()
        invariant
            i <= merged_attributes@.len(),
            groups == groups_of(merged_attributes@),
            key@ == inner_html_name(),
            found == (inner_html_parts(groups.subrange(0, i as int)).len() > 0),
            out@ == join(inner_html_parts(groups.subrange(0, i as int)), seq![' ']),
        decreases merged_attributes@.len() - i,
    {
        proof {
            assert(groups.subrange(0, i + 1).drop_last() =~= groups.subrange(0, i as int));
            assert(groups.subrange(0, i + 1).last() == group_of(merged_attributes@[i as int]));
        }
        let attr = &merged_attributes[i];
        if attr.name == key {
            let values = merge_function_call_values(&attr.value);
            match &values {
                Some(v) => {
                    if found {
                        proof {
                            reveal_strlit(" ");
                        }
                        out.append(" ");
                    }
                    out.append(v.as_str());
                    found = true;
                    proof {
                        let parts = inner_html_parts(groups.subrange(0, i as int));
                        assert(parts.push(v@).drop_last() =~= parts);
                    }
                },
                None => {},
            }
        }
        i = i + 1;
    }
    proof {
        assert(groups.subrange(0, merged_attributes@.len() as int) =~= groups);
    }
    out
}

/// Appends the markup of the tree rooted at `n`, placed at level `level`, and
/// counts its nodes.
fn write_node(
    n: &Node,
    buffer: &mut String,
    level: usize,
    node_idx: &mut Option<usize>,
    compressed: bool,
)
    requires
        node_fits(*n, level as nat),
        *old(node_idx) is Some ==> (*old(node_idx))->0 + node_count(*n) <= usize::MAX,
    ensures
        final(buffer)@ == old(buffer)@ + render_node(*n, level as nat, compressed),
        *final(node_idx) == advance(*old(node_idx), node_count(*n)),
    decreases n,
{
    match n {
        Node::Text(t) => {
            bump(node_idx);
            buffer.append(t.as_str());
        },
        Node::Element(e) => write_element(e, buffer, level, node_idx, compressed),
    }
}

/// Appends the markup of the tree rooted at `e`, placed at level `level`, and
/// counts its nodes.
#[verifier::rlimit(60)]
fn write_element(
    e: &Element,
    buffer: &mut String,
    level: usize,
    node_idx: &mut Option<usize>,
    compressed: bool,
)
    requires
        element_fits(*e, level as nat),
        *old(node_idx) is Some ==> (*old(node_idx))->0 + element_count(*e) <= usize::MAX,
    ensures
        final(buffer)@ == old(buffer)@ + render_element(*e, level as nat, compressed),
        *final(node_idx) == advance(*old(node_idx), element_count(*e)),
    decreases e,
{
    proof {
        reveal_strlit("<");
        reveal_strlit(">");
        reveal_strlit("/>");
        reveal_strlit("</");
        reveal_strlit("\n");
        assert("\n"@ =~= seq!['\n']);
        assert("<"@ =~= seq!['<']);
        assert(">"@ =~= seq!['>']);
        assert("/>"@ =~= seq!['/', '>']);
        assert("</"@ =~= seq!['<', '/']);
    }
    let ghost groups = merged_groups(e.attrs@);
    let ghost lone = is_lone_text(e.children@);
    bump(node_idx);
    let ghost b0 = buffer@;
    buffer.append("<");
    buffer.append(e.tag.as_str());
    let merged = merge_attributes_of_same_name(&e.attrs);
    write_attributes(&merged, buffer);
    if e.self_closing {
        buffer.append("/>");
    } else {
        buffer.append(">");
    }
    let ghost open_part = seq!['<'] + e.tag@ + attributes_text(groups) + (if e.self_closing {
        seq!['/', '>']
    } else {
        seq!['>']
    });
    assert(buffer@ =~= b0 + open_part);
    let ghost b1 = buffer@;
    let is_lone_child_text_node = e.children.len() == 1 && e.children[0].is_text();
    if is_lone_child_text_node {
        proof {
            assert(e.children@.subrange(0, 0) =~= Seq::<Node>::empty());
            assert(children_count(e.children@) == children_count(e.children@.subrange(0, 0))
                + node_count(e.children@[0]));
        }
        write_node(&e.children[0], buffer, level, node_idx, compressed);
    } else if e.children.len() > 0 {
        write_children(&e.children, buffer, level, node_idx, compressed);
    } else {
        proof {
            assert(e.children@ =~= Seq::<Node>::empty());
        }
    }
    let ghost children_part = if lone {
        render_node(e.children@[0], level as nat, compressed)
    } else {
        render_children(e.children@, level as nat, compressed)
    };
    assert(buffer@ == b1 + children_part);
    let ghost b2 = buffer@;
    if !is_lone_child_text_node && e.children.len() > 0 && !compressed {
        buffer.append("\n");
        write_spaces(buffer, level);
    }
    let ghost closing_ws = if !lone && e.children@.len() > 0 && !compressed {
        seq!['\n'] + spaces(level as nat)
    } else {
        Seq::empty()
    };
    assert(buffer@ =~= b2 + closing_ws);
    let inner_html = extract_inner_html(&merged);
    buffer.append(inner_html.as_str());
    let ghost b4 = buffer@;
    if !e.self_closing {
        buffer.append("</");
        buffer.append(e.tag.as_str());
        buffer.append(">");
    }
    let ghost close_tag = if e.self_closing {
        Seq::empty()
    } else {
        seq!['<', '/'] + e.tag@ + seq!['>']
    };
    assert(buffer@ =~= b4 + close_tag);
    proof {
        assert(render_element(*e, level as nat, compressed) == open_part + children_part
            + closing_ws + inner_html_text(groups) + close_tag);
        assert(final(buffer)@ =~= old(buffer)@ + render_element(*e, level as nat, compressed));
    }
}

/// Appends the children of an element placed at level `level`, each after a
/// line break and its indentation unless compressed, and counts their nodes.
fn write_children(
    children: &Vec<Node>,
    buffer: &mut String,
    level: usize,
    node_idx: &mut Option<usize>,
    compressed: bool,
)
    requires
        level + 1 <= usize::MAX,
        children_fit(children@, level as nat + 1),
        *old(node_idx) is Some ==> (*old(node_idx))->0 + children_count(children@) <= usize::MAX,
    ensures
        final(buffer)@ == old(buffer)@ + render_children(children@, level as nat, compressed),
        *final(node_idx) == advance(*old(node_idx), children_count(children@)),
    decreases children,
{
    proof {
        reveal_strlit("\n");
        assert("\n"@ =~= seq!['\n']);
        lemma_children_fit_each(children@, level as nat + 1);
        assert(children@.subrange(0, 0) =~= Seq::<Node>::empty());
    }
    let mut i: usize = 0;
    while i < children.len()
        invariant
            i <= children@.len(),
            level + 1 <= usize::MAX,
            forall|j: int| 0 <= j < children@.len() ==> node_fits(#[trigger] children@[j], level as nat + 1),
            *old(node_idx) is Some ==> (*old(node_idx))->0 + children_count(children@) <= usize::MAX,
            buffer@ == old(buffer)@ + render_children(
                children@.subrange(0, i as int),
                level as nat,
                compressed,
            ),
            *node_idx == advance(*old(node_idx), children_count(children@.subrange(0, i as int))),
        decreases children@.len() - i,
    {
        let ghost sub = children@.subrange(0, i + 1);
        let ghost sep = if compressed {
            Seq::<char>::empty()
        } else {
            seq!['\n'] + spaces(level as nat + 1)
        };
        proof {
            reveal_strlit("\n");
            assert("\n"@ =~= seq!['\n']);
            assert(sub.subrange(0, i as int) =~= children@.subrange(0, i as int));
            assert(sub[i as int] == children@[i as int]);
            lemma_children_count_prefix(children@, i + 1);
            assert(render_children(sub, level as nat, compressed) == render_children(
                children@.subrange(0, i as int),
                level as nat,
                compressed,
            ) + sep + render_node(children@[i as int], level as nat + 1, compressed));
        }
        let ghost before = buffer@;
        if !compressed {
            buffer.append("\n");
            write_spaces(buffer, level + 1);
        }
        assert(buffer@ =~= before + sep);
        write_node(&children[i], buffer, level + 1, node_idx, compressed);
        proof {
            assert(buffer@ =~= old(buffer)@ + render_children(sub, level as nat, compressed));
        }
        i = i + 1;
    }
    proof {
        assert(children@.subrange(0, children@.len() as int) =~= children@);
    }
}

/// Rendering into a string buffer, indented or compressed.
pub trait Render {
    /// The markup of this value placed at indentation level `level`.
    spec fn rendered(&self, level: nat, compressed: bool) -> Seq<char>;

    /// The number of nodes that rendering visits.
    spec fn nodes(&self) -> nat;

    /// Whether, placed at level `level`, every level of indentation it needs
    /// stays within `usize`.
    spec fn fits(&self, level: nat) -> bool;

    /// Appends the markup of this value placed at level `indent`; `node_idx`,
    /// when present, is advanced once per node visited.
    fn render_with_indent(
        &self,
        buffer: &mut String,
        indent: usize,
        node_idx: &mut Option<usize>,
        compressed: bool,
    )
        requires
            self.fits(indent as nat),
            *old(node_idx) is Some ==> (*old(node_idx))->0 + self.nodes() <= usize::MAX,
        ensures
            final(buffer)@ == old(buffer)@ + self.rendered(indent as nat, compressed),
            *final(node_idx) == advance(*old(node_idx), self.nodes()),
    ;

    /// Appends the markup with each child on a line of its own, indented.
    fn render(&self, buffer: &mut String)
        requires
            self.fits(0),
            self.nodes() <= usize::MAX,
        ensures
            final(buffer)@ == old(buffer)@ + self.rendered(0, false),
    {
        let mut node_idx: Option<usize> = Some(0);
        self.render_with_indent(buffer, 0, &mut node_idx, false);
    }

    /// Appends the markup with no line break and no indentation.
    fn render_compressed(&self, buffer: &mut String)
        requires
            self.fits(0),
            self.nodes() <= usize::MAX,
        ensures
            final(buffer)@ == old(buffer)@ + self.rendered(0, true),
    {
        let mut node_idx: Option<usize> = Some(0);
        self.render_with_indent(buffer, 0, &mut node_idx, true);
    }

    /// The compressed markup.
    fn render_to_string(&self) -> (r: String)
        requires
            self.fits(0),
            self.nodes() <= usize::MAX,
        ensures
            r@ == self.rendered(0, true),
    {
        let mut buffer = String::new();
        self.render_compressed(&mut buffer);
        buffer
    }

    /// The indented markup.
    fn render_to_string_pretty(&self) -> (r: String)
        requires
            self.fits(0),
            self.nodes() <= usize::MAX,
        ensures
            r@ == self.rendered(0, false),
    {
        let mut buffer = String::new();
        self.render(&mut buffer);
        buffer
    }
}

impl Render for Node {
    open spec fn rendered(&self, level: nat, compressed: bool) -> Seq<char> {
        render_node(*self, level, compressed)
    }

    open spec fn nodes(&self) -> nat {
        node_count(*self)
    }

    open spec fn fits(&self, level: nat) -> bool {
        node_fits(*self, level)
    }

    fn render_with_indent(
        &self,
        buffer: &mut String,
        indent: usize,
        node_idx: &mut Option<usize>,
        compressed: bool,
    ) {
        write_node(self, buffer, indent, node_idx, compressed);
    }
}

impl Render for Element {
    open spec fn rendered(&self, level: nat, compressed: bool) -> Seq<char> {
        render_element(*self, level, compressed)
    }

    open spec fn nodes(&self) -> nat {
        element_count(*self)
    }

    open spec fn fits(&self, level: nat) -> bool {
        element_fits(*self, level)
    }

    fn render_with_indent(
        &self,
        buffer: &mut String,
        indent: usize,
        node_idx: &mut Option<usize>,
        compressed: bool,
    ) {
        write_element(self, buffer, indent, node_idx, compressed);
    }
}

impl Render for Attribute {
    open spec fn rendered(&self, level: nat, compressed: bool) -> Seq<char> {
        attribute_text(group_of(*self))
    }

    open spec fn nodes(&self) -> nat {
        0
    }

    open spec fn fits(&self, level: nat) -> bool {
        true
    }

    fn render_with_indent(
        &self,
        buffer: &mut String,
        indent: usize,
        node_idx: &mut Option<usize>,
        compressed: bool,
    ) {
        write_attribute(self, buffer);
        proof {
            assert(advance(*node_idx, 0) == *node_idx);
        }
    }
}

} // verus!
