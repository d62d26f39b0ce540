//! Laws of attribute merging and of rendering.
use vstd::prelude::*;
use crate::attributes::{
    Attribute, AttributeValue, first_index_of, group_of, merge_into, merged_groups,
};
use crate::node::{Element, Node};
use crate::render::{
    attributes_text, inner_html_name, inner_html_parts, inner_html_text, is_lone_text,
    render_children, render_element, render_node, spaces,
};

verus! {

/// The values of the attributes named `name`, in order.
pub open spec fn values_named(attrs: Seq<Attribute>, name: Seq<char>) -> Seq<AttributeValue>
    decreases attrs.len(),
{
    if attrs.len() == 0 {
        Seq::empty()
    } else {
        values_named(attrs.drop_last(), name) + if attrs.last().name@ == name {
            attrs.last().value@
        } else {
            Seq::empty()
        }
    }
}

/// `first_index_of` finds the first group of the name, or reports that there
/// is none.
pub proof fn lemma_first_index_of(groups: Seq<(Seq<char>, Seq<AttributeValue>)>, name: Seq<char>)
    ensures
        first_index_of(groups, name) >= 0 ==> {
            let r = first_index_of(groups, name);
            &&& r < groups.len()
            &&& groups[r].0 == name
            &&& forall|j: int| 0 <= j < r ==> groups[j].0 != name
        },
        first_index_of(groups, name) < 0 ==> forall|j: int|
            0 <= j < groups.len() ==> groups[j].0 != name,
    decreases groups.len(),
{
    if groups.len() > 0 {
        let p = groups.drop_last();
        lemma_first_index_of(p, name);
        assert forall|j: int| 0 <= j < p.len() implies p[j] == groups[j] by {}
    }
}

proof fn lemma_values_named_absent(attrs: Seq<Attribute>, name: Seq<char>)
    requires
        forall|k: int| 0 <= k < attrs.len() ==> attrs[k].name@ != name,
    ensures
        values_named(attrs, name) == Seq::<AttributeValue>::empty(),
    decreases attrs.len(),
{
    if attrs.len() > 0 {
        let p = attrs.drop_last();
        assert forall|k: int| 0 <= k < p.len() implies p[k].name@ != name by {
            assert(p[k] == attrs[k]);
        }
        lemma_values_named_absent(p, name);
        assert(values_named(attrs, name) =~= Seq::<AttributeValue>::empty());
    }
}

/// Merging attributes by name gives one group per distinct name, every name
/// among the attributes has its group, and the values of a group are those of
/// all the attributes of that name, in the order in which they were declared.
pub proof fn lemma_merged_groups(attrs: Seq<Attribute>)
    ensures
        forall|i: int, j: int|
            0 <= i < j < merged_groups(attrs).len() ==> merged_groups(attrs)[i].0
                != merged_groups(attrs)[j].0,
        forall|i: int|
            0 <= i < merged_groups(attrs).len() ==> #[trigger] merged_groups(attrs)[i].1
                == values_named(attrs, merged_groups(attrs)[i].0),
        forall|k: int|
            0 <= k < attrs.len() ==> first_index_of(merged_groups(attrs), #[trigger] attrs[k].name@)
                >= 0,
    decreases attrs.len(),
{
    if attrs.len() > 0 {
        let p = attrs.drop_last();
        let a = attrs.last();
        let g = merged_groups(p);
        lemma_merged_groups(p);
        lemma_first_index_of(g, a.name@);
        let idx = first_index_of(g, a.name@);
        let r = merged_groups(attrs);
        assert(r == merge_into(g, group_of(a)));
        if idx < 0 {
            assert forall|k: int| 0 <= k < p.len() implies p[k].name@ != a.name@ by {
                lemma_first_index_of(g, p[k].name@);
            }
            lemma_values_named_absent(p, a.name@);
            assert(r[r.len() - 1].1 =~= values_named(attrs, a.name@));
            assert forall|i: int| 0 <= i < r.len() implies #[trigger] r[i].1 == values_named(
                attrs,
                r[i].0,
            ) by {
                if i < g.len() {
                    assert(r[i] == g[i]);
                    assert(values_named(attrs, r[i].0) =~= values_named(p, r[i].0));
                }
            }
        } else {
            assert forall|i: int| 0 <= i < r.len() implies #[trigger] r[i].1 == values_named(
                attrs,
                r[i].0,
            ) by {
                if i == idx {
                    assert(r[i].1 =~= values_named(attrs, r[i].0));
                } else {
                    assert(r[i] == g[i]);
                    assert(values_named(attrs, r[i].0) =~= values_named(p, r[i].0));
                }
            }
        }
        assert forall|k: int| 0 <= k < attrs.len() implies first_index_of(r, #[trigger] attrs[k].name@)
            >= 0 by {
            let n = attrs[k].name@;
            lemma_first_index_of(r, n);
            if k < p.len() {
                assert(p[k] == attrs[k]);
                lemma_first_index_of(g, n);
                let gi = first_index_of(g, n);
                assert(r[gi].0 == n);
            } else {
                if idx < 0 {
                    assert(r[r.len() - 1].0 == n);
                } else {
                    assert(r[idx].0 == n);
                }
            }
        }
    }
}

proof fn lemma_attributes_text_unnamed_update(
    groups: Seq<(Seq<char>, Seq<AttributeValue>)>,
    i: int,
    vs: Seq<AttributeValue>,
)
    requires
        0 <= i < groups.len(),
        groups[i].0.len() == 0,
    ensures
        attributes_text(groups.update(i, (groups[i].0, vs))) == attributes_text(groups),
        inner_html_parts(groups.update(i, (groups[i].0, vs))) == inner_html_parts(groups),
    decreases groups.len(),
{
    let u = groups.update(i, (groups[i].0, vs));
    assert(inner_html_name().len() == 10);
    if i < groups.len() - 1 {
        lemma_attributes_text_unnamed_update(groups.drop_last(), i, vs);
        assert(u.drop_last() =~= groups.drop_last().update(i, (groups[i].0, vs)));
    } else {
        assert(u.drop_last() =~= groups.drop_last());
    }
}

/// An attribute whose name is empty is never written: adding one to an
/// element leaves its markup unchanged.
pub proof fn lemma_unnamed_attribute_not_written(
    e: Element,
    with_unnamed: Element,
    a: Attribute,
    level: nat,
    compressed: bool,
)
    requires
        a.name@.len() == 0,
        with_unnamed.attrs@ == e.attrs@.push(a),
        with_unnamed.tag == e.tag,
        with_unnamed.children == e.children,
        with_unnamed.self_closing == e.self_closing,
    ensures
        render_element(with_unnamed, level, compressed) == render_element(e, level, compressed),
{
    let g = merged_groups(e.attrs@);
    assert(with_unnamed.attrs@.drop_last() =~= e.attrs@);
    lemma_first_index_of(g, a.name@);
    let idx = first_index_of(g, a.name@);
    assert(inner_html_name().len() == 10);
    if idx >= 0 {
        lemma_attributes_text_unnamed_update(g, idx, g[idx].1 + a.value@);
    } else {
        assert(g.push(group_of(a)).drop_last() =~= g);
    }
}

/// The opening tag of an element: `<tag`, its attributes, then `>`, or `/>`
/// where it closes itself.
pub open spec fn open_tag(e: Element) -> Seq<char> {
    seq!['<'] + e.tag@ + attributes_text(merged_groups(e.attrs@)) + if e.self_closing {
        seq!['/', '>']
    } else {
        seq!['>']
    }
}

/// The closing tag of an element, empty where it closes itself.
pub open spec fn close_tag(e: Element) -> Seq<char> {
    if e.self_closing {
        Seq::empty()
    } else {
        seq!['<', '/'] + e.tag@ + seq!['>']
    }
}

/// An element whose only child is a text node is written with the text right
/// after the opening tag and nothing around it, the same at every level and
/// in both modes; so two such elements side by side, compressed, have nothing
/// between the closing tag of the first and the opening tag of the second.
pub proof fn lemma_adjacent_inline_elements(a: Element, b: Element, level: nat)
    requires
        is_lone_text(a.children@),
        is_lone_text(b.children@),
    ensures
        forall|l: nat, c: bool|
            #[trigger] render_element(a, l, c) == open_tag(a) + a.children@[0]->Text_0@
                + inner_html_text(merged_groups(a.attrs@)) + close_tag(a),
        render_children(seq![Node::Element(a), Node::Element(b)], level, true) == render_element(
            a,
            level + 1,
            true,
        ) + render_element(b, level + 1, true),
        render_element(b, level + 1, true)[0] == '<',
{
    assert forall|l: nat, c: bool|
        #[trigger] render_element(a, l, c) == open_tag(a) + a.children@[0]->Text_0@
            + inner_html_text(merged_groups(a.attrs@)) + close_tag(a) by {
        assert(render_element(a, l, c) =~= open_tag(a) + a.children@[0]->Text_0@
            + inner_html_text(merged_groups(a.attrs@)) + close_tag(a));
    }
    let s = seq![Node::Element(a), Node::Element(b)];
    assert(s.subrange(0, 1).subrange(0, 0) =~= Seq::<Node>::empty());
    assert(s.subrange(0, 1) =~= seq![Node::Element(a)]);
    let t = s.subrange(0, 1);
    assert(t.subrange(0, 0) =~= Seq::<Node>::empty());
    assert(render_children(t.subrange(0, 0), level, true) == Seq::<char>::empty());
    assert(t[0] == Node::Element(a));
    assert(render_children(t, level, true) == render_children(t.subrange(0, 0), level, true)
        + Seq::<char>::empty() + render_node(t[0], level + 1, true));
    assert(render_children(s.subrange(0, 1), level, true) =~= render_node(
        Node::Element(a),
        level + 1,
        true,
    ));
    assert(render_children(s, level, true) =~= render_children(s.subrange(0, 1), level, true)
        + render_node(Node::Element(b), level + 1, true));
    assert(render_children(s, level, true) =~= render_element(a, level + 1, true)
        + render_element(b, level + 1, true));
}

proof fn lemma_children_prefix(s: Seq<Node>, k: int, level: nat, compressed: bool)
    requires
        0 <= k <= s.len(),
    ensures
        render_children(s.subrange(0, k), level, compressed).is_prefix_of(
            render_children(s, level, compressed),
        ),
    decreases s.len(),
{
    if k == s.len() {
        assert(s.subrange(0, k) =~= s);
    } else {
        let p = s.subrange(0, s.len() - 1);
        lemma_children_prefix(p, k, level, compressed);
        assert(p.subrange(0, k) =~= s.subrange(0, k));
    }
}

/// In pretty mode, an element whose children are not a lone text node writes
/// each child after a line break and `4 * (level + 1)` spaces, and its closing
/// part after a line break and `4 * level` spaces.
pub proof fn lemma_pretty_indentation(e: Element, level: nat, i: int)
    requires
        !is_lone_text(e.children@),
        0 <= i < e.children@.len(),
    ensures
        spaces(level + 1).len() == 4 * (level + 1),
        forall|j: int| 0 <= j < spaces(level + 1).len() ==> #[trigger] spaces(level + 1)[j] == ' ',
        (open_tag(e) + render_children(e.children@.subrange(0, i), level, false) + seq!['\n']
            + spaces(level + 1) + render_node(e.children@[i], level + 1, false)).is_prefix_of(
            render_element(e, level, false),
        ),
        render_element(e, level, false) == open_tag(e) + render_children(e.children@, level, false)
            + seq!['\n'] + spaces(level) + inner_html_text(merged_groups(e.attrs@)) + close_tag(e),
{
    let s = e.children@;
    let sub = s.subrange(0, i + 1);
    lemma_children_prefix(s, i + 1, level, false);
    assert(sub.subrange(0, i) =~= s.subrange(0, i));
    assert(render_children(sub, level, false) == render_children(s.subrange(0, i), level, false)
        + seq!['\n'] + spaces(level + 1) + render_node(s[i], level + 1, false));
    assert(render_element(e, level, false) =~= open_tag(e) + render_children(s, level, false)
        + seq!['\n'] + spaces(level) + inner_html_text(merged_groups(e.attrs@)) + close_tag(e));
    let whole = render_element(e, level, false);
    let pre = open_tag(e) + render_children(sub, level, false);
    assert(pre =~= whole.subrange(0, pre.len() as int));
    assert(open_tag(e) + render_children(s.subrange(0, i), level, false) + seq!['\n'] + spaces(
        level + 1,
    ) + render_node(s[i], level + 1, false) =~= pre);
}

/// No character of `s` is `c`.
pub open spec fn lacks(s: Seq<char>, c: char) -> bool {
    forall|i: int| 0 <= i < s.len() ==> s[i] != c
}

/// No tag, text, written attribute or raw markup in the tree rooted at `n`
/// holds the character `c`.
pub open spec fn node_lacks(n: Node, c: char) -> bool
    decreases n,
{
    match n {
        Node::Text(t) => lacks(t@, c),
        Node::Element(e) => element_lacks(e, c),
    }
}

/// `node_lacks` of an element.
pub open spec fn element_lacks(e: Element, c: char) -> bool
    decreases e,
{
    &&& lacks(e.tag@, c)
    &&& lacks(attributes_text(merged_groups(e.attrs@)), c)
    &&& lacks(inner_html_text(merged_groups(e.attrs@)), c)
    &&& children_lack(e.children@, c)
}

/// `node_lacks` of each node of `s`.
pub open spec fn children_lack(s: Seq<Node>, c: char) -> bool
    decreases s,
{
    s.len() == 0 || (children_lack(s.subrange(0, s.len() - 1), c) && node_lacks(
        s[s.len() - 1],
        c,
    ))
}

proof fn lemma_lacks_concat(a: Seq<char>, b: Seq<char>, c: char)
    requires
        lacks(a, c),
        lacks(b, c),
    ensures
        lacks(a + b, c),
{
    assert forall|i: int| 0 <= i < (a + b).len() implies (a + b)[i] != c by {
        if i < a.len() {
            assert((a + b)[i] == a[i]);
        } else {
            assert((a + b)[i] == b[i - a.len()]);
        }
    }
}

/// Compressed markup does not depend on the level of indentation, and holds a
/// line break only where a tag, a text, an attribute or raw markup holds one.
pub proof fn lemma_compressed_node(n: Node, level: nat)
    ensures
        render_node(n, level, true) == render_node(n, 0, true),
        node_lacks(n, '\n') ==> lacks(render_node(n, level, true), '\n'),
    decreases n,
{
    match n {
        Node::Text(_) => {},
        Node::Element(e) => lemma_compressed_element(e, level),
    }
}

/// `lemma_compressed_node` of an element.
pub proof fn lemma_compressed_element(e: Element, level: nat)
    ensures
        render_element(e, level, true) == render_element(e, 0, true),
        element_lacks(e, '\n') ==> lacks(render_element(e, level, true), '\n'),
    decreases e,
{
    let s = e.children@;
    let groups = merged_groups(e.attrs@);
    lemma_compressed_children(s, level);
    if s.len() > 0 {
        lemma_compressed_node(s[0], level);
        lemma_compressed_node(s[0], 0);
    }
    let mid = if is_lone_text(s) {
        render_node(s[0], level, true)
    } else {
        render_children(s, level, true)
    };
    assert(render_element(e, level, true) =~= open_tag(e) + mid + inner_html_text(groups)
        + close_tag(e));
    assert(render_element(e, 0, true) =~= open_tag(e) + mid + inner_html_text(groups)
        + close_tag(e));
    if element_lacks(e, '\n') {
        if is_lone_text(s) {
            assert(s.subrange(0, 0) =~= Seq::<Node>::empty());
            assert(children_lack(s, '\n'));
            assert(s.subrange(0, s.len() - 1).len() == 0);
            assert(node_lacks(s[0], '\n'));
        }
        assert(lacks(seq!['<'], '\n'));
        assert(lacks(seq!['>'], '\n'));
        assert(lacks(seq!['/', '>'], '\n'));
        assert(lacks(seq!['<', '/'], '\n'));
        lemma_lacks_concat(seq!['<'], e.tag@, '\n');
        lemma_lacks_concat(seq!['<'] + e.tag@, attributes_text(groups), '\n');
        if e.self_closing {
            lemma_lacks_concat(
                seq!['<'] + e.tag@ + attributes_text(groups),
                seq!['/', '>'],
                '\n',
            );
            assert(lacks(close_tag(e), '\n'));
        } else {
            lemma_lacks_concat(seq!['<'] + e.tag@ + attributes_text(groups), seq!['>'], '\n');
            lemma_lacks_concat(seq!['<', '/'], e.tag@, '\n');
            lemma_lacks_concat(seq!['<', '/'] + e.tag@, seq!['>'], '\n');
        }
        lemma_lacks_concat(open_tag(e), mid, '\n');
        lemma_lacks_concat(open_tag(e) + mid, inner_html_text(groups), '\n');
        lemma_lacks_concat(open_tag(e) + mid + inner_html_text(groups), close_tag(e), '\n');
    }
}

/// `lemma_compressed_node` of the children of an element.
pub proof fn lemma_compressed_children(s: Seq<Node>, level: nat)
    ensures
        render_children(s, level, true) == render_children(s, 0, true),
        children_lack(s, '\n') ==> lacks(render_children(s, level, true), '\n'),
    decreases s,
{
    if s.len() > 0 {
        let p = s.subrange(0, s.len() - 1);
        lemma_compressed_children(p, level);
        lemma_compressed_node(s[s.len() - 1], level + 1);
        lemma_compressed_node(s[s.len() - 1], 1);
        lemma_compressed_node(s[s.len() - 1], 0);
        assert(render_children(s, level, true) =~= render_children(p, level, true) + render_node(
            s[s.len() - 1],
            level + 1,
            true,
        ));
        assert(render_children(s, 0, true) =~= render_children(p, 0, true) + render_node(
            s[s.len() - 1],
            1,
            true,
        ));
        if children_lack(s, '\n') {
            lemma_lacks_concat(
                render_children(p, level, true),
                render_node(s[s.len() - 1], level + 1, true),
                '\n',
            );
        }
    }
}

} // verus!
