//! Attributes of an element, and the merging of the values of attributes that
//! share a name.
use vstd::prelude::*;

verus! {

/// One style declaration, rendered as `name:value;`.
#[derive(Clone, Debug, PartialEq, Eq)]
pub struct Style {
    pub name: String,
    pub value: String,
}

/// A value carried by an attribute.
#[derive(Clone, Debug, PartialEq, Eq)]
pub enum AttributeValue {
    /// A plain textual value, such as a class name.
    Simple(String),
    /// Style declarations.
    Style(Vec<Style>),
    /// Raw markup or a function-call value; never escaped.
    FunctionCall(String),
    /// An event callback: it has no textual form.
    EventListener,
}

/// A named attribute with its values, in the order they were given.
#[derive(Clone, Debug, PartialEq, Eq)]
pub struct Attribute {
    pub name: String,
    pub value: Vec<AttributeValue>,
}

/// The parts joined with `sep` between consecutive parts.
pub open spec fn join(parts: Seq<Seq<char>>, sep: Seq<char>) -> Seq<char>
    decreases parts.len(),
{
    if parts.len() == 0 {
        Seq::empty()
    } else if parts.len() == 1 {
        parts[0]
    } else {
        join(parts.drop_last(), sep) + sep + parts.last()
    }
}

/// The texts of the `Simple` values, in order.
pub open spec fn plain_parts(values: Seq<AttributeValue>) -> Seq<Seq<char>>
    decreases values.len(),
{
    if values.len() == 0 {
        Seq::empty()
    } else {
        let rest = plain_parts(values.drop_last());
        match values.last() {
            AttributeValue::Simple(s) => rest.push(s@),
            _ => rest,
        }
    }
}

/// The texts of the `FunctionCall` values, in order.
pub open spec fn function_call_parts(values: Seq<AttributeValue>) -> Seq<Seq<char>>
    decreases values.len(),
{
    if values.len() == 0 {
        Seq::empty()
    } else {
        let rest = function_call_parts(values.drop_last());
        match values.last() {
            AttributeValue::FunctionCall(s) => rest.push(s@),
            _ => rest,
        }
    }
}

/// Style declarations written out: `name:value;` for each, in order.
pub open spec fn declarations_text(styles: Seq<Style>) -> Seq<char>
    decreases styles.len(),
{
    if styles.len() == 0 {
        Seq::empty()
    } else {
        declarations_text(styles.drop_last()) + styles.last().name@ + seq![':']
            + styles.last().value@ + seq![';']
    }
}

/// The declaration texts of the `Style` values, one part for each such value.
pub open spec fn style_parts(values: Seq<AttributeValue>) -> Seq<Seq<char>>
    decreases values.len(),
{
    if values.len() == 0 {
        Seq::empty()
    } else {
        let rest = style_parts(values.drop_last());
        match values.last() {
            AttributeValue::Style(st) => rest.push(declarations_text(st@)),
            _ => rest,
        }
    }
}

/// The parts joined by one space, or `None` where there is no part.
pub open spec fn merged_text(parts: Seq<Seq<char>>) -> Option<Seq<char>> {
    if parts.len() == 0 {
        None
    } else {
        Some(join(parts, seq![' ']))
    }
}

/// The style declarations of all `Style` values, one after the other, or `None`
/// where there is no `Style` value.
pub open spec fn merged_styles(values: Seq<AttributeValue>) -> Option<Seq<char>> {
    let parts = style_parts(values);
    if parts.len() == 0 {
        None
    } else {
        Some(join(parts, Seq::empty()))
    }
}

/// The view of an optional `String`.
pub open spec fn opt_view(o: Option<String>) -> Option<Seq<char>> {
    match o {
        Some(s) => Some(s@),
        None => None,
    }
}

/// Merges the `Simple` values: their texts joined by a single space, in order,
/// or `None` where there is none.
pub fn merge_plain_attributes_values(values: &Vec<AttributeValue>) -> (r: Option<String>)
    ensures
        opt_view(r) == merged_text(plain_parts(values@)),
{
    let mut out = String::new();
    let mut found = false;
    let mut i: usize = 0;
    while i < values.len()
        invariant
            i <= values@.len(),
            found == (plain_parts(values@.subrange(0, i as int)).len() > 0),
            out@ == join(plain_parts(values@.subrange(0, i as int)), seq![' ']),
        decreases values@.len() - i,
    {
        proof {
            assert(values@.subrange(0, i + 1).drop_last() =~= values@.subrange(0, i as int));
        }
        match &values[i] {
            AttributeValue::Simple(s) => {
                if found {
                    proof {
                        reveal_strlit(" ");
                    }
                    out.append(" ");
                }
                out.append(s.as_str());
                found = true;
                proof {
                    let parts = plain_parts(values@.subrange(0, i as int));
                    assert(parts.push(s@).drop_last() =~= parts);
                }
            },
            _ => {},
        }
        i = i + 1;
    }
    proof {
        assert(values@.subrange(0, values@.len() as int) =~= values@);
    }
    if found {
        Some(out)
    } else {
        None
    }
}

/// Merges the `FunctionCall` values: their texts joined by a single space, in
/// order, or `None` where there is none.
pub fn merge_function_call_values(values: &Vec<AttributeValue>) -> (r: Option<String>)
    ensures
        opt_view(r) == merged_text(function_call_parts(values@)),
{
    let mut out = String::new();
    let mut found = false;
    let mut i: usize = 0;
    while i < values.len()
        invariant
            i <= values@.len(),
            found == (function_call_parts(values@.subrange(0, i as int)).len() > 0),
            out@ == join(function_call_parts(values@.subrange(0, i as int)), seq![' ']),
        decreases values@.len() - i,
    {
        proof {
            assert(values@.subrange(0, i + 1).drop_last() =~= values@.subrange(0, i as int));
        }
        match &values[i] {
            AttributeValue::FunctionCall(s) => {
                if found {
                    proof {
                        reveal_strlit(" ");
                    }
                    out.append(" ");
                }
                out.append(s.as_str());
                found = true;
                proof {
                    let parts = function_call_parts(values@.subrange(0, i as int));
                    assert(parts.push(s@).drop_last() =~= parts);
                }
            },
            _ => {},
        }
        i = i + 1;
    }
    proof {
        assert(values@.subrange(0, values@.len() as int) =~= values@);
    }
    if found {
        Some(out)
    } else {
        None
    }
}

/// Appends each declaration as `name:value;`.
fn write_declarations(out: &mut String, styles: &Vec<Style>)
    ensures
        final(out)@ == old(out)@ + declarations_text(styles@),
{
    let mut i: usize = 0;
    while i < styles.len()
        invariant
            i <= styles@.len(),
            out@ == old(out)@ + declarations_text(styles@.subrange(0, i as int)),
        decreases styles@.len() - i,
    {
        proof {
            assert(styles@.subrange(0, i + 1).drop_last() =~= styles@.subrange(0, i as int));
            reveal_strlit(":");
            reveal_strlit(";");
        }
        out.append(styles[i].name.as_str());
        out.append(":");
        out.append(styles[i].value.as_str());
        out.append(";");
        proof {
            assert(out@ =~= old(out)@ + declarations_text(styles@.subrange(0, i + 1)));
        }
        i = i + 1;
    }
    proof {
        assert(styles@.subrange(0, styles@.len() as int) =~= styles@);
    }
}

/// Merges the `Style` values: all their declarations one after the other, or
/// `None` where there is no `Style` value.
pub fn merge_styles_attributes_values(values: &Vec<AttributeValue>) -> (r: Option<String>)
    ensures
        opt_view(r) == merged_styles(values@),
{
    let mut out = String::new();
    let mut found = false;
    let mut i: usize = 0;
    while i < values.len()
        invariant
            i <= values@.len(),
            found == (style_parts(values@.subrange(0, i as int)).len() > 0),
            out@ == join(style_parts(values@.subrange(0, i as int)), Seq::empty()),
        decreases values@.len() - i,
    {
        proof {
            assert(values@.subrange(0, i + 1).drop_last() =~= values@.subrange(0, i as int));
        }
        match &values[i] {
            AttributeValue::Style(st) => {
                write_declarations(&mut out, st);
                found = true;
                proof {
                    let parts = style_parts(values@.subrange(0, i as int));
                    assert(parts.push(declarations_text(st@)).drop_last() =~= parts);
                    assert(out@ =~= join(parts.push(declarations_text(st@)), Seq::empty()));
                }
            },
            _ => {},
        }
        i = i + 1;
    }
    proof {
        assert(values@.subrange(0, values@.len() as int) =~= values@);
    }
    if found {
        Some(out)
    } else {
        None
    }
}

/// An attribute seen as its name and its values.
pub open spec fn group_of(a: Attribute) -> (Seq<char>, Seq<AttributeValue>) {
    (a.name@, a.value@)
}

/// The index of the first group named `name`, or -1 where there is none.
pub open spec fn first_index_of(groups: Seq<(Seq<char>, Seq<AttributeValue>)>, name: Seq<char>) -> int
    decreases groups.len(),
{
    if groups.len() == 0 {
        -1
    } else {
        let j = first_index_of(groups.drop_last(), name);
        if j >= 0 {
            j
        } else if groups.last().0 == name {
            groups.len() - 1
        } else {
            -1
        }
    }
}

/// Adds one attribute to the groups: its values go after those of the group
/// of the same name, or it opens a new group at the end.
pub open spec fn merge_into(
    groups: Seq<(Seq<char>, Seq<AttributeValue>)>,
    a: (Seq<char>, Seq<AttributeValue>),
) -> Seq<(Seq<char>, Seq<AttributeValue>)> {
    let i = first_index_of(groups, a.0);
    if i >= 0 {
        groups.update(i, (groups[i].0, groups[i].1 + a.1))
    } else {
        groups.push(a)
    }
}

/// The attributes grouped by name, in the order in which each name first
/// occurs, each group with the values of its attributes in order.
pub open spec fn merged_groups(attrs: Seq<Attribute>) -> Seq<(Seq<char>, Seq<AttributeValue>)>
    decreases attrs.len(),
{
    if attrs.len() == 0 {
        Seq::empty()
    } else {
        merge_into(merged_groups(attrs.drop_last()), group_of(attrs.last()))
    }
}

/// The attributes seen as groups.
pub open spec fn groups_of(attrs: Seq<Attribute>) -> Seq<(Seq<char>, Seq<AttributeValue>)> {
    attrs.map_values(|a: Attribute| group_of(a))
}

/// Relies on mt_dom::merge_attributes_of_same_name: one attribute per distinct
/// name, in order of first occurrence, whose values are those of all the
/// attributes of that name, in order.
#[verifier::external_body]
pub(crate) fn merge_attributes_of_same_name(attrs: &Vec<Attribute>) -> (r: Vec<Attribute>)
    ensures
        groups_of(r@) == merged_groups(attrs@),
{
    let converted: Vec<mt_dom::Attribute<(), String, AttributeValue>> = attrs
        .iter()
        .map(|a| mt_dom::Attribute::with_multiple_values(None, a.name.clone(), a.value.clone()))
        .collect();
    let refs: Vec<&mt_dom::Attribute<(), String, AttributeValue>> = converted.iter().collect();
    mt_dom::merge_attributes_of_same_name(&refs)
        .into_iter()
        .map(|m| Attribute { name: m.name, value: m.value })
        .collect()
}

/// An attribute with one plain value.
pub fn attr(name: &str, value: &str) -> (r: Attribute)
    ensures
        r.name@ == name@,
        r.value@.len() == 1,
        r.value@[0] is Simple,
        r.value@[0]->Simple_0@ == value@,
{
    let mut values: Vec<AttributeValue> = Vec::new();
    values.push(AttributeValue::Simple(String::from_str(value)));
    Attribute { name: String::from_str(name), value: values }
}

/// The name `class`.
pub open spec fn class_name() -> Seq<char> {
    seq!['c', 'l', 'a', 's', 's']
}

/// A `class` attribute with one class name.
pub fn class(name: &str) -> (r: Attribute)
    ensures
        r.name@ == class_name(),
        r.value@.len() == 1,
        r.value@[0] is Simple,
        r.value@[0]->Simple_0@ == name@,
{
    proof {
        reveal_strlit("class");
        assert("class"@ =~= class_name());
    }
    attr("class", name)
}

/// The names whose flag is set, in order.
pub open spec fn flagged_names(pairs: Seq<(&str, bool)>) -> Seq<Seq<char>>
    decreases pairs.len(),
{
    if pairs.len() == 0 {
        Seq::empty()
    } else {
        let rest = flagged_names(pairs.drop_last());
        if pairs.last().1 {
            rest.push(pairs.last().0@)
        } else {
            rest
        }
    }
}

/// A `class` attribute whose value is the names whose flag is set, joined by a
/// space.
pub fn classes_flag(pairs: Vec<(&str, bool)>) -> (r: Attribute)
    ensures
        r.name@ == class_name(),
        r.value@.len() == 1,
        r.value@[0] is Simple,
        r.value@[0]->Simple_0@ == join(flagged_names(pairs@), seq![' ']),
{
    let mut out = String::new();
    let mut found = false;
    let mut i: usize = 0;
    while i < pairs.len()
        invariant
            i <= pairs@.len(),
            found == (flagged_names(pairs@.subrange(0, i as int)).len() > 0),
            out@ == join(flagged_names(pairs@.subrange(0, i as int)), seq![' ']),
        decreases pairs@.len() - i,
    {
        proof {
            assert(pairs@.subrange(0, i + 1).drop_last() =~= pairs@.subrange(0, i as int));
        }
        let (name, flag) = pairs[i];
        if flag {
            if found {
                proof {
                    reveal_strlit(" ");
                }
                out.append(" ");
            }
            out.append(name);
            found = true;
            proof {
                let parts = flagged_names(pairs@.subrange(0, i as int));
                assert(parts.push(name@).drop_last() =~= parts);
            }
        }
        i = i + 1;
    }
    proof {
        assert(pairs@.subrange(0, pairs@.len() as int) =~= pairs@);
    }
    class(out.as_str())
}

/// A `style` attribute with one declaration.
pub fn style(name: &str, value: &str) -> (r: Attribute)
    ensures
        r.name@ == seq!['s', 't', 'y', 'l', 'e'],
        r.value@.len() == 1,
        r.value@[0] is Style,
        r.value@[0]->Style_0@.len() == 1,
        r.value@[0]->Style_0@[0].name@ == name@,
        r.value@[0]->Style_0@[0].value@ == value@,
{
    proof {
        reveal_strlit("style");
    }
    let mut decls: Vec<Style> = Vec::new();
    decls.push(Style { name: String::from_str(name), value: String::from_str(value) });
    let mut values: Vec<AttributeValue> = Vec::new();
    values.push(AttributeValue::Style(decls));
    Attribute { name: String::from_str("style"), value: values }
}

/// An `inner_html` attribute: its markup is spliced, unescaped, into the
/// element's body.
pub fn inner_html(markup: &str) -> (r: Attribute)
    ensures
        r.name@ == seq!['i', 'n', 'n', 'e', 'r', '_', 'h', 't', 'm', 'l'],
        r.value@.len() == 1,
        r.value@[0] is FunctionCall,
        r.value@[0]->FunctionCall_0@ == markup@,
{
    proof {
        reveal_strlit("inner_html");
    }
    let mut values: Vec<AttributeValue> = Vec::new();
    values.push(AttributeValue::FunctionCall(String::from_str(markup)));
    Attribute { name: String::from_str("inner_html"), value: values }
}

/// An attribute that carries an event callback for `event`.
pub fn on(event: &str) -> (r: Attribute)
    ensures
        r.name@ == event@,
        r.value@ == seq![AttributeValue::EventListener],
{
    let mut values: Vec<AttributeValue> = Vec::new();
    values.push(AttributeValue::EventListener);
    proof {
        assert(values@ =~= seq![AttributeValue::EventListener]);
    }
    Attribute { name: String::from_str(event), value: values }
}

} // verus!
