use sauron_render::attributes::{
    attr, class, classes_flag, inner_html, merge_function_call_values,
    merge_plain_attributes_values, merge_styles_attributes_values, on, style, Attribute,
    AttributeValue, Style,
};
use sauron_render::node::{div, element, self_closing_element, text, Node};
use sauron_render::render::{extract_inner_html, Render};

#[test]
fn test_render_classes() {
    let view: Node = div(vec![class("frame"), class("component")], vec![]);
    let expected = r#"<div class="frame component"></div>"#;
    let mut buffer = String::new();
    view.render(&mut buffer);
    assert_eq!(expected, buffer);
}

#[test]
fn test_render_class_flag() {
    let view: Node = div(
        vec![class("frame"), classes_flag(vec![("component", true), ("layer", false)])],
        vec![],
    );
    let expected = r#"<div class="frame component"></div>"#;
    let mut buffer = String::new();
    view.render(&mut buffer);
    assert_eq!(expected, buffer);
}

#[test]
fn compressed_classes_merge() {
    let view = div(vec![attr("class", "frame"), attr("class", "component")], vec![]);
    assert_eq!(view.render_to_string(), r#"<div class="frame component"></div>"#);
}

#[test]
fn compressed_class_flag_merge() {
    let view = div(
        vec![class("frame"), classes_flag(vec![("component", true), ("layer", false)])],
        vec![],
    );
    assert_eq!(view.render_to_string(), r#"<div class="frame component"></div>"#);
}

#[test]
fn lone_text_child_is_inline() {
    let view = element("tag", vec![], vec![text("hello")]);
    assert_eq!(view.render_to_string(), "<tag>hello</tag>");
    assert_eq!(view.render_to_string_pretty(), "<tag>hello</tag>");
}

#[test]
fn self_closing_siblings() {
    let view = div(
        vec![],
        vec![self_closing_element("br", vec![]), self_closing_element("img", vec![])],
    );
    assert_eq!(view.render_to_string(), "<div><br/><img/></div>");
    assert_eq!(view.render_to_string_pretty(), "<div>\n    <br/>\n    <img/>\n</div>");
}

#[test]
fn adjacent_inline_elements_have_no_gap() {
    let view = div(
        vec![],
        vec![
            element("span", vec![], vec![text("hello")]),
            element("span", vec![], vec![text(" world")]),
        ],
    );
    assert_eq!(view.render_to_string(), "<div><span>hello</span><span> world</span></div>");
}

#[test]
fn pretty_indents_four_spaces_per_level() {
    let view = div(
        vec![],
        vec![div(vec![], vec![element("p", vec![], vec![text("a"), text("b")])])],
    );
    let expected = "<div>\n    <div>\n        <p>\n            a\n            b\n        </p>\n    </div>\n</div>";
    assert_eq!(view.render_to_string_pretty(), expected);
    assert_eq!(view.render_to_string(), "<div><div><p>ab</p></div></div>");
}

#[test]
fn compressed_has_no_newline_and_keeps_text_spaces() {
    let view = div(vec![], vec![text("a  b"), div(vec![], vec![text("c")])]);
    let out = view.render_to_string();
    assert_eq!(out, "<div>a  b<div>c</div></div>");
    assert!(!out.contains('\n'));
}

#[test]
fn empty_attribute_name_is_not_written() {
    let view = div(vec![attr("", "hidden"), attr("id", "x")], vec![]);
    assert_eq!(view.render_to_string(), r#"<div id="x"></div>"#);
}

#[test]
fn empty_attribute_value_is_written() {
    let view = div(vec![attr("title", "")], vec![]);
    assert_eq!(view.render_to_string(), r#"<div title=""></div>"#);
}

#[test]
fn styles_merge_into_one_value() {
    let view = div(vec![style("color", "red"), style("display", "flex")], vec![]);
    assert_eq!(view.render_to_string(), r#"<div style="color:red;display:flex;"></div>"#);
}

#[test]
fn event_listener_has_no_value() {
    let view = div(vec![on("click"), attr("id", "b")], vec![]);
    assert_eq!(view.render_to_string(), r#"<div  id="b"></div>"#);
}

#[test]
fn inner_html_is_spliced_after_children() {
    let view = div(vec![inner_html("<b>x</b>")], vec![]);
    assert_eq!(view.render_to_string(), "<div ><b>x</b></div>");
    let view = div(vec![inner_html("<i>y</i>")], vec![div(vec![], vec![])]);
    assert_eq!(view.render_to_string(), "<div ><div></div><i>y</i></div>");
    assert_eq!(view.render_to_string_pretty(), "<div >\n    <div></div>\n<i>y</i></div>");
}

#[test]
fn inner_html_fragments_join_with_space() {
    let view = div(vec![inner_html("<b>x</b>"), inner_html("<i>y</i>")], vec![]);
    assert_eq!(view.render_to_string(), "<div ><b>x</b> <i>y</i></div>");
}

#[test]
fn extract_inner_html_reads_only_inner_html() {
    let attrs = vec![attr("class", "a"), inner_html("<p></p>")];
    assert_eq!(extract_inner_html(&attrs), "<p></p>");
    assert_eq!(extract_inner_html(&vec![attr("class", "a")]), "");
}

#[test]
fn merge_values_by_kind() {
    let values = vec![
        AttributeValue::Simple("a".to_string()),
        AttributeValue::FunctionCall("f".to_string()),
        AttributeValue::Style(vec![Style { name: "x".to_string(), value: "1".to_string() }]),
        AttributeValue::Simple("b".to_string()),
        AttributeValue::EventListener,
        AttributeValue::FunctionCall("g".to_string()),
    ];
    assert_eq!(merge_plain_attributes_values(&values), Some("a b".to_string()));
    assert_eq!(merge_function_call_values(&values), Some("f g".to_string()));
    assert_eq!(merge_styles_attributes_values(&values), Some("x:1;".to_string()));
    let none = vec![AttributeValue::EventListener];
    assert_eq!(merge_plain_attributes_values(&none), None);
    assert_eq!(merge_function_call_values(&none), None);
    assert_eq!(merge_styles_attributes_values(&none), None);
}

#[test]
fn attribute_with_plain_and_style_values() {
    let a = Attribute {
        name: "style".to_string(),
        value: vec![
            AttributeValue::Simple("p".to_string()),
            AttributeValue::Style(vec![Style { name: "x".to_string(), value: "1".to_string() }]),
        ],
    };
    assert_eq!(a.render_to_string(), r#"style="p"style="x:1;""#);
}

#[test]
fn node_index_counts_every_node() {
    let view = div(vec![], vec![text("a"), div(vec![], vec![text("b")])]);
    let mut buffer = String::new();
    let mut idx = Some(0usize);
    view.render_with_indent(&mut buffer, 0, &mut idx, true);
    assert_eq!(idx, Some(4));
    assert_eq!(buffer, "<div>a<div>b</div></div>");
    let mut none: Option<usize> = None;
    let mut other = String::new();
    view.render_with_indent(&mut other, 1, &mut none, false);
    assert_eq!(none, None);
    assert_eq!(other, "<div>\n        a\n        <div>b</div>\n    </div>");
}

#[test]
fn attributes_keep_first_occurrence_order() {
    let view = div(
        vec![attr("id", "x"), class("a"), attr("title", "t"), class("b")],
        vec![],
    );
    assert_eq!(view.render_to_string(), r#"<div id="x" class="a b" title="t"></div>"#);
}
