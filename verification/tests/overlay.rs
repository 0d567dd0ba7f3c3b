use soloband::overlay::{escape_attr, insert_before_svg_end};

#[test]
fn escape_attr_entities() {
    assert_eq!(escape_attr(r#"a"b'c<d>e&f"#), "a&quot;b&apos;c&lt;d&gt;e&amp;f");
    assert_eq!(escape_attr("#4CAF50"), "#4CAF50");
    assert_eq!(escape_attr(""), "");
}

#[test]
fn layer_goes_before_last_closing_tag() {
    let svg = r#"<svg><g></g></svg>"#;
    let out = insert_before_svg_end(svg, r#"<g id="feedback-overlay"></g>"#).unwrap();
    assert_eq!(out, r#"<svg><g></g><g id="feedback-overlay"></g></svg>"#);
    let nested = "<svg><svg></svg></svg>";
    assert_eq!(insert_before_svg_end(nested, "X").unwrap(), "<svg><svg></svg>X</svg>");
    assert_eq!(insert_before_svg_end("<svg>", "X"), Err("SVG has no closing </svg> tag".to_string()));
}
