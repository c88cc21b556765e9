use tstub::templates::build_template_body;
use tstub::templates::Template;
use tstub::templates::TemplateError;

#[test]
fn json_body_renders_canonical_text() {
    let body = build_template_body("json", "{ \"a\" :  1 }").unwrap();
    let (text, kind) = body.get_text_and_type();
    assert_eq!(kind, "json");
    assert_eq!(text, "{\"a\":1}");
}

#[test]
fn json_body_render_parses_to_same_value() {
    let input = "{\"name\": \"x\", \"list\": [1, 2, 3], \"flag\": true}";
    let body = build_template_body("json", input).unwrap();
    let (text, _) = body.get_text_and_type();
    let direct: serde_json::Value = serde_json::from_str(input).unwrap();
    let rendered: serde_json::Value = serde_json::from_str(&text).unwrap();
    assert_eq!(direct, rendered);
}

#[test]
fn xml_body_retains_no_payload() {
    let body = build_template_body("xml", "<a>ignored</a>").unwrap();
    let (text, kind) = body.get_text_and_type();
    assert_eq!(kind, "xml");
    assert_eq!(text, "");
}

#[test]
fn regex_body_retains_no_payload() {
    let body = build_template_body("regex", "^GET .*$").unwrap();
    let (text, kind) = body.get_text_and_type();
    assert_eq!(kind, "regex");
    assert_eq!(text, "");
}

#[test]
fn invalid_json_is_rejected() {
    assert_eq!(
        build_template_body("json", "{not json").unwrap_err(),
        TemplateError::InvalidTemplateBody
    );
}

#[test]
fn unknown_kind_is_rejected() {
    assert_eq!(
        build_template_body("yaml", "a: 1").unwrap_err(),
        TemplateError::UnknownTemplateType
    );
}

#[test]
fn template_new_carries_id_and_name() {
    let t = Template::new(7, "[1,2]", "greeting".to_string(), "json").unwrap();
    assert_eq!(t.id, 7);
    assert_eq!(t.name, "greeting");
    let (text, kind) = t.body.get_text_and_type();
    assert_eq!(kind, "json");
    assert_eq!(text, "[1,2]");
    assert!(t.vars.is_empty());
}

#[test]
fn template_new_rejects_unknown_kind_before_any_store_work() {
    let r = Template::new(0, "text", "n".to_string(), "csv");
    assert_eq!(r.unwrap_err(), TemplateError::UnknownTemplateType);
}
