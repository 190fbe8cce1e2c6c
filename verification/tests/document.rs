use generate_receipt::document::evaluate::{build_document, build_footer_value, EvalContext};
use generate_receipt::document::json::{JsonNumber, JsonValue};
use generate_receipt::document::model::{Alignment, DocumentElement, SizeMode};
use generate_receipt::skin::parser::parse;

fn s(v: &str) -> JsonValue {
    JsonValue::String(v.to_string())
}

fn num(text: &str, nonzero: bool) -> JsonValue {
    JsonValue::Number(JsonNumber { text: text.to_string(), nonzero })
}

fn obj(members: Vec<(&str, JsonValue)>) -> JsonValue {
    JsonValue::Object(members.into_iter().map(|(k, v)| (k.to_string(), v)).collect())
}

fn sample_root() -> JsonValue {
    obj(vec![
        ("store", obj(vec![("name", s("Blue Bean")), ("logo_path", s("logo.png")), ("qr_content", JsonValue::Null)])),
        ("meta", obj(vec![("cashier", s("Kim")), ("table_number", JsonValue::Null)])),
        (
            "items",
            JsonValue::Array(vec![
                obj(vec![
                    ("name", s("Latte")),
                    ("price", num("4500.0", true)),
                    ("item_type", s("normal")),
                    ("emphasis", JsonValue::Bool(true)),
                ]),
                obj(vec![
                    ("name", s("Combo")),
                    ("price", num("0", false)),
                    ("item_type", s("bundle")),
                    ("emphasis", JsonValue::Bool(false)),
                    ("children", JsonValue::Array(vec![obj(vec![("name", s("Cookie"))])])),
                ]),
            ]),
        ),
        ("computed", obj(vec![("total", num("4500.0", true)), ("tax", JsonValue::Null)])),
    ])
}

fn ctx() -> EvalContext {
    EvalContext { root: sample_root(), vars: Vec::new() }
}

fn texts(doc: &[DocumentElement]) -> Vec<String> {
    doc.iter()
        .filter_map(|e| match e {
            DocumentElement::Text { content, .. } => Some(content.clone()),
            _ => None,
        })
        .collect()
}

#[test]
fn resolve_paths() {
    let c = ctx();
    assert_eq!(c.as_string("store.name"), "Blue Bean");
    assert_eq!(c.as_string("computed.total"), "4500.0");
    assert_eq!(c.as_string("store.missing"), "");
    assert_eq!(c.as_string("items"), "");
    assert_eq!(c.as_string("items.0"), "");
    assert!(c.resolve("store.name.more").is_none());
    assert!(c.resolve("nothing").is_none());
    assert!(c.is_truthy("meta.cashier"));
    assert!(!c.is_truthy("meta.table_number"));
    assert!(!c.is_truthy("computed.tax"));
    assert!(c.is_truthy("items"));
    assert!(!c.is_truthy("nothing.at.all"));
}

#[test]
fn loop_variables_shadow_root_members() {
    let mut c = ctx();
    c.vars.push(("store".to_string(), s("shadow")));
    assert_eq!(c.as_string("store"), "shadow");
    assert_eq!(c.as_string("meta.cashier"), "Kim");
    c.vars.push(("flag".to_string(), JsonValue::Bool(false)));
    assert_eq!(c.as_string("flag"), "false");
    assert!(!c.is_truthy("flag"));
}

#[test]
fn interpolation_and_styles() {
    let skin = parse("@align:center\n@bold:on\n{{store.name}} / {{ meta.cashier }}!\n@bold:off\n@size:double\n@underline:on\nNo {{missing}} here {{ unclosed").unwrap();
    let doc = build_document(&skin, &ctx());
    assert_eq!(doc.len(), 3);
    assert!(matches!(doc[0], DocumentElement::Align(Alignment::Center)));
    match &doc[1] {
        DocumentElement::Text { content, align, bold, size, underline } => {
            assert_eq!(content, "Blue Bean / Kim!");
            assert_eq!(*align, Alignment::Center);
            assert!(*bold);
            assert_eq!(*size, SizeMode::Normal);
            assert!(!*underline);
        },
        other => panic!("{:?}", other),
    }
    match &doc[2] {
        DocumentElement::Text { content, bold, size, underline, .. } => {
            assert_eq!(content, "No  here {{ unclosed");
            assert!(!*bold);
            assert_eq!(*size, SizeMode::Double);
            assert!(*underline);
        },
        other => panic!("{:?}", other),
    }
}

#[test]
fn foreach_match_and_if() {
    let src = "@foreach:items as item\n@if:item.emphasis\n*{{item.name}}*\n@else\n{{item.name}}\n@endif\n@match:item.item_type\n@case:bundle\n@foreach:item.children as item\n - {{item.name}}\n@endforeach\n@case:normal\n(normal)\n@endmatch\n@endforeach\nafter {{item.name}}";
    let skin = parse(src).unwrap();
    let doc = build_document(&skin, &ctx());
    assert_eq!(
        texts(&doc),
        vec!["*Latte*", "(normal)", "Combo", "- Cookie", "after "]
    );
}

#[test]
fn foreach_over_non_array_emits_nothing() {
    let skin = parse("@foreach:store as x\nline\n@endforeach\n@foreach:missing as x\nline\n@endforeach").unwrap();
    assert!(build_document(&skin, &ctx()).is_empty());
}

#[test]
fn images_qr_rows_and_blanks() {
    let src = "@image:{{store.logo_path}}\n@image:store.nothing\n@qr:{{store.qr_content}}\n@qr:store.name\n@bold:on\n@row:{{item.name}}|{{computed.total}}\n@divider\n@blank\n@cut";
    let skin = parse(src).unwrap();
    let mut c = ctx();
    c.vars.push(("item".to_string(), obj(vec![("name", s("Tea"))])));
    let doc = build_document(&skin, &c);
    assert_eq!(doc.len(), 6);
    match &doc[0] {
        DocumentElement::Image(p) => assert_eq!(p, "logo.png"),
        other => panic!("{:?}", other),
    }
    match &doc[1] {
        DocumentElement::Qr(p) => assert_eq!(p, "Blue Bean"),
        other => panic!("{:?}", other),
    }
    match &doc[2] {
        DocumentElement::Row { left, right, bold } => {
            assert_eq!(left, "Tea");
            assert_eq!(right, "4500.0");
            assert!(*bold);
        },
        other => panic!("{:?}", other),
    }
    assert!(matches!(doc[3], DocumentElement::Divider));
    assert!(matches!(doc[4], DocumentElement::Blank));
    assert!(matches!(doc[5], DocumentElement::Cut));
}

#[test]
fn match_without_matching_case_emits_nothing() {
    let skin = parse("@match:store.name\n@case:Other\nx\n@endmatch").unwrap();
    assert!(build_document(&skin, &ctx()).is_empty());
}

#[test]
fn footer_value_in_order() {
    let entries = vec!["Thanks!".to_string(), "qr:https://x.example/s".to_string(), "qr".to_string()];
    let footer = build_footer_value(&entries);
    let root = obj(vec![("footer", footer)]);
    let skin = parse("@foreach:footer as f\n@match:f.kind\n@case:qr\n@qr:{{f.content}}\n@case:text\n{{f.content}}\n@endmatch\n@endforeach").unwrap();
    let doc = build_document(&skin, &EvalContext { root, vars: Vec::new() });
    assert_eq!(doc.len(), 3);
    match &doc[0] {
        DocumentElement::Text { content, .. } => assert_eq!(content, "Thanks!"),
        other => panic!("{:?}", other),
    }
    match &doc[1] {
        DocumentElement::Qr(c) => assert_eq!(c, "https://x.example/s"),
        other => panic!("{:?}", other),
    }
    match &doc[2] {
        DocumentElement::Text { content, .. } => assert_eq!(content, "qr"),
        other => panic!("{:?}", other),
    }
}

#[test]
fn empty_footer() {
    match build_footer_value(&[]) {
        JsonValue::Array(a) => assert!(a.is_empty()),
        other => panic!("{:?}", other),
    }
}

#[test]
fn plain_template_is_unchanged() {
    let skin = parse("Plain } text { with } braces").unwrap();
    let doc = build_document(&skin, &ctx());
    assert_eq!(texts(&doc), vec!["Plain } text { with } braces"]);
}

#[test]
fn match_takes_the_first_equal_case() {
    let skin = parse("@match:meta.cashier\n@case:Kim\nfirst\n@case:Kim\nsecond\n@endmatch").unwrap();
    assert_eq!(texts(&build_document(&skin, &ctx())), vec!["first"]);
}

#[test]
fn walking_two_skins_in_a_row_concatenates() {
    let a = "@bold:on\n{{store.name}}";
    let b = "@align:right\nafter";
    let both = parse(&format!("{}\n{}", a, b)).unwrap();
    let doc_both = build_document(&both, &ctx());
    let doc_a = build_document(&parse(a).unwrap(), &ctx());
    assert_eq!(doc_both.len(), doc_a.len() + 2);
    assert_eq!(texts(&doc_both), vec!["Blue Bean", "after"]);
    match &doc_both[2] {
        DocumentElement::Text { bold, align, .. } => {
            assert!(*bold);
            assert_eq!(*align, Alignment::Right);
        },
        other => panic!("{:?}", other),
    }
}
