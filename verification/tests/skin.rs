use generate_receipt::skin::lexer::tokenize;
use generate_receipt::skin::model::{Alignment, SizeMode, SkinNode};
use generate_receipt::skin::parser::{
    is_terminator, parse, split_foreach, split_row, unwrap_placeholder, ParseError,
};

fn text(n: &SkinNode) -> &str {
    match n {
        SkinNode::Text(t) => t.as_str(),
        other => panic!("expected text, got {:?}", other),
    }
}

#[test]
fn tokenize_trims_and_drops_blank_and_comment_lines() {
    let src = "  @bold:on  \n# a comment\n\n   \n\tHello {{store.name}}\t\r\n  #also comment\n@cut";
    assert_eq!(tokenize(src), vec!["@bold:on", "Hello {{store.name}}", "@cut"]);
}

#[test]
fn tokenize_empty_and_whitespace_only() {
    assert!(tokenize("").is_empty());
    assert!(tokenize("\n\n  \r\n\t\n").is_empty());
    assert_eq!(tokenize("x"), vec!["x"]);
    assert_eq!(tokenize("a\n"), vec!["a"]);
}

#[test]
fn tokenize_unicode_whitespace_is_trimmed() {
    assert_eq!(tokenize("\u{3000}가나다\u{a0}\n"), vec!["가나다"]);
}

#[test]
fn parse_simple_directives() {
    let src = "@align:center\n@bold:on\n@bold:off\n@size:double_width\n@size:normal\n@underline:on\n@divider\n@blank\n@image:{{ store.logo_path }}\n@qr: store.qr \n@row:{{item.name}} | {{item.price}}\n@cut\nplain text";
    let nodes = parse(src).unwrap();
    assert_eq!(nodes.len(), 13);
    assert!(matches!(nodes[0], SkinNode::Align(Alignment::Center)));
    assert!(matches!(nodes[1], SkinNode::Bold(true)));
    assert!(matches!(nodes[2], SkinNode::Bold(false)));
    assert!(matches!(nodes[3], SkinNode::Size(SizeMode::Double)));
    assert!(matches!(nodes[4], SkinNode::Size(SizeMode::Normal)));
    assert!(matches!(nodes[5], SkinNode::Underline(true)));
    assert!(matches!(nodes[6], SkinNode::Divider));
    assert!(matches!(nodes[7], SkinNode::Blank));
    match &nodes[8] {
        SkinNode::Image(p) => assert_eq!(p, "store.logo_path"),
        other => panic!("{:?}", other),
    }
    match &nodes[9] {
        SkinNode::Qr(p) => assert_eq!(p, "store.qr"),
        other => panic!("{:?}", other),
    }
    match &nodes[10] {
        SkinNode::Row { left, right } => {
            assert_eq!(left, "{{item.name}}");
            assert_eq!(right, "{{item.price}}");
        },
        other => panic!("{:?}", other),
    }
    assert!(matches!(nodes[11], SkinNode::Cut));
    assert_eq!(text(&nodes[12]), "plain text");
}

#[test]
fn parse_bold_value_other_than_on_is_off() {
    let nodes = parse("@bold:yes").unwrap();
    assert!(matches!(nodes[0], SkinNode::Bold(false)));
}

#[test]
fn parse_if_else() {
    let nodes = parse("@if:meta.cashier\nCashier\n@else\nNo cashier\n@endif\nafter").unwrap();
    assert_eq!(nodes.len(), 2);
    match &nodes[0] {
        SkinNode::If { condition, then_branch, else_branch } => {
            assert_eq!(condition, "meta.cashier");
            assert_eq!(then_branch.len(), 1);
            assert_eq!(text(&then_branch[0]), "Cashier");
            assert_eq!(else_branch.len(), 1);
            assert_eq!(text(&else_branch[0]), "No cashier");
        },
        other => panic!("{:?}", other),
    }
    assert_eq!(text(&nodes[1]), "after");
}

#[test]
fn parse_if_without_else() {
    let nodes = parse("@if:x\na\n@endif").unwrap();
    match &nodes[0] {
        SkinNode::If { then_branch, else_branch, .. } => {
            assert_eq!(then_branch.len(), 1);
            assert!(else_branch.is_empty());
        },
        other => panic!("{:?}", other),
    }
}

#[test]
fn parse_nested_foreach_and_match() {
    let src = "@foreach:items as item\n@match:item.item_type\n@case: bundle\n@foreach:item.children as child\n- {{child.name}}\n@endforeach\n@case:discount\nDISCOUNT\n@endmatch\n@endforeach";
    let nodes = parse(src).unwrap();
    assert_eq!(nodes.len(), 1);
    match &nodes[0] {
        SkinNode::Foreach { list, var, body } => {
            assert_eq!(list, "items");
            assert_eq!(var, "item");
            assert_eq!(body.len(), 1);
            match &body[0] {
                SkinNode::Match { value, cases } => {
                    assert_eq!(value, "item.item_type");
                    assert_eq!(cases.len(), 2);
                    assert_eq!(cases[0].0, "bundle");
                    assert_eq!(cases[1].0, "discount");
                    assert_eq!(cases[0].1.len(), 1);
                    match &cases[0].1[0] {
                        SkinNode::Foreach { list, var, body } => {
                            assert_eq!(list, "item.children");
                            assert_eq!(var, "child");
                            assert_eq!(text(&body[0]), "- {{child.name}}");
                        },
                        other => panic!("{:?}", other),
                    }
                    assert_eq!(text(&cases[1].1[0]), "DISCOUNT");
                },
                other => panic!("{:?}", other),
            }
        },
        other => panic!("{:?}", other),
    }
}

#[test]
fn parse_match_with_no_cases() {
    let nodes = parse("@match:x\n@endmatch").unwrap();
    match &nodes[0] {
        SkinNode::Match { cases, .. } => assert!(cases.is_empty()),
        other => panic!("{:?}", other),
    }
}

#[test]
fn parse_stray_end_lines_at_top_level_are_text() {
    let nodes = parse("@endif\n@else").unwrap();
    assert_eq!(text(&nodes[0]), "@endif");
    assert_eq!(text(&nodes[1]), "@else");
}

#[test]
fn parse_errors() {
    match parse("@align:middle") {
        Err(ParseError::UnknownAlignment(s)) => assert_eq!(s, "middle"),
        other => panic!("{:?}", other),
    }
    match parse("@size:huge") {
        Err(ParseError::UnknownSize(s)) => assert_eq!(s, "huge"),
        other => panic!("{:?}", other),
    }
    match parse("@row:no separator") {
        Err(ParseError::InvalidRow(s)) => assert_eq!(s, "no separator"),
        other => panic!("{:?}", other),
    }
    match parse("@foreach:items\n@endforeach") {
        Err(ParseError::InvalidForeach(s)) => assert_eq!(s, "items"),
        other => panic!("{:?}", other),
    }
    match parse("@if:cond\ntext") {
        Err(ParseError::MissingEndif(s)) => assert_eq!(s, "cond"),
        other => panic!("{:?}", other),
    }
    match parse("@foreach:items as item\nx") {
        Err(ParseError::MissingEndforeach(s)) => assert_eq!(s, "items as item"),
        other => panic!("{:?}", other),
    }
    match parse("@match:v\n@case:a\nx") {
        Err(ParseError::MissingEndmatch(s)) => assert_eq!(s, "v"),
        other => panic!("{:?}", other),
    }
    // An @endif cannot close a @foreach.
    match parse("@foreach:a as b\n@endif") {
        Err(ParseError::MissingEndforeach(_)) => {},
        other => panic!("{:?}", other),
    }
}

#[test]
fn error_messages() {
    assert_eq!(
        ParseError::UnknownAlignment("middle".to_string()).message(),
        "unknown alignment: middle"
    );
    assert_eq!(ParseError::UnknownSize("huge".to_string()).message(), "unknown size: huge");
    assert_eq!(
        ParseError::InvalidRow("ab".to_string()).message(),
        "invalid @row syntax: expected '<left>|<right>', got 'ab'"
    );
    assert_eq!(
        ParseError::InvalidForeach("ab".to_string()).message(),
        "invalid @foreach syntax: expected '<list> as <var>', got 'ab'"
    );
    assert_eq!(
        ParseError::MissingEndif("c".to_string()).message(),
        "expected @endif to close @if:c"
    );
    assert_eq!(
        ParseError::MissingEndforeach("a as b".to_string()).message(),
        "expected @endforeach to close @foreach:a as b"
    );
    assert_eq!(
        ParseError::MissingEndmatch("v".to_string()).message(),
        "expected @endmatch to close @match:v"
    );
}

#[test]
fn placeholder_unwrapping() {
    assert_eq!(unwrap_placeholder("  {{ store.qr }} "), "store.qr");
    assert_eq!(unwrap_placeholder("store.qr"), "store.qr");
    assert_eq!(unwrap_placeholder("{{store.qr"), "{{store.qr");
    assert_eq!(unwrap_placeholder("{{}}"), "");
    assert_eq!(unwrap_placeholder("{{}"), "{{}");
}

#[test]
fn row_and_foreach_splitting() {
    assert_eq!(split_row(" a | b | c ").unwrap(), ("a".to_string(), "b | c".to_string()));
    assert_eq!(split_row("|").unwrap(), (String::new(), String::new()));
    assert!(matches!(split_row("abc"), Err(ParseError::InvalidRow(_))));
    assert_eq!(split_foreach(" items  as  item ").unwrap(), ("items".to_string(), "item".to_string()));
    assert!(matches!(split_foreach("a as b as c"), Err(ParseError::InvalidForeach(_))));
    assert!(matches!(split_foreach("a b"), Err(ParseError::InvalidForeach(_))));
    // Non-overlapping: " as as " splits into "" and "as ".
    assert_eq!(split_foreach(" as as ").unwrap(), (String::new(), "as".to_string()));
}

#[test]
fn terminators() {
    assert!(is_terminator("@case:x", &["@case:", "@endmatch"]));
    assert!(is_terminator("@endmatch", &["@case:", "@endmatch"]));
    assert!(!is_terminator("@endmatch2", &["@case:", "@endmatch"]));
    assert!(is_terminator("@else", &["@else", "@endif"]));
    assert!(!is_terminator("@elsewhere", &["@else", "@endif"]));
    assert!(!is_terminator("@else", &[]));
}
