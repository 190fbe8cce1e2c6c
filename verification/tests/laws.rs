use generate_receipt::document::model::{Alignment, DocumentElement, SizeMode};
use generate_receipt::render::escpos::render;
use generate_receipt::skin::lexer::tokenize;
use generate_receipt::skin::parser::parse;

#[test]
fn tokenize_of_joined_tokens_is_the_same() {
    let src = "  # title\n @bold:on \n\n\tHello {{a}}\r\n#x\n  @cut  \n";
    let once = tokenize(src);
    assert_eq!(tokenize(&once.join("\n")), once);
}

#[test]
fn tokenize_of_text_joined_by_newline_concatenates() {
    let a = " first \n# c\nsecond";
    let b = "  \nthird\n";
    let mut expected = tokenize(a);
    expected.extend(tokenize(b));
    assert_eq!(tokenize(&format!("{a}\n{b}")), expected);
    assert_eq!(tokenize(&format!("{}\n{}", "", "x")), vec!["x"]);
}

fn text(c: &str, align: Alignment, bold: bool, size: SizeMode, underline: bool) -> DocumentElement {
    DocumentElement::Text { content: c.to_string(), align, bold, size, underline }
}

#[test]
fn same_style_text_appends_only_its_line() {
    let doc = vec![
        DocumentElement::Divider,
        text("a", Alignment::Right, true, SizeMode::Double, false),
    ];
    let mut longer = doc.clone();
    longer.push(text("next", Alignment::Right, true, SizeMode::Double, false));
    let base = render(&doc, 20, 3, &[]).bytes;
    let mut expected = base.clone();
    expected.extend_from_slice(b"next   \n");
    assert_eq!(render(&longer, 20, 3, &[]).bytes, expected);
}

#[test]
fn missing_image_adds_nothing() {
    let doc = vec![text("a", Alignment::Left, false, SizeMode::Normal, false)];
    let mut longer = doc.clone();
    longer.push(DocumentElement::Image("missing.png".to_string()));
    let images = vec![("other.png".to_string(), vec![1u8, 2, 3])];
    assert_eq!(render(&longer, 32, 2, &images).bytes, render(&doc, 32, 2, &images).bytes);
}

#[test]
fn skin_nodes_clone_deeply() {
    let nodes = parse("@if:x\n@foreach:a as b\n{{b}}\n@endforeach\n@else\n@match:y\n@case:z\nq\n@endmatch\n@endif").unwrap();
    let copy = nodes[0].clone();
    assert_eq!(format!("{:?}", copy), format!("{:?}", nodes[0]));
}
