//! The printable document: a flat list of styled elements.
use vstd::prelude::*;

verus! {

/// Horizontal alignment of a printed line.
#[derive(Debug, Clone, Copy, PartialEq, Eq)]
pub enum Alignment {
    Left,
    Center,
    Right,
}

/// Character size of a printed line.
#[derive(Debug, Clone, Copy, PartialEq, Eq)]
pub enum SizeMode {
    Normal,
    Double,
}

/// One element of a receipt document.
#[derive(Debug, Clone)]
pub enum DocumentElement {
    Text { content: String, align: Alignment, bold: bool, size: SizeMode, underline: bool },
    Divider,
    Blank,
    /// Resolved file path to an image to embed.
    Image(String),
    /// Resolved string content to encode as a QR code.
    Qr(String),
    /// Two-column single line: left label, right value, dot-leader filled
    /// between them to span the full printable width.
    Row { left: String, right: String, bold: bool },
    Cut,
    /// Explicit alignment change. Emitted for every @align directive so the
    /// printer's justification state stays in sync even when it isn't
    /// immediately followed by a Text element (e.g. before a Divider, Image,
    /// or Qr element).
    Align(Alignment),
}

/// A receipt document: its elements in print order.
pub type ReceiptDocument = Vec<DocumentElement>;

/// Mathematical model of a [`DocumentElement`].
pub enum ElementModel {
    Text { content: Seq<char>, align: Alignment, bold: bool, size: SizeMode, underline: bool },
    Divider,
    Blank,
    Image(Seq<char>),
    Qr(Seq<char>),
    Row { left: Seq<char>, right: Seq<char>, bold: bool },
    Cut,
    Align(Alignment),
}

impl View for DocumentElement {
    type V = ElementModel;

    open spec fn view(&self) -> ElementModel {
        match self {
            DocumentElement::Text { content, align, bold, size, underline } => ElementModel::Text {
                content: content@,
                align: *align,
                bold: *bold,
                size: *size,
                underline: *underline,
            },
            DocumentElement::Divider => ElementModel::Divider,
            DocumentElement::Blank => ElementModel::Blank,
            DocumentElement::Image(p) => ElementModel::Image(p@),
            DocumentElement::Qr(c) => ElementModel::Qr(c@),
            DocumentElement::Row { left, right, bold } => ElementModel::Row {
                left: left@,
                right: right@,
                bold: *bold,
            },
            DocumentElement::Cut => ElementModel::Cut,
            DocumentElement::Align(a) => ElementModel::Align(*a),
        }
    }
}

/// The model of a document, element by element.
pub open spec fn doc_model(d: Seq<DocumentElement>) -> Seq<ElementModel> {
    d.map_values(|e: DocumentElement| e@)
}

} // verus!
