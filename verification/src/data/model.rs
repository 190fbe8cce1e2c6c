//! Receipt data records (the parts that carry no prices).
use vstd::prelude::*;

verus! {

/// The store that issued the receipt.
#[derive(Debug)]
pub struct StoreInfo {
    pub name: String,
    pub address: Option<String>,
    pub phone: Option<String>,
    pub business_number: Option<String>,
    pub owner_name: Option<String>,
    pub website: Option<String>,
    pub logo_text: Option<String>,
    /// Path to a logo image file, resolved relative to the data file's directory.
    pub logo_path: Option<String>,
    /// Content string to encode as a QR code (e.g. store website or menu link).
    pub qr_content: Option<String>,
}

/// Receipt header details; every field may be absent.
#[derive(Debug)]
pub struct ReceiptMeta {
    pub receipt_number: Option<String>,
    pub timestamp: Option<String>,
    pub cashier: Option<String>,
    pub order_type: Option<String>,
    pub table_number: Option<String>,
}

impl Default for ReceiptMeta {
    fn default() -> (m: Self)
        ensures
            m.receipt_number is None,
            m.timestamp is None,
            m.cashier is None,
            m.order_type is None,
            m.table_number is None,
    {
        ReceiptMeta {
            receipt_number: None,
            timestamp: None,
            cashier: None,
            order_type: None,
            table_number: None,
        }
    }
}

/// How an item line is to be formatted.
#[derive(Debug, Clone, Copy, PartialEq, Eq)]
pub enum ItemType {
    Normal,
    Bundle,
    Discount,
}

impl Default for ItemType {
    fn default() -> (t: Self)
        ensures
            t == ItemType::Normal,
    {
        ItemType::Normal
    }
}

} // verus!
