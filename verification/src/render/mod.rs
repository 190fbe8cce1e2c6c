pub mod escpos;

pub mod qr;
