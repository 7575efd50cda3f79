// Bill-of-materials reconciliation: decoding of resistor value strings into
// ohms, and resolution of BOM rows whose name lists several components against
// the board's placement data.

pub mod components;
pub mod decode;
pub mod parse;
pub mod text;
