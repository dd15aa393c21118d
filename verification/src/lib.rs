//! Fusiona dos pistas de subtítulos en un único archivo SRT, marcando cada
//! entrada con un código de posición vertical (superior o inferior).

pub mod codec;
pub mod fusion;
pub mod parser;
pub mod texto;
pub mod tipos;
