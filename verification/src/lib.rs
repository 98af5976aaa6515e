//! Fors compiler data structures: the type and signature universe (`fir`),
//! the function-level IR with its canonical encoding and structural verifier
//! (`fmir`), and the formatter's layout renderer and line diff (`fmt`).

pub mod index;
pub mod fir;
pub mod fmir;
pub mod fmt;
