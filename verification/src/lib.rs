//! Verified core logic of the Tectonic typesetting engine: binary number
//! decoding for font and DVI files, TrueType glyph-table bookkeeping, the
//! `post` table, CMap output helpers, PDF name trees and resource ids,
//! dvips specials, XeTeX node memory, and the string and name handling of
//! BibTeX.
#![allow(non_snake_case)]
#![allow(non_camel_case_types)]

pub mod numbers;
pub mod tt_glyf;
pub mod tt_post;
pub mod tt_metrics;
pub mod tt_build;
pub mod node_mem;
pub mod node;
pub mod xdvipdfmx;
pub mod dvips;
pub mod pdfresource;
pub mod pdfnames;
pub mod cmap_write;
pub mod type1;
pub mod bibtex;
pub mod xetex_errors;
