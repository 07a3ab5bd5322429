//! pinto: the decisions of an HTML/CSS to PDF renderer for Frappe print formats,
//! verified with Verus. Stylesheets, selectors and the cascade; property values;
//! page sizes and options; request interception and asset paths; images; the
//! header/footer page and the page-numbering script; the page plan of the merged PDF.
pub mod browser;
pub mod cascade;
pub mod css;
pub mod html;
pub mod image;
pub mod layout;
pub mod merge;
pub mod number;
pub mod options;
pub mod page;
pub mod style;
pub mod text;
pub mod values;
