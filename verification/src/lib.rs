//! Extraction of System Area Code assignments from the markup of the page
//! that lists them, region by region.

pub mod area;
pub mod error;
pub mod order;
pub mod output;
pub mod page;
pub mod parse;
pub mod range;
pub mod sac;
pub mod sanitize;
pub mod scrape;
pub mod shapes;
pub mod text;
pub mod version;

pub use area::Area;
pub use error::{GrammarError, ScrapeError, SerializationError};
pub use output::{prepare_data, to_csv, to_text};
pub use page::Page;
pub use parse::{parse_span, parse_tr};
pub use sac::SAC;
pub use scrape::{parse_header, scrape_data};
pub use version::version;
