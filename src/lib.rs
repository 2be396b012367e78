//! Extraction of after-hours price changes from a rendered market page.
//!
//! The page arrives as a [`DomNode`] tree. Query helpers search it in
//! document order, a fixed-point parser reads the displayed percentages,
//! and the extractors turn the movers table and the S&P fragment into one
//! batch of records that share a single capture time.

pub mod dom;
pub mod query;
pub mod percent;
pub mod extract;

pub use dom::{DomNode, Query};
pub use query::{find_first, find_by_tag, find_by_class, find_by_text, find_by_text_containing};
pub use percent::{Percentage, ParseError, parse_percentage};
pub use extract::{
    Timestamp, Field, ExtractionError, LoserPolicy, Quote, AfterMarketPriceData, extract_movers,
    get_after_market_ticker_data, get_standard_and_poors_ticker_data, assemble,
    scrape_cnn_after_market_datasource,
};
