//! Verified report computations over the market data files that AEMO publishes
//! for the Victorian gas market and the national electricity market.

pub mod text;
pub mod decimal;
pub mod order;
pub mod datetime;
pub mod aggregate;
pub mod gas;
pub mod price;
pub mod archive;
pub mod listing;
pub mod nem;
pub mod nem_laws;
