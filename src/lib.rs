//! Utility-usage statistics: daily temperatures gathered from several weather
//! providers, and a sliding-window linear smoother for dated series.
//!
//! Dates are Julian day numbers. Amounts and temperatures are fixed-point
//! integers in a unit the caller chooses; smoothed values are exact fractions.
pub mod date;
pub mod regression;
pub mod measurement;
pub mod grapher;
pub mod tmpmgr;
pub mod cache;
pub mod config;
pub mod visual_crossing;
