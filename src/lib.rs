//! Environmental monitoring for a cave: a time-series store of sensor readings, the
//! polling state machine that feeds it, the threshold rules that drive output pins,
//! and the planning of charts over the stored series.
//!
//! Values are fixed-point integers: temperatures in hundredths of a degree
//! Fahrenheit, humidities in hundredths of a percent, timestamps in seconds since the
//! epoch.

pub mod chart;
pub mod poller;
pub mod query;
pub mod rules;
pub mod sample;
pub mod store;
