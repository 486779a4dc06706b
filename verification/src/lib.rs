//! The core of a viewer for the traces of distributed programs.
//!
//! Every process of a run writes a log of the calls it made. [`data`] merges
//! the logs into one timeline, sorted by time ([`sort`]), after [`schema`]
//! and [`decimal`] have turned their rows into [`event`]s. [`viewport`] holds
//! the region of the timeline that is on screen and the rules by which it
//! zooms, pans and plays; [`ruler`] spaces the gridlines of its time axis and
//! [`timeline`] places the events in it. [`window`] finds the events around an
//! instant, [`bandwidth`] adds up the bytes that they moved between each pair
//! of processes, and [`encoding`] and [`color`] say how all of it is drawn.
//!
//! Times are whole nanoseconds and lengths on screen are thousandths of a
//! pixel: nothing in here is floating point.

pub mod arith;
pub mod bandwidth;
pub mod color;
pub mod csv_rows;
pub mod data;
pub mod decimal;
pub mod encoding;
pub mod event;
pub mod ruler;
pub mod schema;
pub mod sort;
pub mod timeline;
pub mod tooltip;
pub mod viewport;
pub mod window;
