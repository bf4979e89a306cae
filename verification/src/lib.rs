//! A verified data pipeline for open-data mobility statistics: it resolves
//! named resources from an OData-style index, decodes fact rows whose metric
//! fields use a textual missing-value marker, joins coded fields against
//! lookup tables, groups rows by year and computes per-category averages.
//!
//! Network fetches, JSON deserialization and chart rendering live outside
//! this library; the library works on plain values handed in by its caller.

pub mod aggregate;
pub mod decode;
pub mod error;
pub mod simple;
pub mod typed_dataset;
pub mod urls;

use vstd::prelude::*;

verus! {

} // verus!
