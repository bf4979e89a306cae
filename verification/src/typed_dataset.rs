//! The fact table and the enrichment join.
//!
//! A fact row carries three coded fields and two optional metrics. The join
//! resolves each code against its lookup table and produces a fully-labeled
//! row. The join is fail-fast: a code with no matching entry aborts the whole
//! dataset with `MissingReference`, naming the code and the table — no row is
//! ever silently dropped.

use vstd::prelude::*;

use crate::decode::Metric;
use crate::error::PipelineError;
use crate::simple;
use crate::simple::find_entry;
use crate::simple::first_with_key;

verus! {

/// One fetched fact table: the metadata URL of the response and its rows.
pub struct TypedDataset {
    pub metadata_url: String,
    pub data: Vec<Value>,
}

/// One fact row before the join: an identifier, three coded fields, and two
/// optional metrics (participation in traffic, use of public transport).
#[derive(Debug)]
pub struct Value {
    pub id: usize,
    pub geslacht: String,
    pub persoonskenmerken: String,
    pub perioden: String,
    pub verkeersdeelname: Option<Metric>,
    pub gebruik_openbaar_vervoer: Option<Metric>,
}

/// One fully-labeled row after the join: each coded field replaced by its
/// lookup entry, metrics carried over unchanged.
#[derive(Debug)]
pub struct DataRow {
    pub id: usize,
    pub geslacht: simple::Value,
    pub persoonskenmerken: simple::Value,
    pub perioden: simple::Value,
    pub verkeersdeelname: Option<Metric>,
    pub gebruik_openbaar_vervoer: Option<Metric>,
}

impl DataRow {
    /// Both metrics of the row, where present, are within the decoder's
    /// fixed-point bound.
    pub open spec fn metrics_wf(&self) -> bool {
        &&& match self.verkeersdeelname {
            Some(m) => m.wf(),
            None => true,
        }
        &&& match self.gebruik_openbaar_vervoer {
            Some(m) => m.wf(),
            None => true,
        }
    }
}

/// Whether all three codes of `fact` resolve against their tables.
pub open spec fn fact_resolvable(
    fact: Value,
    geslacht: Seq<simple::Value>,
    persoonskenmerken: Seq<simple::Value>,
    perioden: Seq<simple::Value>,
) -> bool {
    &&& first_with_key(geslacht, fact.geslacht@) is Some
    &&& first_with_key(persoonskenmerken, fact.persoonskenmerken@) is Some
    &&& first_with_key(perioden, fact.perioden@) is Some
}

/// Whether `row` is the enrichment of `fact` against the three tables: the
/// identifier and the metrics carried over, each coded field replaced by the
/// first entry of its table with that key.
pub open spec fn row_enriches(
    row: DataRow,
    fact: Value,
    geslacht: Seq<simple::Value>,
    persoonskenmerken: Seq<simple::Value>,
    perioden: Seq<simple::Value>,
) -> bool {
    &&& row.id == fact.id
    &&& first_with_key(geslacht, fact.geslacht@) == Some(row.geslacht)
    &&& first_with_key(persoonskenmerken, fact.persoonskenmerken@) == Some(
        row.persoonskenmerken,
    )
    &&& first_with_key(perioden, fact.perioden@) == Some(row.perioden)
    &&& row.verkeersdeelname == fact.verkeersdeelname
    &&& row.gebruik_openbaar_vervoer == fact.gebruik_openbaar_vervoer
}

/// Which code and which table a failed join reports: the first of the three
/// lookups (gender, person trait, period, in that order) that misses.
pub open spec fn missing_reference_for(
    fact: Value,
    geslacht: Seq<simple::Value>,
    persoonskenmerken: Seq<simple::Value>,
    perioden: Seq<simple::Value>,
    code: Seq<char>,
    table: Seq<char>,
) -> bool {
    if first_with_key(geslacht, fact.geslacht@) is None {
        code == fact.geslacht@ && table == "Geslacht"@
    } else if first_with_key(persoonskenmerken, fact.persoonskenmerken@) is None {
        code == fact.persoonskenmerken@ && table == "Persoonskenmerken"@
    } else {
        code == fact.perioden@ && table == "Perioden"@
    }
}

/// Join one fact row against the three lookup tables. Succeeds exactly when
/// all three codes resolve; a missing code fails with `MissingReference`
/// naming the first missing code and its table.
pub fn enrich_record(
    fact: &Value,
    geslacht: &simple::Simple,
    persoonskenmerken: &simple::Simple,
    perioden: &simple::Simple,
) -> (r: Result<DataRow, PipelineError>)
    ensures
        r is Ok <==> fact_resolvable(
            *fact,
            geslacht.data@,
            persoonskenmerken.data@,
            perioden.data@,
        ),
        r matches Ok(row) ==> row_enriches(
            row,
            *fact,
            geslacht.data@,
            persoonskenmerken.data@,
            perioden.data@,
        ),
        r matches Err(e) ==> e matches PipelineError::MissingReference { code, table }
            && missing_reference_for(
            *fact,
            geslacht.data@,
            persoonskenmerken.data@,
            perioden.data@,
            code@,
            table@,
        ),
{
    let g = match find_entry(&geslacht.data, fact.geslacht.as_str()) {
        Some(e) => e.clone(),
        None => {
            return Err(
                PipelineError::MissingReference {
                    code: fact.geslacht.clone(),
                    table: "Geslacht".to_owned(),
                },
            );
        },
    };
    let p = match find_entry(&persoonskenmerken.data, fact.persoonskenmerken.as_str()) {
        Some(e) => e.clone(),
        None => {
            return Err(
                PipelineError::MissingReference {
                    code: fact.persoonskenmerken.clone(),
                    table: "Persoonskenmerken".to_owned(),
                },
            );
        },
    };
    let per = match find_entry(&perioden.data, fact.perioden.as_str()) {
        Some(e) => e.clone(),
        None => {
            return Err(
                PipelineError::MissingReference {
                    code: fact.perioden.clone(),
                    table: "Perioden".to_owned(),
                },
            );
        },
    };
    Ok(
        DataRow {
            id: fact.id,
            geslacht: g,
            persoonskenmerken: p,
            perioden: per,
            verkeersdeelname: fact.verkeersdeelname,
            gebruik_openbaar_vervoer: fact.gebruik_openbaar_vervoer,
        },
    )
}

/// Join every fact row of a dataset against the three lookup tables.
/// Succeeds exactly when every row resolves, with one enriched row per fact
/// row in order; otherwise fails with the error of the first unresolvable
/// row, and rows after it are not inspected.
pub fn enrich_all(
    dataset: &TypedDataset,
    geslacht: &simple::Simple,
    persoonskenmerken: &simple::Simple,
    perioden: &simple::Simple,
) -> (r: Result<Vec<DataRow>, PipelineError>)
    ensures
        r is Ok <==> (forall|i: int|
            0 <= i < dataset.data@.len() ==> fact_resolvable(
                #[trigger] dataset.data@[i],
                geslacht.data@,
                persoonskenmerken.data@,
                perioden.data@,
            )),
        r matches Ok(rows) ==> rows@.len() == dataset.data@.len() && (forall|i: int|
            0 <= i < dataset.data@.len() ==> row_enriches(
                #[trigger] rows@[i],
                dataset.data@[i],
                geslacht.data@,
                persoonskenmerken.data@,
                perioden.data@,
            )),
        r matches Err(e) ==> e matches PipelineError::MissingReference { code, table } && (exists|
            k: int,
        |
            {
                &&& 0 <= k < dataset.data@.len()
                &&& !fact_resolvable(
                    #[trigger] dataset.data@[k],
                    geslacht.data@,
                    persoonskenmerken.data@,
                    perioden.data@,
                )
                &&& forall|j: int|
                    0 <= j < k ==> fact_resolvable(
                        #[trigger] dataset.data@[j],
                        geslacht.data@,
                        persoonskenmerken.data@,
                        perioden.data@,
                    )
                &&& missing_reference_for(
                    dataset.data@[k],
                    geslacht.data@,
                    persoonskenmerken.data@,
                    perioden.data@,
                    code@,
                    table@,
                )
            }),
{
    let mut rows: Vec<DataRow> = Vec::new();
    let mut i: usize = 0;
    while i < dataset.data.len()
        invariant
            0 <= i <= dataset.data@.len(),
            rows@.len() == i,
            forall|j: int|
                0 <= j < i ==> fact_resolvable(
                    #[trigger] dataset.data@[j],
                    geslacht.data@,
                    persoonskenmerken.data@,
                    perioden.data@,
                ),
            forall|j: int|
                0 <= j < i ==> row_enriches(
                    #[trigger] rows@[j],
                    dataset.data@[j],
                    geslacht.data@,
                    persoonskenmerken.data@,
                    perioden.data@,
                ),
        decreases dataset.data@.len() - i,
    {
        match enrich_record(&dataset.data[i], geslacht, persoonskenmerken, perioden) {
            Ok(row) => {
                rows.push(row);
            },
            Err(e) => {
                proof {
                    assert(!fact_resolvable(
                        dataset.data@[i as int],
                        geslacht.data@,
                        persoonskenmerken.data@,
                        perioden.data@,
                    ));
                }
                return Err(e);
            },
        }
        i = i + 1;
    }
    Ok(rows)
}

} // verus!
