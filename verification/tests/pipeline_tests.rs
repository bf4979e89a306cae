use ov_mobility::aggregate::{
    average_for, group_by_year, parse_year, row_matches, series_for, sorted_unique, year_label,
    RowFilter,
};
use ov_mobility::decode::Metric;
use ov_mobility::error::PipelineError;
use ov_mobility::simple;
use ov_mobility::typed_dataset::{enrich_all, enrich_record, DataRow, TypedDataset, Value as Fact};
use ov_mobility::urls;

fn entry(key: &str, title: &str) -> simple::Value {
    simple::Value { key: String::from(key), title: String::from(title), description: None }
}

fn table(entries: Vec<simple::Value>) -> simple::Simple {
    simple::Simple { metadata_url: String::from("meta"), data: entries }
}

fn fact(id: usize, g: &str, p: &str, per: &str, ov: Option<i64>) -> Fact {
    Fact {
        id,
        geslacht: String::from(g),
        persoonskenmerken: String::from(p),
        perioden: String::from(per),
        verkeersdeelname: None,
        gebruik_openbaar_vervoer: ov.map(|m| Metric { milli: m }),
    }
}

fn gender_table() -> simple::Simple {
    table(vec![entry("3000", "Mannen"), entry("4000", "Vrouwen")])
}

fn trait_table() -> simple::Simple {
    table(vec![entry("T001", "Leeftijd: 12 tot 18 jaar"), entry("T002", "Leeftijd: 18 tot 25 jaar")])
}

fn period_table() -> simple::Simple {
    table(vec![entry("2015JJ00", "2015"), entry("2016JJ00", "2016")])
}

fn row(g_title: &str, p_title: &str, year_title: &str, ov: Option<i64>) -> DataRow {
    DataRow {
        id: 0,
        geslacht: entry("g", g_title),
        persoonskenmerken: entry("p", p_title),
        perioden: entry("y", year_title),
        verkeersdeelname: None,
        gebruik_openbaar_vervoer: ov.map(|m| Metric { milli: m }),
    }
}

#[test]
fn resolve_url_finds_named_entry() {
    let index = urls::Urls {
        metadata_url: String::from("meta"),
        data: vec![
            urls::Value { name: String::from("Geslacht"), url: String::from("http://host/g") },
            urls::Value { name: String::from("TypedDataSet"), url: String::from("http://host/t") },
        ],
    };
    assert_eq!(index.resolve_url("TypedDataSet").unwrap(), "http://host/t");
    match index.resolve_url("Perioden") {
        Err(PipelineError::NotFound(n)) => assert_eq!(n, "Perioden"),
        _ => panic!("expected NotFound"),
    }
}

#[test]
fn enrich_substitutes_labels() {
    let f = fact(7, "3000", "T002", "2015JJ00", Some(12_300));
    let row = enrich_record(&f, &gender_table(), &trait_table(), &period_table()).unwrap();
    assert_eq!(row.id, 7);
    assert_eq!(row.geslacht.title, "Mannen");
    assert_eq!(row.persoonskenmerken.title, "Leeftijd: 18 tot 25 jaar");
    assert_eq!(row.perioden.title, "2015");
    assert_eq!(row.gebruik_openbaar_vervoer, Some(Metric { milli: 12_300 }));
}

#[test]
fn enrich_fails_fast_on_missing_gender_code() {
    let f = fact(1, "9999", "T001", "2015JJ00", None);
    match enrich_record(&f, &gender_table(), &trait_table(), &period_table()) {
        Err(PipelineError::MissingReference { code, table }) => {
            assert_eq!(code, "9999");
            assert_eq!(table, "Geslacht");
        },
        _ => panic!("expected MissingReference"),
    }
}

#[test]
fn enrich_names_the_failing_table() {
    let f = fact(1, "3000", "XXXX", "2015JJ00", None);
    match enrich_record(&f, &gender_table(), &trait_table(), &period_table()) {
        Err(PipelineError::MissingReference { code, table }) => {
            assert_eq!(code, "XXXX");
            assert_eq!(table, "Persoonskenmerken");
        },
        _ => panic!("expected MissingReference"),
    }
    let f = fact(1, "3000", "T001", "1999XX00", None);
    match enrich_record(&f, &gender_table(), &trait_table(), &period_table()) {
        Err(PipelineError::MissingReference { code, table }) => {
            assert_eq!(code, "1999XX00");
            assert_eq!(table, "Perioden");
        },
        _ => panic!("expected MissingReference"),
    }
}

#[test]
fn enrich_all_never_drops_a_row() {
    let ds = TypedDataset {
        metadata_url: String::from("meta"),
        data: vec![
            fact(1, "3000", "T001", "2015JJ00", Some(10_000)),
            fact(2, "9999", "T001", "2015JJ00", Some(20_000)),
            fact(3, "4000", "T001", "2016JJ00", Some(30_000)),
        ],
    };
    // The second row's gender code is unresolvable: the whole dataset fails.
    match enrich_all(&ds, &gender_table(), &trait_table(), &period_table()) {
        Err(PipelineError::MissingReference { code, table }) => {
            assert_eq!(code, "9999");
            assert_eq!(table, "Geslacht");
        },
        _ => panic!("expected MissingReference"),
    }
}

#[test]
fn parse_year_accepts_digits_only() {
    assert_eq!(parse_year("2015"), Some(2015));
    assert_eq!(parse_year("0"), Some(0));
    assert_eq!(parse_year("4294967295"), Some(4_294_967_295));
    assert_eq!(parse_year("4294967296"), None);
    assert_eq!(parse_year(""), None);
    assert_eq!(parse_year("20x5"), None);
    assert_eq!(parse_year("-2015"), None);
}

#[test]
fn years_sorted_ascending_regardless_of_order() {
    let a = sorted_unique(&vec![2017, 2015, 2016, 2015]);
    assert_eq!(a, vec![2015, 2016, 2017]);
    let b = sorted_unique(&vec![2015, 2016, 2015, 2017]);
    assert_eq!(a, b);
}

#[test]
fn year_labels_render_as_decimal_strings() {
    assert_eq!(year_label(2015), "2015");
    assert_eq!(year_label(0), "0");
    assert_eq!(year_label(10), "10");
    assert_eq!(year_label(4_294_967_295), "4294967295");

    let rows = vec![row("Mannen", "x", "2016", None), row("Mannen", "x", "2015", None)];
    let buckets = group_by_year(&rows).unwrap();
    assert_eq!(buckets.year_labels(), vec!["2015", "2016"]);
}

#[test]
fn error_kinds_name_the_taxonomy() {
    let index = urls::Urls { metadata_url: String::from("meta"), data: vec![] };
    let err = index.resolve_url("TypedDataSet").unwrap_err();
    assert_eq!(err.kind(), "not found");
    let f = fact(1, "9999", "T001", "2015JJ00", None);
    let err = enrich_record(&f, &gender_table(), &trait_table(), &period_table()).unwrap_err();
    assert_eq!(err.kind(), "missing reference");
}

#[test]
fn group_by_year_rejects_unparsable_label() {
    let rows = vec![row("Mannen", "x", "2015", None), row("Mannen", "x", "geen jaar", None)];
    match group_by_year(&rows) {
        Err(PipelineError::InvalidYear(t)) => assert_eq!(t, "geen jaar"),
        _ => panic!("expected InvalidYear"),
    }
}

#[test]
fn average_per_gender_in_one_bucket() {
    let rows = vec![
        row("Mannen", "x", "2015", Some(10_000)),
        row("Vrouwen", "x", "2015", Some(20_000)),
    ];
    let buckets = group_by_year(&rows).unwrap();
    assert_eq!(buckets.years_sorted(), vec![2015]);
    let members = &buckets.groups[0].members;

    let men = average_for(&rows, members, &RowFilter::GenderTitleIs(String::from("Mannen")))
        .unwrap();
    assert_eq!(men.sum_milli, 10_000);
    assert_eq!(men.count, 1);

    let women = average_for(&rows, members, &RowFilter::GenderTitleIs(String::from("Vrouwen")))
        .unwrap();
    assert_eq!(women.sum_milli, 20_000);
    assert_eq!(women.count, 1);

    // No matching row: an explicit missing point, not a number.
    let none = average_for(&rows, members, &RowFilter::GenderTitleIs(String::from("Onzijdig")));
    assert!(none.is_none());
}

#[test]
fn absent_metric_excluded_from_average() {
    let rows = vec![row("Mannen", "x", "2015", None), row("Mannen", "x", "2015", Some(30_000))];
    let buckets = group_by_year(&rows).unwrap();
    let members = &buckets.groups[0].members;
    let m = average_for(&rows, members, &RowFilter::GenderTitleIs(String::from("Mannen")))
        .unwrap();
    // The average is 30.0 (one contributor), never 15.0 (two).
    assert_eq!(m.sum_milli, 30_000);
    assert_eq!(m.count, 1);
}

#[test]
fn trait_filter_matches_any_listed_title() {
    let r = row("Mannen", "Leeftijd: 12 tot 18 jaar", "2015", None);
    let f = RowFilter::TraitTitleAmong(vec![
        String::from("Actueel onderwijsniveau: laag"),
        String::from("Leeftijd: 12 tot 18 jaar"),
    ]);
    assert!(row_matches(&f, &r));
    let g = RowFilter::TraitTitleAmong(vec![String::from("Actueel onderwijsniveau: hoog")]);
    assert!(!row_matches(&g, &r));
}

#[test]
fn end_to_end_two_datasets() {
    // Two resource indexes, each resolving the four logical names.
    let names = ["TypedDataSet", "Geslacht", "Persoonskenmerken", "Perioden"];
    let mut indexes = Vec::new();
    for host in ["http://one", "http://two"] {
        let data = names
            .iter()
            .map(|n| urls::Value { name: String::from(*n), url: format!("{host}/{n}") })
            .collect::<Vec<_>>();
        indexes.push(urls::Urls { metadata_url: String::from("meta"), data });
    }

    let mut combined: Vec<DataRow> = Vec::new();
    for (di, index) in indexes.iter().enumerate() {
        for n in names {
            // Each name resolves to its mock URL; the fixture stands in for
            // the fetch.
            let url = index.resolve_url(n).unwrap();
            assert!(url.ends_with(n));
        }
        let ds = TypedDataset {
            metadata_url: String::from("meta"),
            data: vec![
                fact(di * 10, "3000", "T001", "2015JJ00", Some(10_000)),
                fact(di * 10 + 1, "4000", "T002", "2015JJ00", Some(20_000)),
                fact(di * 10 + 2, "3000", "T001", "2016JJ00", None),
            ],
        };
        let rows = enrich_all(&ds, &gender_table(), &trait_table(), &period_table()).unwrap();
        assert_eq!(rows.len(), 3);
        assert_eq!(rows[0].geslacht.title, "Mannen");
        assert_eq!(rows[1].geslacht.title, "Vrouwen");
        assert_eq!(rows[0].persoonskenmerken.title, "Leeftijd: 12 tot 18 jaar");
        assert_eq!(rows[1].persoonskenmerken.title, "Leeftijd: 18 tot 25 jaar");
        assert_eq!(rows[0].perioden.title, "2015");
        assert_eq!(rows[2].perioden.title, "2016");
        combined.extend(rows);
    }

    assert_eq!(combined.len(), 6);
    let buckets = group_by_year(&combined).unwrap();
    assert_eq!(buckets.years_sorted(), vec![2015, 2016]);
    assert_eq!(buckets.groups[0].members, vec![0, 1, 3, 4]);
    assert_eq!(buckets.groups[1].members, vec![2, 5]);

    // One series per gender across the two years.
    let men = series_for(&combined, &buckets, &RowFilter::GenderTitleIs(String::from("Mannen")));
    assert_eq!(men.len(), 2);
    let p0 = men[0].as_ref().unwrap();
    assert_eq!(p0.sum_milli, 20_000);
    assert_eq!(p0.count, 2);
    // 2016 has only the men's row with an absent metric: a missing point.
    assert!(men[1].is_none());
}
