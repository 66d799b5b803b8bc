use dataset::{Dataset, Kind, RandomState, SplitSize, Value, ValueVec};

fn build(name: &str, header: &[&str], rows: &[&[&str]], train: bool) -> Dataset {
    let header: Vec<String> = header.iter().map(|s| s.to_string()).collect();
    let rows: Vec<Vec<String>> = rows
        .iter()
        .map(|r| r.iter().map(|s| s.to_string()).collect())
        .collect();
    Dataset::from_records(name.to_string(), header, rows, train)
}

fn int_col(d: &Dataset, c: usize) -> Vec<Option<i64>> {
    match &d.data[c] {
        ValueVec::Int(v) => v.clone(),
        _ => panic!("expected an Int column"),
    }
}

fn float_col(d: &Dataset, c: usize) -> Vec<Option<String>> {
    match &d.data[c] {
        ValueVec::Float(v) => v.clone(),
        _ => panic!("expected a Float column"),
    }
}

fn str_col(d: &Dataset, c: usize) -> Vec<Option<String>> {
    match &d.data[c] {
        ValueVec::Str(v) => v.clone(),
        _ => panic!("expected a Str column"),
    }
}

#[test]
fn scenario_infers_schema() {
    let d = build(
        "t",
        &["a", "b", "c"],
        &[&["1", "2.5", "x"], &["3", "", "y"], &["", "4.1", "z"]],
        true,
    );
    assert_eq!(d.schema.len(), 3);
    assert_eq!(d.schema[0], ("a".to_string(), Kind::Int));
    assert_eq!(d.schema[1], ("b".to_string(), Kind::Float));
    assert_eq!(d.schema[2], ("c".to_string(), Kind::Str));
    assert_eq!(d.len(), 3);
    assert_eq!(int_col(&d, 0), vec![Some(1), Some(3), None]);
    assert_eq!(
        float_col(&d, 1),
        vec![Some("2.5".to_string()), None, Some("4.1".to_string())]
    );
    assert_eq!(
        str_col(&d, 2),
        vec![
            Some("x".to_string()),
            Some("y".to_string()),
            Some("z".to_string())
        ]
    );
}

#[test]
fn scenario_remove_nones_keeps_single_full_row() {
    let mut d = build(
        "t",
        &["a", "b", "c"],
        &[&["1", "2.5", "x"], &["3", "", "y"], &["", "4.1", "z"]],
        true,
    );
    d.remove_nones();
    assert_eq!(d.len(), 1);
    assert_eq!(int_col(&d, 0), vec![Some(1)]);
    assert_eq!(float_col(&d, 1), vec![Some("2.5".to_string())]);
    assert_eq!(str_col(&d, 2), vec![Some("x".to_string())]);
}

#[test]
fn scenario_split_of_single_row_keeps_it_in_train() {
    let mut d = build(
        "t",
        &["a", "b", "c"],
        &[&["1", "2.5", "x"], &["3", "", "y"], &["", "4.1", "z"]],
        true,
    );
    d.remove_nones();
    let mut rs = RandomState::new(rand::thread_rng());
    let (train, test) = d.split(None, None, &mut rs);
    assert_eq!(train.len(), 1);
    assert_eq!(test.len(), 0);
    assert_eq!(int_col(&train, 0), vec![Some(1)]);
}

#[test]
fn widening_never_moves_backward() {
    let d1 = build("t", &["a"], &[&["1"]], true);
    assert_eq!(d1.schema[0].1, Kind::Int);
    let d2 = build("t", &["a"], &[&["1"], &["2.5"]], true);
    assert_eq!(d2.schema[0].1, Kind::Float);
    let d3 = build("t", &["a"], &[&["1"], &["2.5"], &["x"]], true);
    assert_eq!(d3.schema[0].1, Kind::Str);
    let d4 = build("t", &["a"], &[&["x"], &["1"], &["2"]], true);
    assert_eq!(d4.schema[0].1, Kind::Str);
}

#[test]
fn widening_is_order_independent() {
    let perms: [&[&str]; 3] = [
        &["1", "2.5", ""],
        &["2.5", "", "1"],
        &["", "1", "2.5"],
    ];
    for p in perms {
        let rows: Vec<&[&str]> = p.iter().map(std::slice::from_ref).collect();
        let d = build("t", &["a"], &rows, true);
        assert_eq!(d.schema[0].1, Kind::Float);
    }
}

#[test]
fn all_empty_column_defaults_to_str() {
    let d = build("t", &["a"], &[&[""], &[""]], true);
    assert_eq!(d.schema[0].1, Kind::Str);
    assert_eq!(str_col(&d, 0), vec![None, None]);
}

#[test]
fn round_trip_int_values_are_exact() {
    let d = build(
        "t",
        &["a"],
        &[
            &["7"],
            &[""],
            &["+42"],
            &["007"],
            &["-9223372036854775808"],
            &["9223372036854775807"],
        ],
        true,
    );
    assert_eq!(d.schema[0].1, Kind::Int);
    assert_eq!(
        int_col(&d, 0),
        vec![
            Some(7),
            None,
            Some(42),
            Some(7),
            Some(i64::MIN),
            Some(i64::MAX)
        ]
    );
}

#[test]
fn integer_overflow_widens_to_float() {
    let d = build("t", &["a"], &[&["9223372036854775808"]], true);
    assert_eq!(d.schema[0].1, Kind::Float);
    assert_eq!(
        float_col(&d, 0),
        vec![Some("9223372036854775808".to_string())]
    );
}

#[test]
fn float_grammar_accepts_what_std_accepts() {
    for s in [
        "2.5", ".5", "5.", "1e3", "1E-3", "+2.5e-3", "inf", "NaN", "-Infinity", "3.e5",
    ] {
        assert!(dataset::parse::is_float_literal(s), "{s}");
        assert!(s.parse::<f64>().is_ok(), "{s}");
    }
    for s in [
        "", " 1", "1.2.3", "e5", "1e", "1e+", "--1", "0x10", "1_000", "nan0", "infx",
    ] {
        assert!(!dataset::parse::is_float_literal(s), "{s}");
        assert!(s.parse::<f64>().is_err(), "{s}");
    }
}

#[test]
fn int_parser_matches_std() {
    for s in [
        "0",
        "7",
        "+42",
        "007",
        "-13",
        "9223372036854775807",
        "-9223372036854775808",
        "9223372036854775808",
        "-9223372036854775809",
        "",
        "+",
        "-",
        " 1",
        "1.0",
        "abc",
        "99999999999999999999999999",
    ] {
        assert_eq!(dataset::parse::parse_i64(s), s.parse::<i64>().ok(), "{s}");
    }
}

#[test]
fn remove_nones_length_counts_full_rows() {
    let mut d = build(
        "t",
        &["a", "b"],
        &[
            &["1", "x"],
            &["", "y"],
            &["3", ""],
            &["4", "w"],
            &["", ""],
        ],
        true,
    );
    d.remove_nones();
    assert_eq!(d.len(), 2);
    assert_eq!(int_col(&d, 0), vec![Some(1), Some(4)]);
    assert_eq!(
        str_col(&d, 1),
        vec![Some("x".to_string()), Some("w".to_string())]
    );
}

fn id_dataset(n: i64) -> Dataset {
    let header: Vec<String> = vec!["id".to_string(), "copy".to_string()];
    let rows: Vec<Vec<String>> = (0..n)
        .map(|i| vec![i.to_string(), i.to_string()])
        .collect();
    Dataset::from_records("ids".to_string(), header, rows, true)
}

#[test]
fn split_conserves_rows() {
    let d = id_dataset(10);
    let mut rs = RandomState::new(rand::thread_rng());
    let (train, test) = d.split(Some(SplitSize::Count(3)), None, &mut rs);
    assert_eq!(train.len(), 7);
    assert_eq!(test.len(), 3);
    let mut all: Vec<Option<i64>> = int_col(&train, 0);
    all.extend(int_col(&test, 0));
    let mut got: Vec<i64> = all.into_iter().map(|x| x.unwrap()).collect();
    got.sort();
    let want: Vec<i64> = (0..10).collect();
    assert_eq!(got, want);
}

#[test]
fn split_keeps_columns_aligned() {
    let d = id_dataset(20);
    let mut rs = RandomState::new(rand::thread_rng());
    let (train, test) = d.split(Some(SplitSize::Frac(1, 4)), None, &mut rs);
    assert_eq!(train.len(), 15);
    assert_eq!(test.len(), 5);
    for part in [&train, &test] {
        let ids = int_col(part, 0);
        let copies = int_col(part, 1);
        assert_eq!(ids, copies);
    }
}

#[test]
fn split_sizes_follow_the_rules() {
    let mut rs = RandomState::new(rand::thread_rng());
    // A fraction below one is a share of the rows, rounded down.
    let (tr, te) = id_dataset(10).split(Some(SplitSize::Frac(3, 10)), None, &mut rs);
    assert_eq!((tr.len(), te.len()), (7, 3));
    // An absolute count is taken as is.
    let (tr, te) = id_dataset(10).split(Some(SplitSize::Count(4)), None, &mut rs);
    assert_eq!((tr.len(), te.len()), (6, 4));
    // A train size leaves the rest to the test set.
    let (tr, te) = id_dataset(10).split(None, Some(SplitSize::Frac(7, 10)), &mut rs);
    assert_eq!((tr.len(), te.len()), (7, 3));
    let (tr, te) = id_dataset(10).split(None, Some(SplitSize::Count(6)), &mut rs);
    assert_eq!((tr.len(), te.len()), (6, 4));
    // With neither given, three rows in ten go to the test set.
    let (tr, te) = id_dataset(10).split(None, None, &mut rs);
    assert_eq!((tr.len(), te.len()), (7, 3));
    // The default on a single row keeps it in the train set.
    let (tr, te) = id_dataset(1).split(None, None, &mut rs);
    assert_eq!((tr.len(), te.len()), (1, 0));
}

#[test]
fn split_names_and_flags() {
    let d = id_dataset(4);
    let mut rs = RandomState::new(rand::thread_rng());
    let (train, test) = d.split(None, None, &mut rs);
    assert_eq!(train.name, "ids_train");
    assert_eq!(test.name, "ids_test");
    assert!(train.train);
    assert!(!test.train);
    assert!(train.has_target);
    assert!(test.has_target);
    assert_eq!(train.schema, test.schema);
}

#[test]
fn target_promotion_moves_named_column_last() {
    let mut d = build(
        "t",
        &["x", "y", "z"],
        &[&["1", "10", "a"], &["2", "20", "b"]],
        true,
    );
    d.set_target("y");
    assert_eq!(d.schema[2].0, "y");
    assert_eq!(d.schema[2].1, Kind::Int);
    match d.target() {
        ValueVec::Int(v) => assert_eq!(v, vec![Some(10), Some(20)]),
        _ => panic!("expected an Int target"),
    }
    // The remaining columns keep their data under their names.
    assert_eq!(d.schema[0].0, "x");
    assert_eq!(d.schema[1].0, "z");
    assert_eq!(int_col(&d, 0), vec![Some(1), Some(2)]);
}

#[test]
fn target_promotion_ignores_unknown_names() {
    let mut d = build("t", &["x", "y"], &[&["1", "2"]], true);
    let schema_before = d.schema.clone();
    d.set_target("missing");
    assert_eq!(d.schema, schema_before);
}

#[test]
fn target_promotion_needs_a_target_concept() {
    let mut d = build("t", &["x", "y"], &[&["1", "2"]], false);
    assert!(!d.has_target);
    let schema_before = d.schema.clone();
    d.set_target("x");
    assert_eq!(d.schema, schema_before);
}

#[test]
fn push_projects_mismatched_kinds_to_null() {
    let mut col = ValueVec::new(Kind::Int);
    col.push(Some(Value::Int(5)));
    col.push(Some(Value::Str("x".to_string())));
    col.push(None);
    match col {
        ValueVec::Int(v) => assert_eq!(v, vec![Some(5), None, None]),
        _ => panic!("expected an Int column"),
    }
}

#[test]
fn column_swap_and_split_off() {
    let mut col = ValueVec::new(Kind::Str);
    for s in ["a", "b", "c", "d"] {
        col.push(Some(Value::Str(s.to_string())));
    }
    col.swap(0, 3);
    let tail = col.split_off(2);
    match col {
        ValueVec::Str(v) => {
            assert_eq!(v, vec![Some("d".to_string()), Some("b".to_string())])
        }
        _ => panic!("expected a Str column"),
    }
    match tail {
        ValueVec::Str(v) => {
            assert_eq!(v, vec![Some("c".to_string()), Some("a".to_string())])
        }
        _ => panic!("expected a Str column"),
    }
}

#[test]
fn value_projections_match_tags() {
    assert_eq!(Value::Int(3).as_int(), Some(3));
    assert_eq!(Value::Int(3).as_float(), None);
    assert_eq!(Value::Int(3).as_str(), None);
    assert_eq!(Value::Float("2.5".to_string()).as_float(), Some("2.5".to_string()));
    assert_eq!(Value::Float("2.5".to_string()).as_int(), None);
    assert_eq!(Value::Str("x".to_string()).as_str(), Some("x".to_string()));
}

#[test]
fn cache_directory_name() {
    assert_eq!(dataset::files::cache(), "cache");
}
