use grizzly::{Batch, CmpOp, DataFrame, DataType, Field, FrameError, Value};

fn field(name: &str, dtype: DataType) -> Field {
    Field::new(name.to_string(), dtype, true)
}

fn text(s: &str) -> Value {
    Value::Utf8(s.to_string())
}

fn float(x: f64) -> Value {
    Value::Float64(x.to_bits())
}

fn kv_batch(rows: &[(&str, i64)]) -> Batch {
    let keys = rows.iter().map(|r| text(r.0)).collect();
    let vals = rows.iter().map(|r| Value::Int64(r.1)).collect();
    Batch::try_new(vec![field("k", DataType::Utf8), field("v", DataType::Int64)], vec![keys, vals]).unwrap()
}

fn frame(batches: Vec<Batch>) -> DataFrame {
    DataFrame::from_batches(batches)
}

fn rows(d: &DataFrame) -> Vec<Vec<Value>> {
    let mut out = Vec::new();
    for b in &d.batches {
        for r in 0..b.num_rows {
            out.push(b.columns.iter().map(|c| c[r].clone()).collect());
        }
    }
    out
}

fn ints(d: &DataFrame, col: usize) -> Vec<Option<i64>> {
    rows(d)
        .iter()
        .map(|r| match r[col] {
            Value::Int64(i) => Some(i),
            _ => None,
        })
        .collect()
}

#[test]
fn batch_rejects_unequal_columns() {
    let r = Batch::try_new(
        vec![field("a", DataType::Int64), field("b", DataType::Int64)],
        vec![vec![Value::Int64(1)], vec![]],
    );
    assert_eq!(r.err(), Some(FrameError::SchemaMismatch));
    let r = Batch::try_new(vec![field("a", DataType::Int64)], vec![]);
    assert_eq!(r.err(), Some(FrameError::SchemaMismatch));
    let r = Batch::try_new(vec![field("a", DataType::Int64)], vec![vec![text("x")]]);
    assert_eq!(r.err(), Some(FrameError::SchemaMismatch));
}

#[test]
fn counts_and_shape() {
    let d = DataFrame::new();
    assert_eq!(d.shape(), (0, 0));
    let d = frame(vec![kv_batch(&[("x", 1), ("y", 2)]), kv_batch(&[("z", 3)])]);
    assert_eq!(d.row_count(), 3);
    assert_eq!(d.column_count(), 2);
    assert_eq!(d.shape(), (3, 2));
}

#[test]
fn head_spans_batches() {
    let d = frame(vec![kv_batch(&[("a", 1), ("b", 2), ("c", 3)]), kv_batch(&[("d", 4), ("e", 5), ("f", 6)])]);
    let h = d.head(Some(4));
    assert_eq!(h.batches.len(), 2);
    assert_eq!(h.batches[1].num_rows, 1);
    assert_eq!(ints(&h, 1), vec![Some(1), Some(2), Some(3), Some(4)]);
    let h = d.head(None);
    assert_eq!(h.row_count(), 5);
    assert_eq!(d.head(Some(0)).batches.len(), 0);
    assert_eq!(d.head(Some(100)).row_count(), 6);
}

#[test]
fn head_of_head_takes_the_smaller_count() {
    let d = frame(vec![kv_batch(&[("a", 1), ("b", 2)]), kv_batch(&[("c", 3), ("d", 4), ("e", 5)])]);
    for n in 0..7usize {
        for m in 0..7usize {
            let twice = d.head(Some(n)).head(Some(m));
            let once = d.head(Some(n.min(m)));
            assert_eq!(rows(&twice), rows(&once));
            assert_eq!(twice.batches.len(), once.batches.len());
        }
    }
}

#[test]
fn concat_appends_batches() {
    let a = frame(vec![kv_batch(&[("a", 1)])]);
    let b = frame(vec![kv_batch(&[("b", 2)]), kv_batch(&[("c", 3)])]);
    let c = a.concat(&b);
    assert_eq!(c.batches.len(), 3);
    assert_eq!(ints(&c, 1), vec![Some(1), Some(2), Some(3)]);
}

#[test]
fn filter_eq_matches_text_of_cells() {
    let d = frame(vec![kv_batch(&[("x", 1), ("y", 2), ("x", 3)]), kv_batch(&[("y", 4)])]);
    let f = d.filter_eq("k", "x").unwrap();
    assert_eq!(f.batches.len(), 1);
    assert_eq!(ints(&f, 1), vec![Some(1), Some(3)]);
    let f = d.filter_eq("v", "-3").unwrap();
    assert_eq!(f.row_count(), 0);
    let g = frame(vec![kv_batch(&[("x", -3)])]).filter_eq("v", "-3").unwrap();
    assert_eq!(g.row_count(), 1);
    assert_eq!(d.filter_eq("nope", "x").err(), Some(FrameError::UnknownColumn));
}

#[test]
fn filter_eq_is_idempotent() {
    let d = frame(vec![kv_batch(&[("x", 1), ("y", 2)]), kv_batch(&[("x", 3), ("x", 4)])]);
    let once = d.filter_eq("k", "x").unwrap();
    let twice = once.filter_eq("k", "x").unwrap();
    assert_eq!(rows(&once), rows(&twice));
    assert_eq!(once.batches.len(), twice.batches.len());
}

#[test]
fn filter_eq_formats_floats_bools_and_timestamps() {
    let b = Batch::try_new(
        vec![field("f", DataType::Float64), field("b", DataType::Boolean), field("t", DataType::TimestampMillis)],
        vec![
            vec![float(2.5), float(2.0), Value::Null],
            vec![Value::Boolean(true), Value::Boolean(false), Value::Null],
            vec![Value::TimestampMillis(0), Value::TimestampMillis(1), Value::Null],
        ],
    )
    .unwrap();
    let d = frame(vec![b]);
    assert_eq!(d.filter_eq("f", "2.5").unwrap().row_count(), 1);
    assert_eq!(d.filter_eq("f", "2.0").unwrap().row_count(), 1);
    assert_eq!(d.filter_eq("b", "false").unwrap().row_count(), 1);
    assert_eq!(d.filter_eq("t", "1970-01-01T00:00:00").unwrap().row_count(), 1);
    assert_eq!(d.filter_eq("t", "1970-01-01T00:00:00.001").unwrap().row_count(), 1);
}

#[test]
fn query_compares_by_column_type() {
    let b = Batch::try_new(
        vec![field("k", DataType::Utf8), field("v", DataType::Int64), field("f", DataType::Float64), field("b", DataType::Boolean)],
        vec![
            vec![text("x"), text("y"), text("z"), Value::Null],
            vec![Value::Int64(1), Value::Int64(2), Value::Int64(3), Value::Null],
            vec![float(0.5), float(2.5), float(f64::NAN), float(-1.0)],
            vec![Value::Boolean(true); 4],
        ],
    )
    .unwrap();
    let d = frame(vec![b]);
    assert_eq!(ints(&d.query("v < 3").unwrap(), 1), vec![Some(1), Some(2)]);
    assert_eq!(ints(&d.query("  v   >=  +2 ").unwrap(), 1), vec![Some(2), Some(3)]);
    assert_eq!(ints(&d.query("v != 2").unwrap(), 1), vec![Some(1), Some(3)]);
    assert_eq!(d.query("f >= 2.5").unwrap().row_count(), 1);
    assert_eq!(d.query("f < 1").unwrap().row_count(), 2);
    assert_eq!(d.query("f != 0.5").unwrap().row_count(), 3);
    assert_eq!(d.query("f == -0").unwrap().row_count(), 0);
    assert_eq!(ints(&d.query("k == y").unwrap(), 1), vec![Some(2)]);
    assert_eq!(d.query("k != y").unwrap().row_count(), 2);
    assert_eq!(d.query("k < y").err(), Some(FrameError::UnsupportedOperator));
    assert_eq!(d.query("v <> 1").err(), Some(FrameError::UnsupportedOperator));
    assert_eq!(d.query("v < abc").err(), Some(FrameError::InvalidLiteral));
    assert_eq!(d.query("v < 9223372036854775808").err(), Some(FrameError::InvalidLiteral));
    assert_eq!(d.query("f < abc").err(), Some(FrameError::InvalidLiteral));
    assert_eq!(d.query("b == true").err(), Some(FrameError::UnsupportedColumnType));
    assert_eq!(d.query("v <").err(), Some(FrameError::MalformedExpression));
    assert_eq!(d.query("q < 1").err(), Some(FrameError::UnknownColumn));
    assert_eq!(DataFrame::new().query("q < 1").unwrap().row_count(), 0);
    assert_eq!(CmpOp::Lt, CmpOp::Lt);
}

#[test]
fn sort_is_stable_with_nulls_last() {
    let k = vec![text("a"), text("b"), text("c"), text("d"), text("e")];
    let v = vec![Value::Int64(2), Value::Null, Value::Int64(1), Value::Int64(2), Value::Int64(1)];
    let b = Batch::try_new(vec![field("k", DataType::Utf8), field("v", DataType::Int64)], vec![k, v]).unwrap();
    let d = frame(vec![b.clone(), kv_batch(&[("f", 1)])]);
    let s = d.sort("v", None).unwrap();
    assert_eq!(s.batches.len(), 1);
    let keys: Vec<Value> = rows(&s).iter().map(|r| r[0].clone()).collect();
    assert_eq!(keys, vec![text("c"), text("e"), text("f"), text("a"), text("d"), text("b")]);
    let s = d.sort("v", Some(false)).unwrap();
    let keys: Vec<Value> = rows(&s).iter().map(|r| r[0].clone()).collect();
    assert_eq!(keys, vec![text("a"), text("d"), text("c"), text("e"), text("f"), text("b")]);
    let s = d.sort("k", Some(false)).unwrap();
    assert_eq!(rows(&s)[0][0], text("f"));
    assert_eq!(d.sort("zz", None).err(), Some(FrameError::UnknownColumn));
    assert_eq!(DataFrame::new().sort("zz", None).unwrap().batches.len(), 0);
}

#[test]
fn sort_orders_floats_totally() {
    let b = Batch::try_new(
        vec![field("f", DataType::Float64)],
        vec![vec![float(1.5), float(-2.0), float(0.0), float(-0.0), Value::Null, float(f64::INFINITY)]],
    )
    .unwrap();
    let s = frame(vec![b]).sort("f", Some(true)).unwrap();
    let got: Vec<Value> = rows(&s).iter().map(|r| r[0].clone()).collect();
    assert_eq!(got, vec![float(-2.0), float(-0.0), float(0.0), float(1.5), float(f64::INFINITY), Value::Null]);
}

#[test]
fn sort_rejects_mixed_schemas() {
    let other = Batch::try_new(vec![field("z", DataType::Int64)], vec![vec![Value::Int64(1)]]).unwrap();
    let d = frame(vec![kv_batch(&[("a", 1)]), other]);
    assert_eq!(d.sort("v", None).err(), Some(FrameError::SchemaMismatch));
}

#[test]
fn groupby_sum_adds_per_key() {
    let d = frame(vec![kv_batch(&[("x", 1), ("y", 2), ("x", 3)])]);
    let g = d.groupby_sum("k", "v").unwrap();
    assert_eq!(g.batches.len(), 1);
    assert_eq!(g.batches[0].fields[0].name, "k");
    assert_eq!(g.batches[0].fields[1].name, "v_sum");
    assert_eq!(g.batches[0].fields[1].dtype, DataType::Float64);
    let mut got: Vec<(Value, Value)> = rows(&g).iter().map(|r| (r[0].clone(), r[1].clone())).collect();
    got.sort_by(|a, b| format!("{:?}", a.0).cmp(&format!("{:?}", b.0)));
    assert_eq!(got, vec![(text("x"), float(4.0)), (text("y"), float(2.0))]);
}

#[test]
fn groupby_sum_skips_nulls_and_sums_floats() {
    let b = Batch::try_new(
        vec![field("g", DataType::Utf8), field("f", DataType::Float64), field("s", DataType::Utf8)],
        vec![
            vec![text("a"), text("a"), Value::Null, text("b")],
            vec![float(1.5), float(2.25), float(9.0), Value::Null],
            vec![text("0.5"), text("oops"), text("1"), text("2")],
        ],
    )
    .unwrap();
    let d = frame(vec![b]);
    let g = d.groupby_sum("g", "f").unwrap();
    assert_eq!(rows(&g), vec![vec![text("a"), float(3.75)]]);
    let g = d.groupby_sum("g", "s").unwrap();
    assert_eq!(rows(&g), vec![vec![text("a"), float(0.5)], vec![text("b"), float(2.0)]]);
    assert_eq!(d.groupby_sum("g", "nope").err(), Some(FrameError::UnknownColumn));
}

fn join_sides() -> (DataFrame, DataFrame) {
    let a = frame(vec![kv_batch(&[("x", 1), ("y", 2)])]);
    let b = Batch::try_new(
        vec![field("k", DataType::Utf8), field("w", DataType::Int64)],
        vec![vec![text("x")], vec![Value::Int64(10)]],
    )
    .unwrap();
    (a, frame(vec![b]))
}

#[test]
fn left_join_keeps_unmatched_rows() {
    let (a, b) = join_sides();
    let j = a.join(&b, "k", Some("left")).unwrap();
    assert_eq!(j.batches.len(), 1);
    let f = &j.batches[0].fields;
    assert_eq!(f.len(), 3);
    assert_eq!(f[2].name, "w_right");
    assert!(f[2].nullable);
    assert_eq!(
        rows(&j),
        vec![vec![text("x"), Value::Int64(1), Value::Int64(10)], vec![text("y"), Value::Int64(2), Value::Null]]
    );
}

#[test]
fn inner_join_drops_unmatched_rows() {
    let (a, b) = join_sides();
    let j = a.join(&b, "k", None).unwrap();
    assert_eq!(rows(&j), vec![vec![text("x"), Value::Int64(1), Value::Int64(10)]]);
    assert!(!j.batches[0].fields[2].nullable);
}

#[test]
fn inner_join_counts_every_matching_pair() {
    let a = frame(vec![kv_batch(&[("x", 1), ("y", 2), ("x", 3)]), kv_batch(&[("z", 4)])]);
    let b = frame(vec![kv_batch(&[("x", 10), ("x", 20), ("y", 30), ("q", 40)])]);
    let j = a.join(&b, "k", Some("inner")).unwrap();
    // x: 2 left * 2 right, y: 1 * 1
    assert_eq!(j.row_count(), 5);
    assert_eq!(ints(&j, 2), vec![Some(10), Some(20), Some(30), Some(10), Some(20)]);
    let l = a.join(&b, "k", Some("left")).unwrap();
    assert_eq!(l.row_count(), 6);
    assert_eq!(j.batches[0].fields[2].name, "v_right");
}

#[test]
fn join_with_an_empty_side_returns_left() {
    let (a, _) = join_sides();
    let j = a.join(&DataFrame::new(), "k", None).unwrap();
    assert_eq!(rows(&j), rows(&a));
    let (_, b) = join_sides();
    assert_eq!(a.join(&b, "nope", None).err(), Some(FrameError::UnknownColumn));
}

#[test]
fn column_lookup_by_name() {
    let b = kv_batch(&[("x", 1), ("y", 2)]);
    assert_eq!(b.column_by_name("v").unwrap(), &vec![Value::Int64(1), Value::Int64(2)]);
    assert_eq!(b.column_by_name("w").err(), Some(FrameError::UnknownColumn));
    assert_eq!(b.num_columns(), 2);
}

#[test]
fn integer_text_covers_the_whole_range() {
    let d = frame(vec![kv_batch(&[("a", i64::MIN), ("b", i64::MAX), ("c", 0), ("d", 1200)])]);
    assert_eq!(ints(&d.filter_eq("v", "-9223372036854775808").unwrap(), 1), vec![Some(i64::MIN)]);
    assert_eq!(ints(&d.filter_eq("v", "9223372036854775807").unwrap(), 1), vec![Some(i64::MAX)]);
    assert_eq!(ints(&d.filter_eq("v", "0").unwrap(), 1), vec![Some(0)]);
    assert_eq!(ints(&d.filter_eq("v", "1200").unwrap(), 1), vec![Some(1200)]);
    assert_eq!(ints(&d.query("v <= -9223372036854775808").unwrap(), 1), vec![Some(i64::MIN)]);
}

#[test]
fn join_of_large_tables_pairs_each_key() {
    let n = 20000i64;
    let names: Vec<String> = (0..n).map(|i| format!("k{}", i)).collect();
    let left: Vec<(&str, i64)> = names.iter().enumerate().map(|(i, s)| (s.as_str(), i as i64)).collect();
    let right: Vec<(&str, i64)> = names.iter().rev().enumerate().map(|(i, s)| (s.as_str(), i as i64)).collect();
    let a = frame(vec![kv_batch(&left)]);
    let b = frame(vec![kv_batch(&right)]);
    let j = a.join(&b, "k", None).unwrap();
    assert_eq!(j.row_count(), n as usize);
    let r = rows(&j);
    assert_eq!(r[0], vec![text("k0"), Value::Int64(0), Value::Int64(n - 1)]);
    let s = j.sort("v_right", None).unwrap();
    assert_eq!(rows(&s)[0][0], text(&format!("k{}", n - 1)));
}

#[test]
fn groupby_sum_with_many_groups() {
    let names: Vec<String> = (0..30000).map(|i| format!("g{}", i % 10000)).collect();
    let rows_in: Vec<(&str, i64)> = names.iter().enumerate().map(|(i, s)| (s.as_str(), i as i64)).collect();
    let g = frame(vec![kv_batch(&rows_in)]).groupby_sum("k", "v").unwrap();
    assert_eq!(g.row_count(), 10000);
    let r = rows(&g);
    // groups come in order of first appearance; g0 gathers rows 0, 10000 and 20000
    assert_eq!(r[0], vec![text("g0"), float(30000.0)]);
    assert_eq!(r[9999], vec![text("g9999"), float((9999 + 19999 + 29999) as f64)]);
}

#[test]
fn well_formedness_is_checked() {
    let d = frame(vec![kv_batch(&[("x", 1)])]);
    assert!(d.is_well_formed());
    let mut bad = d.clone();
    bad.batches[0].columns[1].push(Value::Int64(2));
    assert!(!bad.is_well_formed());
    let mut bad = d.clone();
    bad.batches[0].columns[1][0] = text("oops");
    assert!(!bad.batches[0].is_well_formed());
    assert!(DataFrame::new().is_well_formed());
}

#[test]
fn groupby_sum_of_an_empty_table_has_the_output_schema() {
    let g = DataFrame::new().groupby_sum("k", "v").unwrap();
    assert_eq!(g.batches.len(), 1);
    assert_eq!(g.row_count(), 0);
    assert_eq!(g.batches[0].fields[0].name, "k");
    assert_eq!(g.batches[0].fields[0].dtype, DataType::Utf8);
    assert_eq!(g.batches[0].fields[1].name, "v_sum");
    assert_eq!(g.batches[0].fields[1].dtype, DataType::Float64);
}

#[test]
fn groupby_sum_of_opposite_infinities_is_nan() {
    let b = Batch::try_new(
        vec![field("g", DataType::Utf8), field("f", DataType::Float64)],
        vec![vec![text("a"), text("a"), text("b")], vec![float(f64::INFINITY), float(f64::NEG_INFINITY), float(1.0)]],
    )
    .unwrap();
    let g = frame(vec![b]).groupby_sum("g", "f").unwrap();
    let r = rows(&g);
    match r[0][1] {
        Value::Float64(bits) => assert!(f64::from_bits(bits).is_nan()),
        ref other => panic!("unexpected {:?}", other),
    }
    assert_eq!(r[1][1], float(1.0));
}

#[test]
fn query_splits_on_unicode_whitespace_and_parses_float_literals() {
    let b = Batch::try_new(
        vec![field("f", DataType::Float64)],
        vec![vec![float(1000.0), float(2.5), float(f64::INFINITY)]],
    )
    .unwrap();
    let d = frame(vec![b]);
    assert_eq!(d.query("f\t>=\u{a0}1e3").unwrap().row_count(), 2);
    assert_eq!(d.query("\u{3000}f == inf ").unwrap().row_count(), 1);
    assert_eq!(d.query("f == 2.5x").err(), Some(FrameError::InvalidLiteral));
    assert_eq!(d.query("f\u{2003}<").err(), Some(FrameError::MalformedExpression));
    let toks = grizzly::query::tokenize(&" ab  c\nd ".chars().collect());
    assert_eq!(toks, vec![vec!['a', 'b'], vec!['c'], vec!['d']]);
}

#[test]
fn cast_errors_name_the_types() {
    let b = Batch::try_new(vec![field("t", DataType::TimestampMillis)], vec![vec![Value::TimestampMillis(i64::MAX)]]).unwrap();
    let d = frame(vec![b]);
    assert_eq!(
        d.filter_eq("t", "x").err(),
        Some(FrameError::CastError { from: DataType::TimestampMillis, to: DataType::Utf8 })
    );
}
