use std::sync::Arc;

use arrow::record_batch::RecordBatch;
use arrow_csv::ReaderBuilder;
use arrow_schema::{DataType, Field, Schema};
use grizzly::{plan_segments, scan_boundary, split_offsets};

#[test]
fn scan_skips_newlines_inside_quotes() {
    let bytes = b"a,\"x\ny\"\nb,c\n";
    assert_eq!(scan_boundary(bytes, 0, false, 0), (8, false));
    assert_eq!(scan_boundary(bytes, 0, false, 3), (8, false));
    assert_eq!(scan_boundary(bytes, 0, false, 9), (12, false));
    assert_eq!(scan_boundary(b"abc", 0, false, 1), (3, false));
}

#[test]
fn split_lands_on_record_starts() {
    let bytes = b"h\n\"a\nb\nc\"\nd\ne\n";
    let offs = split_offsets(bytes, 4);
    assert_eq!(offs, vec![0, 10, 12, 14]);
    assert_eq!(split_offsets(b"", 3), vec![0]);
    assert_eq!(split_offsets(b"abc", 2), vec![0, 3]);
}

#[test]
fn small_inputs_are_one_segment() {
    assert_eq!(plan_segments(b"a\nb\n", 8), vec![0, 4]);
    assert_eq!(plan_segments(&vec![b'x'; 2_000_000], 1), vec![0, 2_000_000]);
}

fn big_csv() -> Vec<u8> {
    let mut s = String::from("id,name\n");
    let mut i = 0u64;
    while s.len() < 2 * 1024 * 1024 {
        if i % 1000 == 7 {
            s.push_str(&format!("{},\"multi\nline {}\"\n", i, i));
        } else {
            s.push_str(&format!("{},name{}\n", i, i));
        }
        i += 1;
    }
    s.into_bytes()
}

fn parse(bytes: &[u8], header: bool) -> Vec<RecordBatch> {
    let schema = Arc::new(Schema::new(vec![
        Field::new("id", DataType::Int64, true),
        Field::new("name", DataType::Utf8, true),
    ]));
    ReaderBuilder::new(schema).with_header(header).build(bytes).unwrap().collect::<Result<Vec<_>, _>>().unwrap()
}

fn flatten(batches: &[RecordBatch]) -> Vec<(i64, String)> {
    let mut out = Vec::new();
    for b in batches {
        let ids = b.column(0).as_any().downcast_ref::<arrow_array::Int64Array>().unwrap();
        let names = b.column(1).as_any().downcast_ref::<arrow_array::StringArray>().unwrap();
        for r in 0..b.num_rows() {
            out.push((ids.value(r), names.value(r).to_string()));
        }
    }
    out
}

#[test]
fn segmented_parse_equals_sequential_parse() {
    let bytes = big_csv();
    let whole = flatten(&parse(&bytes, true));
    for workers in [2usize, 3, 7, 16] {
        let offs = plan_segments(&bytes, workers);
        assert!(offs.len() > 2);
        let mut rows = Vec::new();
        for (i, w) in offs.windows(2).enumerate() {
            rows.extend(flatten(&parse(&bytes[w[0]..w[1]], i == 0)));
        }
        assert_eq!(rows, whole);
    }
}

#[test]
fn quoted_field_across_a_target_is_kept_whole() {
    let mut bytes = Vec::new();
    bytes.extend_from_slice(b"id,name\n");
    while bytes.len() < 1_100_000 {
        bytes.extend_from_slice(b"1,plain\n");
    }
    // a quoted field holding newlines that spans the middle of the input
    bytes.extend_from_slice(b"2,\"");
    while bytes.len() < 1_300_000 {
        bytes.extend_from_slice(b"in\nside\n");
    }
    bytes.extend_from_slice(b"\"\n");
    while bytes.len() < 2_200_000 {
        bytes.extend_from_slice(b"3,tail\n");
    }
    let whole = flatten(&parse(&bytes, true));
    let offs = plan_segments(&bytes, 2);
    assert_eq!(offs.len(), 3);
    assert!(offs[1] > 1_300_000);
    let mut rows = Vec::new();
    for (i, w) in offs.windows(2).enumerate() {
        rows.extend(flatten(&parse(&bytes[w[0]..w[1]], i == 0)));
    }
    assert_eq!(rows, whole);
}
