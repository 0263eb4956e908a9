use ayame_core::distinct::{distinct, DistinctOptions, Hll};
use ayame_core::fields::{
    csv_nth_field, f64_order_key, field_bytes, find_field, key_before, normalized_text_key, nth_field,
    numeric_text, FieldSpec,
};
use ayame_core::group::{finite_bits, group, GroupOptions, GroupRow, GroupStats};
use ayame_core::ordering::{
    line_offsets, ordering_bytes, read_full, LineOffsetReader, OrderingReader,
};
use ayame_core::records::RecordReader;
use ayame_core::runs::{push_rec, read_rec, write_run, Merger, MERGE_FAN_IN};
use ayame_core::sort::{
    merge_groups, merge_pass_count, merge_runs, numeric_texts, ordering_bits, sort, RunBuilder, SortOptions,
    SortResult,
};
use ayame_core::sums::ExactSum;
use ayame_core::top::{top_n, TopOptions};
use ayame_core::{Document, Encoding, Error, OpenOptions};

fn doc_from(bytes: &[u8]) -> Document<'_> {
    Document::open("data.csv".to_string(), bytes, &OpenOptions::default())
}

fn bits_of(text: &str) -> Option<u64> {
    text.parse::<f64>().ok().map(f64::to_bits)
}

/// Sorts with the numbers of the key columns read as floats.
fn sort_doc(doc: &Document, opts: &SortOptions) -> SortResult {
    let mut numbers = Vec::new();
    if opts.numeric {
        for i in 0..doc.line_count() {
            let raw = doc.raw_line(i).unwrap();
            numbers.push(
                numeric_texts(raw, doc.encoding(), opts)
                    .iter()
                    .map(|t| ordering_bits(bits_of(t)))
                    .collect::<Vec<u64>>(),
            );
        }
    }
    sort(doc, opts, &numbers).unwrap()
}

fn sorted_lines(doc: &Document, res: &SortResult) -> Vec<String> {
    let bytes = ordering_bytes(&res.ordering);
    let mut rd = OrderingReader::open(&bytes);
    let mut out = Vec::new();
    while let Some(ln) = rd.next_line().unwrap() {
        out.push(doc.line(ln).unwrap());
    }
    out
}

fn raw_records<'a>(doc: &Document<'a>, spec: &FieldSpec) -> Vec<&'a [u8]> {
    let mut reader = RecordReader::new(doc);
    let mut out = Vec::new();
    while let Some(span) = reader.next(doc, spec) {
        out.push(&doc.buf()[span.start as usize..span.text_end as usize]);
    }
    out
}

fn column_bits(doc: &Document, col: Option<usize>, spec: &FieldSpec) -> Vec<Option<u64>> {
    raw_records(doc, spec)
        .into_iter()
        .map(|raw| {
            let (field, enc) = find_field(raw, doc.encoding(), col, spec);
            bits_of(&numeric_text(&field, enc))
        })
        .collect()
}

fn group_doc(doc: &Document, opts: &GroupOptions) -> (Vec<GroupRow>, GroupStats) {
    let values: Vec<Option<u64>> = match opts.value_column {
        Some(c) => column_bits(doc, Some(c), &opts.fields)
            .into_iter()
            .map(finite_bits)
            .collect(),
        None => Vec::new(),
    };
    group(doc, opts, &values)
}

fn sum_of(row: &GroupRow) -> f64 {
    f64::from_bits(row.sum())
}

fn top_lines(doc: &Document, opts: &TopOptions) -> Vec<String> {
    let numbers: Vec<u64> = column_bits(doc, opts.key_column, &opts.fields)
        .into_iter()
        .map(ordering_bits)
        .collect();
    top_n(doc, opts, &numbers)
        .iter()
        .map(|r| doc.line(r.record).unwrap())
        .collect()
}

/// The usual estimate from the registers.
fn estimate(h: &Hll) -> u64 {
    let m = h.len() as f64;
    let mut sum = 0.0;
    let mut zeros = 0u64;
    for i in 0..h.len() {
        let r = h.register(i).unwrap();
        sum += 2f64.powi(-(r as i32));
        if r == 0 {
            zeros += 1;
        }
    }
    let alpha = 0.7213 / (1.0 + 1.079 / m);
    let raw = alpha * m * m / sum;
    if raw <= 2.5 * m && zeros > 0 {
        (m * (m / zeros as f64).ln()).round() as u64
    } else {
        raw.round() as u64
    }
}

fn numeric_tiny_budget() {
    let mut data = Vec::new();
    for i in (0..5000u64).rev() {
        data.extend_from_slice(format!("{i},row{i}\n").as_bytes());
    }
    let doc = doc_from(&data);
    let opts = SortOptions {
        key_column: Some(1),
        numeric: true,
        budget_bytes: 8 * 1024,
        ..Default::default()
    };
    let res = sort_doc(&doc, &opts);
    assert!(
        res.runs > 1,
        "tiny budget should produce multiple runs, got {}",
        res.runs
    );
    assert_eq!(res.line_count, 5000);
    let lines = sorted_lines(&doc, &res);
    assert_eq!(lines.first().unwrap(), "0,row0");
    assert_eq!(lines.last().unwrap(), "4999,row4999");
    for (i, l) in lines.iter().enumerate() {
        assert_eq!(l, &format!("{i},row{i}"));
    }
}

fn reverse_whole_line() {
    let data = b"banana\napple\ncherry\napple\n";
    let doc = doc_from(data);
    let opts = SortOptions {
        key_column: None,
        reverse: true,
        budget_bytes: 1 << 20,
        ..Default::default()
    };
    let res = sort_doc(&doc, &opts);
    assert_eq!(
        sorted_lines(&doc, &res),
        vec!["cherry", "banana", "apple", "apple"]
    );
}

fn negatives_and_floats() {
    let data = b"3.5\n-2\n10\n-100.25\n0\n";
    let doc = doc_from(data);
    let opts = SortOptions {
        key_column: None,
        numeric: true,
        budget_bytes: 1 << 20,
        ..Default::default()
    };
    let res = sort_doc(&doc, &opts);
    assert_eq!(
        sorted_lines(&doc, &res),
        vec!["-100.25", "-2", "0", "3.5", "10"]
    );
}

#[test]
fn ops_numeric_sort_with_tiny_budget_spills_and_orders() {
    numeric_tiny_budget();
    let doc = doc_from(b"9,x\n10,y\n");
    let opts = SortOptions {
        key_column: Some(1),
        numeric: true,
        budget_bytes: 8 * 1024,
        ..Default::default()
    };
    let res = sort_doc(&doc, &opts);
    assert_eq!(sorted_lines(&doc, &res), vec!["9,x", "10,y"]);
}

#[test]
fn ops_lexicographic_reverse_and_whole_line() {
    reverse_whole_line();
    let doc = doc_from(b"banana\napple\ncherry\napple\n");
    let opts = SortOptions {
        reverse: true,
        budget_bytes: 1 << 20,
        ..Default::default()
    };
    let lines = sorted_lines(&doc, &sort_doc(&doc, &opts));
    assert_eq!(lines, vec!["cherry", "banana", "apple", "apple"]);
}

#[test]
fn ops_numeric_handles_negatives_and_floats() {
    negatives_and_floats();
    let doc = doc_from(b"3.5\n-2\n10\n-100.25\n0\n");
    let opts = SortOptions {
        numeric: true,
        budget_bytes: 1 << 20,
        ..Default::default()
    };
    let lines = sorted_lines(&doc, &sort_doc(&doc, &opts));
    assert_eq!(lines, vec!["-100.25", "-2", "0", "3.5", "10"]);
}

#[test]
fn tests_numeric_sort_with_tiny_budget_spills_and_orders() {
    numeric_tiny_budget();
    let mut data = Vec::new();
    for i in (0..5000u64).rev() {
        data.extend_from_slice(format!("{i},row{i}\n").as_bytes());
    }
    let doc = doc_from(&data);
    let opts = SortOptions {
        key_column: Some(1),
        numeric: true,
        budget_bytes: 8 * 1024,
        ..Default::default()
    };
    let res = sort_doc(&doc, &opts);
    assert!(res.runs > 1);
    assert_eq!(res.line_count, 5000);
    assert_eq!(sorted_lines(&doc, &res)[4999], "4999,row4999");
}

#[test]
fn tests_lexicographic_reverse_and_whole_line() {
    reverse_whole_line();
    let data = b"banana\napple\ncherry\napple\n";
    let doc = doc_from(data);
    let opts = SortOptions {
        reverse: true,
        budget_bytes: 1 << 20,
        ..Default::default()
    };
    assert_eq!(sort_doc(&doc, &opts).ordering, vec![2, 0, 1, 3]);
}

#[test]
fn tests_numeric_handles_negatives_and_floats() {
    negatives_and_floats();
    let doc = doc_from(b"3.5\n-2\n10\n-100.25\n0\n");
    let opts = SortOptions {
        numeric: true,
        budget_bytes: 1 << 20,
        ..Default::default()
    };
    assert_eq!(sort_doc(&doc, &opts).ordering, vec![3, 1, 4, 0, 2]);
}

fn two_hundred_rows() -> Vec<u8> {
    let mut data = Vec::new();
    for i in (0..200u64).rev() {
        data.extend_from_slice(format!("{i:03},row{i}\n").as_bytes());
    }
    data
}

#[test]
fn sort_uses_bounded_fan_in_multi_pass_merge() {
    let data = two_hundred_rows();
    let doc = doc_from(&data);
    let opts = SortOptions {
        key_column: Some(1),
        numeric: true,
        budget_bytes: 1,
        ..Default::default()
    };
    let res = sort_doc(&doc, &opts);
    assert!(
        res.runs > MERGE_FAN_IN,
        "test must force a multi-pass merge"
    );
    assert_eq!(res.line_count, 200);
    let lines = sorted_lines(&doc, &res);
    for (i, l) in lines.iter().enumerate() {
        assert_eq!(l, &format!("{i:03},row{i}"));
    }
}

#[test]
fn sort_progress_covers_scan_and_multi_pass_merge() {
    let data = two_hundred_rows();
    let doc = doc_from(&data);
    let opts = SortOptions {
        key_column: Some(1),
        numeric: true,
        budget_bytes: 1,
        ..Default::default()
    };
    let result = sort_doc(&doc, &opts);
    let samples = &result.progress;
    assert_eq!(result.line_count, 200);
    assert_eq!(samples.first(), Some(&(0, 400)));
    assert_eq!(samples.last(), Some(&(400, 400)));
    assert!(
        samples
            .iter()
            .any(|&(done, total)| done > 200 && done < total),
        "merge phase must advance between the scan midpoint and completion: {samples:?}"
    );
    assert!(
        samples.windows(2).all(|pair| pair[0].0 <= pair[1].0),
        "progress went backwards: {samples:?}"
    );
    assert!(samples.iter().all(|&(_, total)| total == 400));
}

#[test]
fn sort_builds_dense_offsets_for_fast_random_order_output() {
    let data = b"charlie\nalpha\nbravo";
    let doc = doc_from(data);
    let result = sort_doc(&doc, &SortOptions::default());
    let table = line_offsets(&doc);
    let order = ordering_bytes(&result.ordering);
    let offsets = LineOffsetReader::open(&table);
    let mut ordering = OrderingReader::open(&order);
    let mut raw = Vec::new();
    while let Some(line) = ordering.next_line().unwrap() {
        let (start, end) = offsets.raw_range(line).unwrap();
        raw.push(doc.raw_byte_range(start, end).unwrap().to_vec());
    }
    assert_eq!(
        raw,
        vec![
            b"alpha\n".to_vec(),
            b"bravo".to_vec(),
            b"charlie\n".to_vec(),
        ]
    );
    assert_eq!(offsets.raw_range(3), None);
}

#[test]
fn sort_uses_multiple_key_columns_in_priority_order() {
    let data = b"b,2,z\na,9,z\na,2,z\na,2,a\n";
    let doc = doc_from(data);
    let result = sort_doc(
        &doc,
        &SortOptions {
            key_columns: vec![1, 2, 3],
            ..Default::default()
        },
    );
    assert_eq!(
        sorted_lines(&doc, &result),
        vec!["a,2,a", "a,2,z", "a,9,z", "b,2,z"]
    );
}

#[test]
fn sort_key_columns_support_csv_quotes_and_tsv_delimiters() {
    let csv = br#""b,x",2
"a,y",3
"a,y",1
"#;
    let csv_doc = doc_from(csv);
    let csv_result = sort_doc(
        &csv_doc,
        &SortOptions {
            key_columns: vec![1, 2],
            fields: FieldSpec {
                csv: true,
                ..Default::default()
            },
            ..Default::default()
        },
    );
    assert_eq!(
        sorted_lines(&csv_doc, &csv_result),
        vec![r#""a,y",1"#, r#""a,y",3"#, r#""b,x",2"#]
    );

    let tsv = b"b\t2\na\t9\na\t1\n";
    let tsv_doc = doc_from(tsv);
    let tsv_result = sort_doc(
        &tsv_doc,
        &SortOptions {
            key_columns: vec![1, 2],
            fields: FieldSpec {
                delimiter: b'\t',
                ..Default::default()
            },
            ..Default::default()
        },
    );
    assert_eq!(
        sorted_lines(&tsv_doc, &tsv_result),
        vec!["a\t1", "a\t9", "b\t2"]
    );
}

#[test]
fn text_sort_normalizes_keys_to_nfc() {
    let data = "f\ne\u{301}\n\u{00e9}\nd\n".as_bytes();
    let doc = doc_from(data);
    let opts = SortOptions {
        key_column: None,
        budget_bytes: 1 << 20,
        ..Default::default()
    };
    let res = sort_doc(&doc, &opts);
    let lines = sorted_lines(&doc, &res);
    assert_eq!(lines, vec!["d", "f", "e\u{301}", "\u{00e9}"]);
}

#[test]
fn group_by_counts_and_sums_with_spill() {
    let mut data = Vec::new();
    for i in 0..3000u64 {
        let k = ["a", "b", "c"][(i % 3) as usize];
        data.extend_from_slice(format!("{k},{i}\n").as_bytes());
    }
    let doc = doc_from(&data);
    let opts = GroupOptions {
        key_column: Some(1),
        value_column: Some(2),
        budget_bytes: 256,
        ..Default::default()
    };
    let (rows, stats) = group_doc(&doc, &opts);
    assert_eq!(stats.groups, 3);
    assert!(
        stats.runs > 1,
        "tiny budget should spill, got {} runs",
        stats.runs
    );
    assert_eq!(rows[0].key, b"a");
    assert_eq!(rows[1].key, b"b");
    assert_eq!(rows[2].key, b"c");
    assert_eq!(rows.iter().map(|r| r.count).sum::<u64>(), 3000);
    let want_a: f64 = (0..3000u64).filter(|i| i % 3 == 0).map(|i| i as f64).sum();
    assert_eq!(sum_of(&rows[0]), want_a);
}

#[test]
fn csv_group_respects_quoted_delimiters() {
    let data = b"\"a,b\",1\n\"a,b\",2\nc,3\n";
    let doc = doc_from(data);
    let opts = GroupOptions {
        key_column: Some(1),
        value_column: Some(2),
        fields: FieldSpec {
            delimiter: b',',
            quote: b'"',
            csv: true,
        },
        budget_bytes: 1 << 20,
        ..Default::default()
    };
    let (rows, _) = group_doc(&doc, &opts);
    let got: Vec<(String, u64)> = rows
        .iter()
        .map(|r| (String::from_utf8_lossy(&r.key).into_owned(), r.count))
        .collect();
    assert_eq!(got, vec![("a,b".to_string(), 2), ("c".to_string(), 1)]);
}

#[test]
fn top_n_largest_and_smallest() {
    let mut data = Vec::new();
    for i in 0..1000u64 {
        data.extend_from_slice(format!("{},x\n", (i * 7) % 1000).as_bytes());
    }
    let doc = doc_from(&data);
    let top = top_lines(
        &doc,
        &TopOptions {
            key_column: Some(1),
            numeric: true,
            largest: true,
            n: 3,
            ..Default::default()
        },
    );
    assert_eq!(top, vec!["999,x", "998,x", "997,x"]);

    let bot = top_lines(
        &doc,
        &TopOptions {
            key_column: Some(1),
            numeric: true,
            largest: false,
            n: 2,
            ..Default::default()
        },
    );
    assert_eq!(bot, vec!["0,x", "1,x"]);
}

#[test]
fn distinct_estimate_is_close() {
    let mut data = Vec::new();
    for i in 0..50_000u64 {
        data.extend_from_slice(format!("key{},v\n", i % 5000).as_bytes());
    }
    let doc = doc_from(&data);
    let hll = distinct(
        &doc,
        &DistinctOptions {
            key_column: Some(1),
            ..Default::default()
        },
    );
    let res = hll.result(estimate(&hll));
    let err = (res.estimate as f64 - 5000.0).abs() / 5000.0;
    assert!(
        err < 0.05,
        "HLL estimate {} too far from 5000 (rel err {:.3})",
        res.estimate,
        err
    );
}

#[test]
fn group_no_spill_fast_path() {
    let data = b"x,1\ny,2\nx,3\ny,4\nx,5\n";
    let doc = doc_from(data);
    let opts = GroupOptions {
        key_column: Some(1),
        value_column: Some(2),
        budget_bytes: 1 << 20,
        ..Default::default()
    };
    let (rows, stats) = group_doc(&doc, &opts);
    assert_eq!(stats.runs, 0, "small input should not spill");
    let got: Vec<(&[u8], u64, f64, f64)> = rows
        .iter()
        .map(|r| {
            let sum = sum_of(r);
            (&r.key[..], r.count, sum, sum / r.numeric_count() as f64)
        })
        .collect();
    assert_eq!(got, vec![(&b"x"[..], 3, 9.0, 3.0), (&b"y"[..], 2, 6.0, 3.0)]);
}

#[test]
fn numeric_sort_and_top_push_invalid_values_to_the_end_for_largest() {
    let data = b"value\n10\nN/A\n3\nNaN\n";
    let doc = doc_from(data);
    let sort_opts = SortOptions {
        key_column: None,
        numeric: true,
        reverse: true,
        budget_bytes: 1 << 20,
        ..Default::default()
    };
    let res = sort_doc(&doc, &sort_opts);
    let lines = sorted_lines(&doc, &res);
    assert_eq!(lines, vec!["10", "3", "value", "N/A", "NaN"]);

    let top_opts = TopOptions {
        key_column: None,
        n: 2,
        largest: true,
        numeric: true,
        fields: FieldSpec::default(),
    };
    assert_eq!(top_lines(&doc, &top_opts), vec!["10", "3"]);
}

#[test]
fn group_spill_matches_the_in_memory_fast_path() {
    let mut data = Vec::new();
    for i in 0..8000u64 {
        data.extend_from_slice(format!("k{},{i}\n", i % 500).as_bytes());
    }
    let doc = doc_from(&data);
    let run = |budget: usize| {
        let opts = GroupOptions {
            key_column: Some(1),
            value_column: Some(2),
            budget_bytes: budget,
            ..Default::default()
        };
        let (rows, stats) = group_doc(&doc, &opts);
        let rows: Vec<(Vec<u8>, u64, u64, (u64, Option<u64>, Option<u64>))> = rows
            .into_iter()
            .map(|r| {
                let extremes = (r.sum(), r.min(), r.max());
                (r.key.clone(), r.count, r.numeric_count(), extremes)
            })
            .collect();
        (rows, stats)
    };
    let (in_mem, s1) = run(1 << 30);
    let (spilled, s2) = run(512);
    assert_eq!(s1.runs, 0, "a huge budget must not spill");
    assert!(s2.runs > 1, "a tiny budget must spill across runs");
    assert_eq!(in_mem.len(), 500);
    assert_eq!(
        spilled, in_mem,
        "spilled group must equal the in-memory result"
    );
}

#[test]
fn group_exact_sum_is_spill_independent_and_ignores_non_finite_values() {
    let mut data = Vec::new();
    for _ in 0..20 {
        for value in ["10000000000000000", "1", "-10000000000000000"] {
            for key in 0..64 {
                data.extend_from_slice(format!("k{key},{value}\n").as_bytes());
            }
        }
    }
    data.extend_from_slice(b"invalid,NaN\ninvalid,inf\ninvalid,-inf\ninvalid,nope\n");
    let doc = doc_from(&data);
    let run = |budget: usize| {
        let opts = GroupOptions {
            key_column: Some(1),
            value_column: Some(2),
            budget_bytes: budget,
            ..Default::default()
        };
        group_doc(&doc, &opts)
    };
    let (in_memory, memory_stats) = run(1 << 30);
    let (spilled, spill_stats) = run(512);
    assert_eq!(memory_stats.runs, 0);
    assert!(spill_stats.runs > 1);
    assert_eq!(in_memory.len(), 65);
    assert_eq!(spilled.len(), 65);

    for (left, right) in in_memory.iter().zip(&spilled) {
        assert_eq!(left.key, right.key);
        assert_eq!(left.sum(), right.sum());
        assert_eq!(left.min(), right.min());
        assert_eq!(left.max(), right.max());
        if left.key == b"invalid" {
            assert_eq!(left.numeric_count(), 0);
            assert_eq!(sum_of(left), 0.0);
            assert_eq!(left.min(), None);
            assert_eq!(left.max(), None);
        } else {
            assert_eq!(sum_of(left), 20.0);
            assert_eq!(
                sum_of(left) / left.numeric_count() as f64,
                1.0 / 3.0
            );
        }
    }
}

#[test]
fn unicode_equivalent_keys_match_across_group_and_distinct() {
    let data = "caf\u{e9},1\ncafe\u{301},2\n";
    let doc = doc_from(data.as_bytes());
    let group_options = GroupOptions {
        key_column: Some(1),
        value_column: Some(2),
        ..Default::default()
    };
    let (rows, _) = group_doc(&doc, &group_options);
    assert_eq!(rows.len(), 1);
    assert_eq!(rows[0].key, "caf\u{e9}".as_bytes());
    assert_eq!(rows[0].count, 2);
    assert_eq!(sum_of(&rows[0]), 3.0);

    let distinct_options = DistinctOptions {
        key_column: Some(1),
        precision: 14,
        ..Default::default()
    };
    assert_eq!(estimate(&distinct(&doc, &distinct_options)), 1);
}

#[test]
fn reverse_sort_with_spill_is_stable_and_descending() {
    let mut data = Vec::new();
    for i in 0..4000u64 {
        data.extend_from_slice(format!("{},orig{i}\n", i % 20).as_bytes());
    }
    let doc = doc_from(&data);
    let opts = SortOptions {
        key_column: Some(1),
        numeric: true,
        reverse: true,
        budget_bytes: 4 * 1024,
        ..Default::default()
    };
    let res = sort_doc(&doc, &opts);
    assert!(res.runs > 1, "tiny budget should spill");
    let lines = sorted_lines(&doc, &res);
    assert_eq!(lines.len(), 4000);

    let parse = |l: &str| -> (i64, u64) {
        let mut p = l.split(',');
        let key = p.next().unwrap().parse().unwrap();
        let orig = p
            .next()
            .unwrap()
            .strip_prefix("orig")
            .unwrap()
            .parse()
            .unwrap();
        (key, orig)
    };
    let mut prev: Option<(i64, u64)> = None;
    for l in &lines {
        let (key, orig) = parse(l);
        if let Some((pk, porig)) = prev {
            if pk == key {
                assert!(
                    orig > porig,
                    "stability broken in key {key}: {orig} after {porig}"
                );
            } else {
                assert!(pk > key, "keys must descend: {pk} then {key}");
            }
        }
        prev = Some((key, orig));
    }
    assert_eq!(prev.unwrap().0, 0, "the smallest key must sort last");
}

fn sorted_by(input: &[u8], numeric: bool, reverse: bool, budget_bytes: usize) -> Vec<String> {
    let doc = doc_from(input);
    let opts = SortOptions {
        numeric,
        reverse,
        budget_bytes,
        ..Default::default()
    };
    let res = sort_doc(&doc, &opts);
    sorted_lines(&doc, &res)
}

#[test]
fn sort_spilling_matches_in_memory_ordering() {
    let inputs: &[&[u8]] = &[
        b"banana\napple\ncherry\napple\ndate\nbanana\n",
        b"3\n1\n2\n10\n2\n",
        b"x\r\ny\r\nx\r\nz\r\n",
        b"only\nno-newline-tail",
    ];
    for input in inputs {
        for &numeric in &[false, true] {
            for &reverse in &[false, true] {
                let spilled = sorted_by(input, numeric, reverse, 1);
                let in_memory = sorted_by(input, numeric, reverse, 256 * 1024 * 1024);
                assert_eq!(
                    spilled, in_memory,
                    "sort numeric={numeric} reverse={reverse} spill vs in-memory diverged"
                );
            }
        }
    }
}

#[test]
fn whole_line_sort_matches_a_stable_reference() {
    let input = b"banana\napple\ncherry\napple\ndate\n";
    let doc = doc_from(input);
    let mut expected: Vec<String> = (0..doc.line_count())
        .map(|i| doc.line(i).unwrap())
        .collect();
    expected.sort();
    let got = sorted_by(input, false, false, 256 * 1024 * 1024);
    assert_eq!(got, expected, "ascending whole-line sort");
}

// ---- fields and records ----

#[test]
fn csv_field_handles_quotes_and_escapes() {
    let line = br#"a,"x,y ""z""",c"#;
    assert_eq!(csv_nth_field(line, b',', b'"', 1), b"a");
    assert_eq!(csv_nth_field(line, b',', b'"', 2), b"x,y \"z\"");
    assert_eq!(csv_nth_field(line, b',', b'"', 3), b"c");
    assert!(csv_nth_field(line, b',', b'"', 4).is_empty());
}

#[test]
fn csv_field_streams_quoted_fields_larger_than_internal_buffer() {
    let long = "x".repeat(900);
    let line = format!("a,\"{long}\",z");
    assert_eq!(csv_nth_field(line.as_bytes(), b',', b'"', 2), long.as_bytes());
}

#[test]
fn plain_fields_are_counted_from_one() {
    assert_eq!(nth_field(b"a,b,c", b',', 2), b"b");
    assert_eq!(nth_field(b"a,b,c", b',', 4), b"");
    assert_eq!(field_bytes(b"a,b", None, &FieldSpec::default()), b"a,b");
    assert_eq!(normalized_text_key("e\u{301}".as_bytes(), Encoding::Utf8), "\u{e9}".as_bytes());
    assert_eq!(numeric_text(b"  42 ", Encoding::Utf8), "42");
}

#[test]
fn records_hold_quoted_line_ends() {
    let data = b"a,\"x\ny\"\nb,z\n";
    let doc = doc_from(data);
    let spec = FieldSpec {
        csv: true,
        ..Default::default()
    };
    assert_eq!(raw_records(&doc, &spec), vec![&b"a,\"x\ny\""[..], &b"b,z"[..]]);
    assert_eq!(raw_records(&doc, &FieldSpec::default()).len(), 3);
}

#[test]
fn number_keys_order_as_numbers() {
    let values = [f64::NEG_INFINITY, -1e300, -2.0, -0.0, 0.0, 1e-300, 3.5, f64::INFINITY];
    for pair in values.windows(2) {
        let (a, b) = (f64_order_key(pair[0].to_bits()), f64_order_key(pair[1].to_bits()));
        assert!(key_before(&a, &b), "{} < {}", pair[0], pair[1]);
        assert!(!key_before(&b, &a));
    }
    assert_eq!(ordering_bits(None), f64::NEG_INFINITY.to_bits());
    assert_eq!(ordering_bits(Some(f64::NAN.to_bits())), f64::NEG_INFINITY.to_bits());
    assert_eq!(finite_bits(Some(f64::INFINITY.to_bits())), None);
    assert_eq!(finite_bits(Some(2f64.to_bits())), Some(2f64.to_bits()));
}

// ---- runs ----

#[test]
fn truncated_spill_record_is_corruption() {
    let data = [1u8, 2, 3];
    let err = read_full(&data, 0, 8).unwrap_err();
    assert!(matches!(err, Error::Corrupted(_)), "got {err:?}");
    assert!(matches!(OrderingReader::open(&data).next_line(), Err(Error::Corrupted(_))));
}

#[test]
fn runs_are_sorted_and_read_back() {
    let run = write_run(vec![(b"b".to_vec(), 0), (b"a".to_vec(), 1), (b"a".to_vec(), 0)], false);
    let (first, pos) = read_rec(&run, 0).unwrap().unwrap();
    assert_eq!(first, (b"a".to_vec(), 0));
    let (second, pos) = read_rec(&run, pos).unwrap().unwrap();
    assert_eq!(second, (b"a".to_vec(), 1));
    let (third, pos) = read_rec(&run, pos).unwrap().unwrap();
    assert_eq!(third, (b"b".to_vec(), 0));
    assert_eq!(pos, run.len());
    assert_eq!(read_rec(&run, pos).unwrap(), None);
    assert!(matches!(read_rec(&run[..run.len() - 1], pos - 1 - 12), Err(Error::Corrupted(_))));
}

#[test]
fn merged_runs_come_out_in_order() {
    let mut one = Vec::new();
    push_rec(&mut one, b"a", 0);
    push_rec(&mut one, b"c", 2);
    let mut two = Vec::new();
    push_rec(&mut two, b"b", 1);
    push_rec(&mut two, b"c", 0);
    let mut m = Merger::new(vec![&one, &two], false).unwrap();
    let mut out = Vec::new();
    while let Some((key, n)) = m.next().unwrap() {
        out.push((key, n));
    }
    assert_eq!(
        out,
        vec![
            (b"a".to_vec(), 0),
            (b"b".to_vec(), 1),
            (b"c".to_vec(), 0),
            (b"c".to_vec(), 2)
        ]
    );
    assert_eq!(merge_runs(vec![one, two], false).unwrap(), vec![0, 1, 0, 2]);
}

#[test]
fn passes_over_many_runs_are_counted() {
    assert_eq!(merge_pass_count(1), 1);
    assert_eq!(merge_pass_count(MERGE_FAN_IN), 1);
    assert_eq!(merge_pass_count(MERGE_FAN_IN + 1), 2);
    let mut b = RunBuilder::new(1, false);
    assert!(b.push(b"k".to_vec(), 0).is_some());
    assert!(b.finish().is_none());
}

#[test]
fn registers_keep_the_longest_rank() {
    let mut h = Hll::new(4);
    assert_eq!(h.len(), 16);
    h.add_hash(0x1800_0000_0000_0000);
    assert_eq!(h.register(1), Some(1));
    h.add_hash(0x1080_0000_0000_0000);
    assert_eq!(h.register(1), Some(5));
    h.add_hash(0x1800_0000_0000_0000);
    assert_eq!(h.register(1), Some(5));
    assert_eq!(h.register(16), None);
    let r = h.result(3);
    assert_eq!((r.estimate, r.registers, r.memory_bytes), (3, 16, 16));
}

// ---- sums ----

fn exact_sum(values: &[f64]) -> f64 {
    let mut s = ExactSum::new();
    for v in values {
        s.add(v.to_bits());
    }
    f64::from_bits(s.value())
}

#[test]
fn sums_are_rounded_once() {
    assert_eq!(exact_sum(&[]), 0.0);
    assert_eq!(exact_sum(&[0.1, 0.2]), 0.1 + 0.2);
    assert_eq!(exact_sum(&[1e100, 1.0, -1e100]), 1.0);
    assert_eq!(exact_sum(&[0.1; 10]), 1.0);
    assert_eq!(exact_sum(&[1e-320, 5e-324]), 1e-320 + 5e-324);
    assert_eq!(exact_sum(&[-2.5, 1.25]), -1.25);
    // Half-way cases go to the even one, unless something is left over.
    let big = 9_007_199_254_740_992.0;
    assert_eq!(exact_sum(&[big, 1.0]), big);
    assert_eq!(exact_sum(&[big, 1.0, 1e-300]), big + 2.0);
    assert_eq!(exact_sum(&[big, 3.0]), big + 4.0);
    assert_eq!(exact_sum(&[-big, -3.0]), -big - 4.0);
}

#[test]
fn sums_know_infinity_and_the_negative_zero() {
    assert_eq!(exact_sum(&[f64::MAX, f64::MAX]), f64::INFINITY);
    assert_eq!(exact_sum(&[f64::MIN, f64::MIN]), f64::NEG_INFINITY);
    assert_eq!(exact_sum(&[f64::MAX, f64::MAX, f64::MIN]), f64::MAX);
    assert_eq!(exact_sum(&[-0.0, -0.0]).to_bits(), (-0.0f64).to_bits());
    assert_eq!(exact_sum(&[-0.0, 0.0]).to_bits(), 0.0f64.to_bits());
    assert_eq!(exact_sum(&[1.0, -1.0]).to_bits(), 0.0f64.to_bits());
}

#[test]
fn sums_of_pairs_are_those_of_the_machine() {
    let mut x: u64 = 0x1234_5678_9ABC_DEF1;
    for _ in 0..5000 {
        let mut next = || {
            x ^= x << 13;
            x ^= x >> 7;
            x ^= x << 17;
            x
        };
        let (a, b) = (f64::from_bits(next()), f64::from_bits(next()));
        if !a.is_finite() || !b.is_finite() {
            continue;
        }
        assert_eq!(exact_sum(&[a, b]), a + b, "{a} + {b}");
        // Near each other, so that bits are shared.
        let c = f64::from_bits(a.to_bits() ^ (next() >> 12));
        assert_eq!(exact_sum(&[a, c]), a + c, "{a} + {c}");
        assert_eq!(exact_sum(&[a, -c]), a - c, "{a} - {c}");
    }
}

#[test]
fn extremes_of_a_group() {
    let doc = doc_from(b"k,3\nk,-7.5\nk,x\nk,12\n");
    let opts = GroupOptions {
        key_column: Some(1),
        value_column: Some(2),
        ..Default::default()
    };
    let (rows, _) = group_doc(&doc, &opts);
    assert_eq!(rows[0].count, 4);
    assert_eq!(rows[0].numeric_count(), 3);
    assert_eq!(rows[0].min().map(f64::from_bits), Some(-7.5));
    assert_eq!(rows[0].max().map(f64::from_bits), Some(12.0));
    assert_eq!(sum_of(&rows[0]), 7.5);
}

#[test]
fn counts_of_all_groups_add_up() {
    let doc = doc_from(b"a,1\nb,2\na,3\nc,4\nb,5\na,6\n");
    for budget_bytes in [1, 1 << 20] {
        let opts = GroupOptions {
            key_column: Some(1),
            budget_bytes,
            fields: FieldSpec {
                csv: true,
                ..Default::default()
            },
            ..Default::default()
        };
        let (rows, stats) = group_doc(&doc, &opts);
        assert_eq!(rows.iter().map(|r| r.count).sum::<u64>(), 6);
        assert_eq!(stats.groups, rows.len() as u64);
    }
}

#[test]
fn passes_merge_neighbouring_runs() {
    assert_eq!(merge_groups(0), None);
    assert_eq!(merge_groups(MERGE_FAN_IN), None);
    assert_eq!(
        merge_groups(2 * MERGE_FAN_IN + 1),
        Some(vec![
            (0, MERGE_FAN_IN),
            (MERGE_FAN_IN, 2 * MERGE_FAN_IN),
            (2 * MERGE_FAN_IN, 2 * MERGE_FAN_IN + 1)
        ])
    );
}

#[test]
fn spilled_bytes_are_counted() {
    let doc = doc_from(b"b\na\n");
    let one = sort_doc(&doc, &SortOptions::default());
    assert_eq!((one.runs, one.spill_bytes), (1, 2 * 16 + 2 * 13));
    let doc = doc_from(b"a\nb\na\n");
    let mut opts = GroupOptions::default();
    assert_eq!(group_doc(&doc, &opts).1.spill_bytes, 0);
    opts.budget_bytes = 1;
    let stats = group_doc(&doc, &opts).1;
    assert_eq!((stats.groups, stats.runs, stats.spill_bytes), (2, 3, 3 * 358));
}

fn utf16(s: &str, le: bool) -> Vec<u8> {
    s.encode_utf16()
        .flat_map(|u| if le { u.to_le_bytes() } else { u.to_be_bytes() })
        .collect()
}

fn wide_doc(bytes: &[u8], le: bool) -> Document<'_> {
    let opts = OpenOptions {
        encoding: Some(if le { Encoding::Utf16Le } else { Encoding::Utf16Be }),
        ..Default::default()
    };
    Document::open("wide.csv".to_string(), bytes, &opts)
}

#[test]
fn columns_of_utf16_are_split_by_characters() {
    for le in [true, false] {
        // U+4E2C and U+2C4E hold the byte of a comma.
        let bytes = utf16("\u{4E2C}\u{2C4E},10\nb,9\n\u{4E2C}\u{2C4E},7\n", le);
        let doc = wide_doc(&bytes, le);
        let spec = FieldSpec::default();
        let raw = doc.raw_line(0).unwrap();
        let (field, enc) = find_field(raw, doc.encoding(), Some(1), &spec);
        assert_eq!((field.as_slice(), enc), ("\u{4E2C}\u{2C4E}".as_bytes(), Encoding::Utf8));
        let (field, enc) = find_field(raw, doc.encoding(), Some(2), &spec);
        assert_eq!(numeric_text(&field, enc), "10");
        let (field, enc) = find_field(raw, doc.encoding(), None, &spec);
        assert_eq!(numeric_text(&field, enc), "\u{4E2C}\u{2C4E},10");

        let sorted = sort_doc(
            &doc,
            &SortOptions {
                key_column: Some(2),
                numeric: true,
                budget_bytes: 1 << 20,
                ..Default::default()
            },
        );
        assert_eq!(
            sorted_lines(&doc, &sorted),
            vec!["\u{4E2C}\u{2C4E},7", "b,9", "\u{4E2C}\u{2C4E},10"]
        );

        let opts = GroupOptions {
            key_column: Some(1),
            value_column: Some(2),
            budget_bytes: 1 << 20,
            ..Default::default()
        };
        let (rows, _) = group_doc(&doc, &opts);
        assert_eq!(rows.len(), 2);
        assert_eq!((rows[0].key.as_slice(), rows[0].count, sum_of(&rows[0])), (&b"b"[..], 1, 9.0));
        assert_eq!(rows[1].key, "\u{4E2C}\u{2C4E}".as_bytes());
        assert_eq!((rows[1].count, sum_of(&rows[1])), (2, 17.0));

        let top = top_lines(
            &doc,
            &TopOptions {
                key_column: Some(2),
                numeric: true,
                largest: true,
                n: 1,
                ..Default::default()
            },
        );
        assert_eq!(top, vec!["\u{4E2C}\u{2C4E},10"]);

        let h = distinct(
            &doc,
            &DistinctOptions {
                key_column: Some(1),
                ..Default::default()
            },
        );
        assert_eq!(estimate(&h), 2);
    }
}

#[test]
fn quotes_of_utf16_are_counted_by_characters() {
    let spec = FieldSpec {
        csv: true,
        ..FieldSpec::default()
    };
    for le in [true, false] {
        // U+2022 and U+2222 hold the byte of a quote.
        let bytes = utf16("\u{2022},1\n\"a\nb,c\",2\n\u{2222}\u{2022},3\n", le);
        let doc = wide_doc(&bytes, le);
        let raws = raw_records(&doc, &spec);
        assert_eq!(raws.len(), 3);
        let fields: Vec<Vec<u8>> = raws
            .iter()
            .map(|raw| find_field(raw, doc.encoding(), Some(1), &spec).0)
            .collect();
        assert_eq!(
            fields,
            vec!["\u{2022}".as_bytes(), b"a\nb,c", "\u{2222}\u{2022}".as_bytes()]
        );
    }
}
