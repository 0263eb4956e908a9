use ayame_core::search::SearchOptions;
use ayame_core::{
    Document, EditSession, Encoding, Eol, LineIndex, OpenOptions, TailRefresh, CHECKPOINT_BYTES,
    DEFAULT_STRIDE, MINIMUM_SUPPORTED_LINES,
};

fn open(bytes: &[u8]) -> Document<'_> {
    Document::open("input.log".to_string(), bytes, &OpenOptions::default())
}

fn open_as(bytes: &[u8], enc: Encoding) -> Document<'_> {
    let opts = OpenOptions {
        encoding: Some(enc),
        ..Default::default()
    };
    Document::open("input.log".to_string(), bytes, &opts)
}

/// A small generator of reproducible numbers.
struct Rng(u64);

impl Rng {
    fn next_u64(&mut self) -> u64 {
        self.0 = self.0.wrapping_add(0x9E37_79B9_7F4A_7C15);
        let mut z = self.0;
        z = (z ^ (z >> 30)).wrapping_mul(0xBF58_476D_1CE4_E5B9);
        z = (z ^ (z >> 27)).wrapping_mul(0x94D0_49BB_1331_11EB);
        z ^ (z >> 31)
    }

    fn below(&mut self, n: u64) -> u64 {
        self.next_u64() % n
    }
}

#[test]
fn open_and_navigate() {
    let mut data = Vec::new();
    for i in 0..10_000u64 {
        data.extend_from_slice(format!("record {i},payload\n").as_bytes());
    }
    let doc = open(&data);
    assert_eq!(doc.line_count(), 10_000);
    assert_eq!(doc.line(0).unwrap(), "record 0,payload");
    assert_eq!(doc.line(9_999).unwrap(), "record 9999,payload");
    let view = doc.lines(5000, 3);
    assert_eq!(view[0].text, "record 5000,payload");
    assert_eq!(view[2].number, 5002);
    let tail = doc.tail(2);
    assert_eq!(tail[1].text, "record 9999,payload");
}

#[test]
fn empty_file_is_safe() {
    let doc = open(b"");
    assert_eq!(doc.line_count(), 0);
    assert!(doc.line(0).is_none());
    assert!(doc.lines(0, 10).is_empty());
}

#[test]
fn legacy_line_col_byte_walks_raw_bytes_after_malformed_byte() {
    let doc = open_as(&[0x82, b'\n'], Encoding::ShiftJis);
    assert_eq!(doc.line_col_byte(0, 0), Some(0));
    assert_eq!(doc.line_col_byte(0, 1), Some(1));
}

#[test]
fn refresh_tail_follows_appended_data() {
    let first = b"line 0\nline 1\n".to_vec();
    let grown = b"line 0\nline 1\nline 2\nline 3\n".to_vec();
    let shrunk = b"fresh\n".to_vec();
    let mut doc = open(&first);
    assert_eq!(doc.line_count(), 2);
    assert_eq!(doc.refresh_tail(&first), TailRefresh::Unchanged);
    assert_eq!(doc.line_count(), 2);

    assert_eq!(doc.refresh_tail(&grown), TailRefresh::Grew);
    assert_eq!(doc.line_count(), 4);
    assert_eq!(doc.line(3).unwrap(), "line 3");
    assert_eq!(doc.byte_len(), grown.len() as u64);

    assert_eq!(doc.refresh_tail(&shrunk), TailRefresh::Reindex);
}

#[test]
fn search_through_document() {
    let mut data = Vec::new();
    for i in 0..1000u64 {
        data.extend_from_slice(format!("id={i} status=ok\n").as_bytes());
    }
    data.extend_from_slice(b"id=1000 status=ERROR\n");
    let doc = open(&data);
    let hit = doc
        .find_next("ERROR", false, true, false, 0)
        .unwrap()
        .unwrap();
    assert_eq!(hit.line, 1000);
}

#[test]
fn forced_legacy_search_handles_empty_and_bom_only_files() {
    for bytes in [&b""[..], &b"\xEF\xBB\xBF"[..]] {
        let doc = open_as(bytes, Encoding::ShiftJis);
        let res = doc
            .search(&SearchOptions {
                query: "needle".into(),
                max_hits: 10,
                ..SearchOptions::default()
            })
            .unwrap();
        assert!(res.hits.is_empty());
        assert!(!res.truncated);
    }
}

#[test]
fn a_document_says_what_it_is() {
    let bytes = b"\xEF\xBB\xBFalpha\r\nbeta\r\n";
    let mut doc = open(bytes);
    doc.set_index_ms(7);
    let st = doc.stat();
    assert_eq!(st.path, "input.log");
    assert_eq!(st.bytes, 16);
    assert_eq!(st.lines, 2);
    assert_eq!(st.encoding, Encoding::Utf8);
    assert_eq!(st.eol, Eol::Crlf);
    assert_eq!(st.bom_bytes, 3);
    assert_eq!(st.stride, DEFAULT_STRIDE);
    assert_eq!(st.checkpoints, 1);
    assert_eq!(st.index_bytes, 16);
    assert_eq!(st.index_ms, 7);
    assert!(!st.from_cache);
    assert_eq!(doc.prefix_bytes(), &b"\xEF\xBB\xBF"[..]);
    assert_eq!(doc.raw_line(1), Some(&b"beta"[..]));
    assert_eq!(doc.raw_line_with_terminator(1), Some(&b"beta\r\n"[..]));
    assert_eq!(doc.line_terminator(0), Some(&b"\r\n"[..]));
    assert_eq!(doc.default_terminator(), b"\r\n".to_vec());
    assert_eq!(doc.line_start_byte(1), Some(10));
    assert_eq!(doc.line_col_byte(1, 2), Some(12));
    assert_eq!(doc.raw_lines_span(0, 2), Some(&bytes[3..]));
    assert_eq!(doc.raw_lines_span(1, 1), Some(&b""[..]));
    assert_eq!(doc.raw_lines_span(1, 3), None);
    assert_eq!(doc.raw_byte_range(3, 8), Some(&b"alpha"[..]));
    assert_eq!(doc.raw_byte_range(8, 3), None);
    assert_eq!(doc.head(1)[0].text, "alpha");
    assert_eq!(doc.raw_line_ranges(0, 9).len(), 2);
    assert_eq!(
        doc.raw_line_ranges_with_terminator(1, 1),
        vec![(1, &b"beta"[..], &b"\r\n"[..])]
    );
    assert!(doc.line(2).is_none());
    assert!(doc.raw_line(2).is_none());
}

#[test]
fn an_index_that_was_kept_opens_the_same_document() {
    let bytes = b"a\nb\nc\n";
    let kept = LineIndex::build(bytes, 0, DEFAULT_STRIDE);
    let doc = Document::open_with_index("x".to_string(), bytes, &OpenOptions::default(), kept);
    assert!(doc.from_cache());
    assert_eq!(doc.line_count(), 3);
    assert_eq!(doc.line(2).unwrap(), "c");
}

#[test]
fn a_grown_document_is_the_document_opened_again() {
    let first = b"one\ntwo".to_vec();
    let grown = b"one\ntwo three\r\nfour\n".to_vec();
    let mut doc = open(&first);
    assert_eq!(doc.refresh_tail(&grown), TailRefresh::Grew);
    let again = open(&grown);
    assert_eq!(doc.line_count(), again.line_count());
    for i in 0..again.line_count() {
        assert_eq!(doc.line(i), again.line(i));
    }
    assert_eq!(doc.eol(), Eol::Lf, "line ends are those of when it was opened");
}

// ---- the index ----

fn lines_of(buf: &[u8], idx: &LineIndex) -> Vec<String> {
    (0..idx.line_count())
        .map(|i| {
            let (s, e) = idx.line_range(buf, i).unwrap();
            String::from_utf8_lossy(&buf[s as usize..e as usize]).into_owned()
        })
        .collect()
}

#[test]
fn counts_match_editor_semantics() {
    let cases: &[(&[u8], u64)] = &[
        (b"", 0),
        (b"a", 1),
        (b"a\n", 1),
        (b"a\nb", 2),
        (b"a\nb\n", 2),
        (b"\n", 1),
        (b"\n\n", 2),
    ];
    for (buf, want) in cases {
        let idx = LineIndex::build(buf, 0, 4096);
        assert_eq!(idx.line_count(), *want, "buf={:?}", buf);
    }
}

#[test]
fn random_access_with_tiny_stride() {
    let mut buf = Vec::new();
    for i in 0..1000u64 {
        buf.extend_from_slice(format!("line-{i}\n").as_bytes());
    }
    let idx = LineIndex::build(&buf, 0, 7);
    assert_eq!(idx.line_count(), 1000);
    for i in [0u64, 1, 6, 7, 8, 42, 499, 500, 998, 999] {
        let (s, e) = idx.line_range(&buf, i).unwrap();
        assert_eq!(&buf[s as usize..e as usize], format!("line-{i}").as_bytes());
    }
    assert!(idx.line_range(&buf, 1000).is_none());
}

#[test]
fn crlf_is_trimmed() {
    let buf = b"alpha\r\nbeta\r\ngamma";
    let idx = LineIndex::build(buf, 0, 4096);
    assert_eq!(idx.line_count(), 3);
    assert_eq!(lines_of(buf, &idx), vec!["alpha", "beta", "gamma"]);
}

#[test]
fn viewport_matches_individual_lookup() {
    let mut buf = Vec::new();
    for i in 0..500u64 {
        buf.extend_from_slice(format!("row {i}\n").as_bytes());
    }
    let idx = LineIndex::build(&buf, 0, 13);
    let view = idx.line_ranges(&buf, 100, 50);
    assert_eq!(view.len(), 50);
    for (line, s, e) in view {
        let (s2, e2) = idx.line_range(&buf, line).unwrap();
        assert_eq!((s, e), (s2, e2));
    }
}

#[test]
fn byte_to_line_roundtrips() {
    let mut buf = Vec::new();
    for i in 0..2000u64 {
        buf.extend_from_slice(format!("x{i}\n").as_bytes());
    }
    let idx = LineIndex::build(&buf, 0, 11);
    for i in [0u64, 1, 10, 11, 12, 1234, 1999] {
        let (s, _e) = idx.line_range(&buf, i).unwrap();
        assert_eq!(idx.line_of_byte(&buf, s), i);
    }
}

#[test]
fn bom_offset_is_skipped() {
    let mut buf = vec![0xEF, 0xBB, 0xBF];
    buf.extend_from_slice(b"first\nsecond\n");
    let idx = LineIndex::build(&buf, 3, 4096);
    assert_eq!(idx.line_count(), 2);
    let (s, e) = idx.line_range(&buf, 0).unwrap();
    assert_eq!(&buf[s as usize..e as usize], b"first");
}

#[test]
fn wide_lines_end_at_aligned_units() {
    // The second unit has a line feed as its high byte.
    let buf = [b'a', 0, 0x00, 0x0A, b'\n', 0, b'b', 0];
    let idx = LineIndex::build_utf16_le(&buf, 0, 4);
    assert_eq!(idx.line_count(), 2);
    assert_eq!(idx.line_range_with_terminator(&buf, 0), Some((0, 4, 6)));
    assert_eq!(idx.line_range(&buf, 1), Some((6, 8)));
    let be = [0, b'a', 0, b'\r', 0, b'\n', 0, b'b'];
    let idx = LineIndex::build_utf16_be(&be, 0, 4);
    assert_eq!(idx.line_range_with_terminator(&be, 0), Some((0, 2, 6)));
}

#[test]
fn an_index_over_many_chunks_counts_every_line() {
    // Larger than one chunk of the scan.
    let mut buf = Vec::new();
    let mut n: u64 = 0;
    while buf.len() < 20 * 1024 * 1024 {
        buf.extend_from_slice(b"0123456789abcdef0123456789abcdef0123456789abcdef\n");
        n += 1;
    }
    let idx = LineIndex::build(&buf, 0, 4096);
    assert_eq!(idx.line_count(), n);
    assert_eq!(idx.line_range(&buf, n - 1), Some(((n - 1) * 49, n * 49 - 1)));
    assert_eq!(idx.line_range(&buf, 4097), Some((4097 * 49, 4098 * 49 - 1)));
    assert_eq!(idx.line_of_byte(&buf, 4097 * 49 + 48), 4097);
}

// ---- at scale ----

fn line_content(i: u64) -> String {
    format!("L{i:012}:{}", i.wrapping_mul(2_654_435_761) % 100_000)
}

fn generate(n_lines: u64) -> Vec<u8> {
    let mut out = Vec::new();
    for i in 0..n_lines {
        out.extend_from_slice(line_content(i).as_bytes());
        out.push(b'\n');
    }
    out
}

#[test]
fn checkpoint_arithmetic_is_exact_and_bounded_at_ten_billion_lines() {
    let lines = MINIMUM_SUPPORTED_LINES;
    let stride = DEFAULT_STRIDE;
    let checkpoints = LineIndex::checkpoint_count_for_lines(lines, stride);
    assert_eq!(checkpoints, (lines - 1) / stride + 1, "ceil(lines/stride)");
    assert_eq!(checkpoints, 2_441_407);
    let mem = LineIndex::memory_bytes_for_lines(lines, stride);
    assert_eq!(mem, checkpoints * CHECKPOINT_BYTES);
    assert_eq!(mem, 39_062_512);
    assert!(mem < 64 * 1024 * 1024);
}

#[test]
fn checkpoint_arithmetic_handles_degenerate_and_overflow_inputs() {
    assert_eq!(
        LineIndex::checkpoint_count_for_lines(MINIMUM_SUPPORTED_LINES, 1),
        MINIMUM_SUPPORTED_LINES
    );
    assert_eq!(LineIndex::checkpoint_count_for_lines(0, DEFAULT_STRIDE), 0);
    assert_eq!(LineIndex::checkpoint_count_for_lines(1000, 0), 1000);
    let huge = u64::MAX;
    assert_eq!(
        LineIndex::checkpoint_count_for_lines(huge, DEFAULT_STRIDE),
        (huge - 1) / DEFAULT_STRIDE + 1
    );
}

#[test]
fn resident_memory_is_monotonic_across_scales() {
    let stride = DEFAULT_STRIDE;
    let scales = [
        1_000_000u64,
        100_000_000,
        1_000_000_000,
        MINIMUM_SUPPORTED_LINES,
    ];
    let mut prev = 0u64;
    for n in scales {
        let mem = LineIndex::memory_bytes_for_lines(n, stride);
        assert!(mem >= prev, "resident memory must not shrink as lines grow");
        prev = mem;
    }
}

#[test]
fn arbitrary_line_resolution_is_exact_with_a_small_stride() {
    let n = 1_000_000u64;
    let bytes = generate(n);
    let opts = OpenOptions {
        stride: Some(64),
        ..Default::default()
    };
    let doc = Document::open("big.txt".to_string(), &bytes, &opts);
    assert_eq!(doc.line_count(), n, "line count at scale");

    let mut probes = vec![0u64, 1, 63, 64, 65, 4095, 4096, n / 2, n - 2, n - 1];
    let mut rng = Rng(0x5CA1E);
    for _ in 0..300 {
        probes.push(rng.below(n));
    }
    for &i in &probes {
        assert_eq!(doc.line(i).unwrap(), line_content(i), "Document::line({i})");
    }

    let idx = LineIndex::build(&bytes, 0, 64);
    assert_eq!(idx.line_count(), n);
    for &i in &probes {
        let (start, end) = idx.line_range(&bytes, i).unwrap();
        assert_eq!(
            &bytes[start as usize..end as usize],
            line_content(i).as_bytes(),
            "index line_range({i})"
        );
        assert_eq!(idx.line_of_byte(&bytes, start), i);
    }
}

#[test]
fn tail_edit_saves_byte_exact_with_neighbours_intact() {
    let n = 400_000u64;
    let orig = generate(n);
    let opts = OpenOptions {
        stride: Some(128),
        ..Default::default()
    };
    let doc = Document::open("tail.txt".to_string(), &orig, &opts);
    let target = n - 2;
    let mut edits = EditSession::default();
    edits
        .replace_line(&doc, target, "EDITED TAIL LINE".to_string())
        .unwrap();
    let saved = edits.write_stream(&doc).unwrap();

    let doc2 = open(&saved);
    assert_eq!(doc2.line_count(), n, "line count preserved after tail edit");
    assert_eq!(doc2.line(target).unwrap(), "EDITED TAIL LINE");
    for &i in &[0u64, target - 1, target + 1, n - 1] {
        assert_eq!(doc2.line(i).unwrap(), line_content(i), "neighbour {i} intact");
    }

    let orig_idx = LineIndex::build(&orig, 0, 128);
    let saved_idx = LineIndex::build(&saved, 0, 128);
    let (orig_start, _, orig_raw_end) = orig_idx.line_range_with_terminator(&orig, target).unwrap();
    let (saved_start, _, saved_raw_end) =
        saved_idx.line_range_with_terminator(&saved, target).unwrap();
    assert_eq!(orig_start, saved_start);
    assert_eq!(&saved[..saved_start as usize], &orig[..orig_start as usize]);
    assert_eq!(
        &saved[saved_raw_end as usize..],
        &orig[orig_raw_end as usize..]
    );
}

#[test]
fn there_is_a_line_for_each_line_feed_and_one_for_an_open_end() {
    let cases: [&[u8]; 6] = [b"", b"\n", b"a", b"a\n\nb", b"a\r\nb\n", b"\r\r"];
    for buf in cases {
        let doc = open_as(buf, Encoding::Utf8);
        let feeds = buf.iter().filter(|&&b| b == 10).count() as u64;
        let open_end = !buf.is_empty() && buf.last() != Some(&10);
        assert_eq!(doc.line_count(), feeds + u64::from(open_end), "{buf:?}");
    }
    // In UTF-16 only aligned units count, and half a unit is an open end.
    let doc = open_as(b"a\0\n\0\0\n\0", Encoding::Utf16Le);
    assert_eq!(doc.line_count(), 2);
}
