//! What groups, best rows, distinct values and logs come to.

use crate::arrange::ascii_texts_are_their_own_keys;
use crate::bytes::occurs_at;
use crate::carets::{carets_stand_behind_their_texts, end_of, single_lines, text_behind};
use crate::detect::SNIFF;
use crate::distinct::{
    hash_of, kept_precision, key_hashes, register_of, rho, DistinctOptions,
};
use crate::document::{column_byte, opened, DocView};
use crate::encoding::{decoded, utf8_cut, Encoding};
use crate::fields::{field_at, field_text, key_less, text_key, FieldSpec};
use crate::finds::{a_text_is_found_wherever_it_stands, wanted};
use crate::grep::{
    binary, looked_at, name_passes, searched, EntryKind, EntryView, WalkView,
};
use crate::group::{group_keys, group_values, values_in, GroupOptions};
use crate::index::window_len;
use crate::model::{
    batch_end, clamped_spans, lemma_order, lemma_slot, slot, span_order, stepped, Model, Span,
};
use crate::overlay::{
    deleted_upto, inserted_upto, lemma_refers, lemma_upto_len, refers, replaced_upto, shown,
    EventView, LineRef,
};
use crate::patterns::{planned, PlanView};
use crate::reading::{
    buffers_are_known_by_their_bytes, columns_are_counted_from_one, unmarked,
};
use crate::recovery::{inspected, surveyed, LogLineView, RecoveryInfo};
use crate::runs::Rec;
use crate::save::bom_image;
use crate::search::{all_hits, first_hit, literal_before, prev_found, HitView, Source};
use crate::session::{batch_caret, shows, EditLine};
use crate::sort::is_nan_bits;
use crate::text::joined;
use crate::top::{kept, record_keys, the_best_rows_stay, TopOptions};
use crate::wal::{BatchEditView, HeaderView, LoggedOpView, RecordView};
use crate::walk::{after_chars, column_offset, step};
use vstd::prelude::*;
use vstd::std_specs::bits::{axiom_u64_leading_zeros, u64_leading_zeros};
use vstd::utf8::*;

verus! {

// ---- best rows ---------------------------------------------------------------

/// Of the rows that stay each key is at least the next where the largest are
/// wanted, and at most the next where the smallest are; rows of one key come in
/// their order. No row that was left out has a larger key, or a smaller one.
pub proof fn the_largest_or_smallest_stay(recs: Seq<Rec>, n: nat, largest: bool)
    requires
        n > 0,
    ensures
        ({
            let s = kept(recs, n, largest);
            &&& s.len() == if n <= recs.len() { n } else { recs.len() }
            &&& forall|i: int| 0 <= i < s.len() ==> recs.contains(#[trigger] s[i])
            &&& largest ==> forall|i: int, j: int|
                0 <= i < j < s.len() ==> !key_less((#[trigger] s[i]).0, (#[trigger] s[j]).0)
            &&& !largest ==> forall|i: int, j: int|
                0 <= i < j < s.len() ==> !key_less((#[trigger] s[j]).0, (#[trigger] s[i]).0)
            &&& forall|i: int, j: int|
                0 <= i < j < s.len() && (#[trigger] s[i]).0 == (#[trigger] s[j]).0 ==> s[i].1
                    <= s[j].1
            &&& largest ==> forall|x: Rec, i: int|
                #[trigger] recs.contains(x) && !s.contains(x) && 0 <= i < s.len() ==> !key_less(
                    (#[trigger] s[i]).0,
                    x.0,
                )
            &&& !largest ==> forall|x: Rec, i: int|
                #[trigger] recs.contains(x) && !s.contains(x) && 0 <= i < s.len() ==> !key_less(
                    x.0,
                    (#[trigger] s[i]).0,
                )
        }),
{
    let s = kept(recs, n, largest);
    the_best_rows_stay(recs, n, largest);
    assert forall|i: int, j: int| 0 <= i < j < s.len() implies {
        &&& largest ==> !key_less((#[trigger] s[i]).0, (#[trigger] s[j]).0)
        &&& !largest ==> !key_less(s[j].0, s[i].0)
        &&& s[i].0 == s[j].0 ==> s[i].1 <= s[j].1
    } by {
        assert(!crate::runs::rec_less(s[j], s[i], largest));
        crate::fields::keys_are_ordered(s[i].0, s[j].0, s[i].0);
        crate::fields::keys_are_ordered(s[j].0, s[i].0, s[j].0);
    }
}

// ---- groups ------------------------------------------------------------------

/// Which records give the numbers of a group.
pub open spec fn gives(
    at: Seq<int>,
    keys: Seq<Seq<u8>>,
    vals: Seq<Option<u64>>,
    k: Seq<u8>,
    a: int,
    b: int,
) -> bool {
    &&& forall|j: int|
        0 <= j < at.len() ==> a <= #[trigger] at[j] < b && keys[at[j]] == k && vals[at[j]] is Some
    &&& forall|i: int, j: int| 0 <= i < j < at.len() ==> #[trigger] at[i] < #[trigger] at[j]
    &&& forall|r: int|
        a <= r < b && #[trigger] keys[r] == k && vals[r] is Some ==> at.contains(r)
}

/// The numbers of a group are those of the records with its key that hold one,
/// each once, in their order.
pub proof fn every_number_is_in_its_group(
    keys: Seq<Seq<u8>>,
    vals: Seq<Option<u64>>,
    k: Seq<u8>,
    a: int,
    b: int,
) -> (at: Seq<int>)
    requires
        a <= b,
    ensures
        gives(at, keys, vals, k, a, b),
        values_in(keys, vals, k, a, b) == at.map_values(|r: int| vals[r]->Some_0),
    decreases b - a,
{
    let f = |r: int| vals[r]->Some_0;
    if a == b {
        let none = Seq::<int>::empty();
        assert(values_in(keys, vals, k, a, b) =~= none.map_values(f));
        none
    } else {
        let p = every_number_is_in_its_group(keys, vals, k, a, b - 1);
        if keys[b - 1] == k && vals[b - 1] is Some {
            let at = p.push(b - 1);
            assert(values_in(keys, vals, k, a, b) =~= at.map_values(f));
            assert forall|r: int| a <= r < b && #[trigger] keys[r] == k && vals[r] is Some
                implies at.contains(r) by {
                if r < b - 1 {
                    assert(p.contains(r));
                    let j = choose|j: int| 0 <= j < p.len() && p[j] == r;
                    assert(at[j] == r);
                } else {
                    assert(at[p.len() as int] == r);
                }
            }
            at
        } else {
            p
        }
    }
}

proof fn lemma_ascii_key(b: Seq<u8>)
    requires
        forall|i: int| 0 <= i < b.len() ==> (#[trigger] b[i]) < 0x80,
    ensures
        text_key(decoded(Encoding::Utf8, b)) == b,
{
    let t = Seq::new(b.len(), |i: int| b[i] as char);
    assert(is_ascii_chars(t)) by {
        assert forall|i: int| 0 <= i < t.len() implies '\0' <= #[trigger] t[i] <= '\u{7f}' by {
            assert(b[i] < 0x80);
        }
    }
    is_ascii_chars_encode_utf8(t);
    assert(encode_utf8(t) =~= b) by {
        assert forall|i: int| 0 <= i < t.len() implies encode_utf8(t)[i] == b[i] by {
            assert(b[i] < 0x80);
            assert(t[i] as u8 == b[i]);
        }
    }
    encode_utf8_valid_utf8(t);
    encode_utf8_decode_utf8(t);
    ascii_texts_are_their_own_keys(t);
    assert(text_key(t) =~= b) by {
        assert forall|i: int| 0 <= i < t.len() implies text_key(t)[i] == b[i] by {
            assert(b[i] < 0x80);
            assert(t[i] as u8 == b[i]);
        }
    }
}

proof fn lemma_field_key(raw: Seq<u8>, col: Option<usize>, spec: FieldSpec)
    requires
        !spec.csv,
        forall|i: int| 0 <= i < raw.len() ==> (#[trigger] raw[i]) < 0x80,
    ensures
        text_key(field_text(Encoding::Utf8, raw, col, spec)) == field_at(raw, col, spec),
{
    let f = field_at(raw, col, spec);
    assert(forall|i: int| 0 <= i < f.len() ==> (#[trigger] f[i]) < 0x80) by {
        if let Some(c) = col {
            columns_are_counted_from_one(raw, c, spec);
            if c > 0 && f.len() > 0 {
                let (a, b) = choose|a: int, b: int|
                    0 <= a <= b <= raw.len() && f == #[trigger] raw.subrange(a, b);
                assert(f == raw.subrange(a, b));
                assert forall|i: int| 0 <= i < f.len() implies (#[trigger] f[i]) < 0x80 by {
                    assert(f[i] == raw[a + i]);
                }
            }
        }
    }
    lemma_ascii_key(f);
}

/// Records of plain ASCII are grouped by the field that is asked for, or by the
/// whole record.
pub proof fn records_are_grouped_by_their_field(doc: DocView, opts: GroupOptions, i: int)
    requires
        doc.encoding == Encoding::Utf8,
        !opts.fields.csv,
        0 <= i < doc.records(opts.fields, 0).len(),
        ({
            let r = doc.records(opts.fields, 0)[i];
            forall|j: int|
                0 <= j < doc.buf.subrange(r.0, r.1).len() ==> (#[trigger] doc.buf.subrange(
                    r.0,
                    r.1,
                )[j]) < 0x80
        }),
    ensures
        group_keys(doc, opts).len() == doc.records(opts.fields, 0).len(),
        ({
            let r = doc.records(opts.fields, 0)[i];
            group_keys(doc, opts)[i] == field_at(
                doc.buf.subrange(r.0, r.1),
                opts.key_column,
                opts.fields,
            )
        }),
{
    let r = doc.records(opts.fields, 0)[i];
    lemma_field_key(doc.buf.subrange(r.0, r.1), opts.key_column, opts.fields);
}

/// Rows of plain ASCII are ranked by the field that is asked for, or by the
/// whole record.
pub proof fn rows_are_ranked_by_their_field(
    doc: DocView,
    opts: TopOptions,
    numbers: Seq<u64>,
    i: int,
)
    requires
        doc.encoding == Encoding::Utf8,
        !opts.fields.csv,
        !opts.numeric,
        0 <= i < doc.records(opts.fields, 0).len(),
        ({
            let r = doc.records(opts.fields, 0)[i];
            forall|j: int|
                0 <= j < doc.buf.subrange(r.0, r.1).len() ==> (#[trigger] doc.buf.subrange(
                    r.0,
                    r.1,
                )[j]) < 0x80
        }),
    ensures
        record_keys(doc, opts, numbers).len() == doc.records(opts.fields, 0).len(),
        ({
            let r = doc.records(opts.fields, 0)[i];
            record_keys(doc, opts, numbers)[i] == (
                field_at(doc.buf.subrange(r.0, r.1), opts.key_column, opts.fields),
                i as u64,
            )
        }),
{
    let r = doc.records(opts.fields, 0)[i];
    lemma_field_key(doc.buf.subrange(r.0, r.1), opts.key_column, opts.fields);
}

/// Lines of plain ASCII count as distinct by the field that is asked for, or by
/// the whole line.
pub proof fn values_are_told_apart_by_their_field(doc: DocView, opts: DistinctOptions, i: nat)
    requires
        doc.encoding == Encoding::Utf8,
        !opts.fields.csv,
        i < doc.count(),
        forall|j: int| 0 <= j < doc.raw(i).len() ==> (#[trigger] doc.raw(i)[j]) < 0x80,
    ensures
        key_hashes(doc, opts).len() == doc.count(),
        key_hashes(doc, opts)[i as int] == hash_of(
            field_at(doc.raw(i), opts.key_column, opts.fields),
        ),
{
    lemma_field_key(doc.raw(i), opts.key_column, opts.fields);
}

// ---- distinct values ---------------------------------------------------------

/// The rank of a hash is one more than the number of zeros behind its first
/// bits, and where they are all zero, one more than there are of them.
pub proof fn ranks_count_zeros(h: u64, p: u32)
    requires
        4 <= p <= 18,
    ensures
        (h << (p as u64)) != 0 ==> rho(h, p) == u64_leading_zeros(h << (p as u64)) + 1,
        (h << (p as u64)) == 0 ==> rho(h, p) == 65 - p,
        1 <= rho(h, p) <= 65 - p,
{
    let q = p as u64;
    let rest = h << q;
    let guard = 1u64 << ((p - 1) as u64);
    let g = (p - 1) as u64;
    let x = rest | guard;
    axiom_u64_leading_zeros(rest);
    axiom_u64_leading_zeros(x);
    let a = u64_leading_zeros(x) as u64;
    assert(x != 0) by (bit_vector)
        requires
            x == rest | guard,
            guard == 1u64 << g,
            3 <= g <= 17,
    ;
    if rest == 0 {
        let s = (63 - a) as u64;
        assert(s == g) by (bit_vector)
            requires
                x == 0u64 | guard,
                guard == 1u64 << g,
                3 <= g <= 17,
                s <= 63,
                (x >> s) & 1u64 != 0u64,
        ;
        assert(rho(h, p) == 65 - p);
    } else {
        let b = u64_leading_zeros(rest) as u64;
        let s = (63 - a) as u64;
        let t = (63 - b) as u64;
        assert(t >= q) by (bit_vector)
            requires
                rest == h << q,
                4 <= q <= 18,
                t <= 63,
                (rest >> t) & 1u64 != 0u64,
        ;
        assert((x >> t) & 1u64 != 0u64) by (bit_vector)
            requires
                x == rest | guard,
                (rest >> t) & 1u64 != 0u64,
        ;
        if s < t {
            assert((x >> t) & 1u64 == 0u64);
        }
        if s > t {
            assert((rest >> s) & 1u64 == 0u64);
            assert((x >> s) & 1u64 == 0u64) by (bit_vector)
                requires
                    x == rest | guard,
                    guard == 1u64 << g,
                    3 <= g <= 17,
                    g < s <= 63,
                    (rest >> s) & 1u64 == 0u64,
            ;
        }
        assert(s == t);
    }
}

// ---- the match before --------------------------------------------------------

proof fn lemma_nothing_before(
    src: Source,
    plan: PlanView,
    ww: bool,
    before: int,
    r: Option<HitView>,
    q: int,
)
    requires
        src.base < before,
        plan is Literal,
        r is None,
        prev_found(src, plan, ww, before, r),
    ensures
        !literal_before(src, plan->Literal_0, ww, before, q),
{
}

/// Looking backwards finds the last match that ends at or before a byte: the
/// text stands there, as a whole word where that is asked for, and stands at no
/// later place before the byte. Nothing is found only where it stands nowhere.
pub proof fn the_last_match_before_is_found(
    src: Source,
    query: Seq<char>,
    ww: bool,
    before: int,
    r: Option<HitView>,
)
    requires
        src.encoding == Encoding::Utf8 || src.encoding == Encoding::Ascii,
        query.len() > 0,
        0 <= src.base < before <= src.buf.len(),
        planned(src.encoding, query, false, true) is Ok,
        prev_found(src, planned(src.encoding, query, false, true)->Ok_0, ww, before, r),
    ensures
        ({
            let needle = encode_utf8(query);
            match r {
                Some(h) => {
                    &&& src.base <= h.byte
                    &&& h.byte + needle.len() <= before
                    &&& h.byte_len == needle.len()
                    &&& wanted(src.buf, needle, ww, h.byte)
                    &&& forall|q: int|
                        q > h.byte && q + needle.len() <= before ==> !#[trigger] wanted(
                            src.buf,
                            needle,
                            ww,
                            q,
                        )
                },
                None => forall|q: int|
                    src.base <= q && q + needle.len() <= before ==> !#[trigger] wanted(
                        src.buf,
                        needle,
                        ww,
                        q,
                    ),
            }
        }),
{
    let needle = encode_utf8(query);
    assert forall|q: int| src.base <= q && q + needle.len() <= before implies literal_before(
        src,
        needle,
        ww,
        before,
        q,
    ) == #[trigger] wanted(src.buf, needle, ww, q) by {
        assert(occurs_at(src.buf, needle, q) <==> src.buf.subrange(q, q + needle.len()) == needle);
    }
    let plan = planned(src.encoding, query, false, true)->Ok_0;
    assert(plan is Literal && plan->Literal_0 == needle);
    match r {
        Some(h) => {
            assert(literal_before(src, needle, ww, before, h.byte));
            assert(wanted(src.buf, needle, ww, h.byte));
            assert forall|q: int| q > h.byte && q + needle.len() <= before implies !#[trigger] wanted(
                src.buf,
                needle,
                ww,
                q,
            ) by {
                assert(!literal_before(src, needle, ww, before, q));
            }
        },
        None => {
            assert forall|q: int| src.base <= q && q + needle.len() <= before implies !#[trigger] wanted(
                src.buf,
                needle,
                ww,
                q,
            ) by {
                lemma_nothing_before(src, plan, ww, before, r, q);
            }
        },
    }
}

// ---- edits and logs ----------------------------------------------------------

/// The lines that are shown are those of the file, with the inserted ones more
/// and the deleted ones less.
pub proof fn lines_add_up(m: Map<u64, EventView>, l: Seq<Seq<char>>)
    requires
        l.len() < u64::MAX,
    ensures
        shown(m, l).len() == l.len() + inserted_upto(m, l.len() as int + 1) - deleted_upto(
            m,
            l.len() as int,
        ),
        deleted_upto(m, l.len() as int) <= l.len(),
{
    lemma_upto_len(m, l, l.len() as int);
}

proof fn lemma_only_changes(lines: Seq<LogLineView>, i: int, n: nat, effective: bool)
    requires
        0 <= i <= lines.len(),
        forall|k: int|
            i <= k < lines.len() ==> (#[trigger] lines[k] matches LogLineView::Entry(
                RecordView::Txn(_),
            )),
    ensures
        surveyed(lines, i, n, effective) == if n + lines.len() - i > 0 || effective {
            RecoveryInfo::Recoverable { transactions: (n + lines.len() - i) as usize }
        } else {
            RecoveryInfo::Clean
        },
    decreases lines.len() - i,
{
    if i < lines.len() {
        assert(lines[i] matches LogLineView::Entry(RecordView::Txn(_)));
        lemma_only_changes(lines, i + 1, n + 1, effective);
    }
}

/// A log that starts with the header of the file and goes on with changes alone
/// can be recovered, with as many changes; without any it is clean. One of
/// another state of the file is stale, and one of another version, or that
/// starts with anything else, is invalid.
pub proof fn logs_hold_their_changes(h: HeaderView, rest: Seq<LogLineView>, expected: HeaderView)
    requires
        forall|k: int|
            0 <= k < rest.len() ==> (#[trigger] rest[k] matches LogLineView::Entry(RecordView::Txn(
                _,
            ))),
    ensures
        ({
            let log = seq![LogLineView::Entry(RecordView::Header(h))] + rest;
            let same = h.base_len == expected.base_len && h.base_mtime_ms == expected.base_mtime_ms
                && h.encoding == expected.encoding;
            &&& h.version != 1 ==> inspected(log, expected) == RecoveryInfo::Invalid
            &&& h.version == 1 && !same ==> inspected(log, expected) == RecoveryInfo::Stale
            &&& h.version == 1 && same && rest.len() == 0 ==> inspected(log, expected)
                == RecoveryInfo::Clean
            &&& h.version == 1 && same && rest.len() > 0 ==> inspected(log, expected) == (
            RecoveryInfo::Recoverable { transactions: rest.len() as usize })
            &&& rest.len() > 0 ==> inspected(rest, expected) == RecoveryInfo::Invalid
        }),
        inspected(Seq::empty(), expected) == RecoveryInfo::Clean,
{
    let log = seq![LogLineView::Entry(RecordView::Header(h))] + rest;
    assert(log[0] == LogLineView::Entry(RecordView::Header(h)));
    assert forall|k: int| 1 <= k < log.len() implies (#[trigger] log[k] matches LogLineView::Entry(
        RecordView::Txn(_),
    )) by {
        assert(log[k] == rest[k - 1]);
    }
    lemma_only_changes(log, 1, 0, false);
    if rest.len() > 0 {
        assert(rest[0] matches LogLineView::Entry(RecordView::Txn(_)));
    }
}

// ---- windows, marks and names ------------------------------------------------

/// A window holds the lines that are asked for, as far as they are there.
pub proof fn windows_hold_what_is_there(start: int, count: int, total: int, i: int)
    requires
        0 <= start,
        0 <= count,
        0 <= total,
    ensures
        0 <= i < window_len(start, count, total) <==> 0 <= i < count && start + i < total,
{
}

/// A file that is saved with a mark is known by it; only UTF-8 gets one.
pub proof fn saved_marks_are_known(path: Seq<char>, content: Seq<u8>, enc: Encoding)
    ensures
        ({
            let doc = opened(path, bom_image(Encoding::Utf8, true) + content, None);
            &&& doc.encoding == Encoding::Utf8
            &&& doc.base == bom_image(Encoding::Utf8, true).len()
            &&& doc.base == 3
        }),
        bom_image(enc, false).len() == 0,
        enc != Encoding::Utf8 ==> bom_image(enc, true).len() == 0,
{
    let buf = bom_image(Encoding::Utf8, true) + content;
    assert(buf[0] == 0xEF && buf[1] == 0xBB && buf[2] == 0xBF);
}

/// Bytes of UTF-8 are cut before a character, as far back as is needed and no
/// further.
pub proof fn cuts_stand_between_characters(b: Seq<u8>, n: nat)
    requires
        n <= b.len(),
    ensures
        utf8_cut(b, n) <= n,
        0 < utf8_cut(b, n) < b.len() ==> !is_continuation_byte(b[utf8_cut(b, n) as int]),
        forall|i: int|
            utf8_cut(b, n) < i <= n && i < b.len() ==> is_continuation_byte(#[trigger] b[i]),
    decreases n,
{
    if n > 0 && n < b.len() && is_continuation_byte(b[n as int]) {
        cuts_stand_between_characters(b, (n - 1) as nat);
    }
}

/// A column of a line in UTF-8 starts behind the bytes of the characters before
/// it; behind the end there is only the end.
pub proof fn columns_stand_behind_characters(t: Seq<char>, col: nat)
    ensures
        col <= t.len() ==> column_byte(Encoding::Utf8, encode_utf8(t), col) == Some(
            encode_utf8(t.take(col as int)).len() as int,
        ),
        col > t.len() ==> column_byte(Encoding::Utf8, encode_utf8(t), col) == Some(
            encode_utf8(t).len() as int,
        ),
{
    encode_utf8_valid_utf8(t);
    encode_utf8_decode_utf8(t);
    assert(t.take(t.len() as int) =~= t);
}

// ---- the next match ----------------------------------------------------------

/// Looking forwards finds the first place from a byte on at which the text
/// stands, and nothing only where it stands nowhere.
pub proof fn the_next_match_is_the_first(src: Source, query: Seq<char>, from: int)
    requires
        src.encoding == Encoding::Utf8 || src.encoding == Encoding::Ascii,
        query.len() > 0,
        0 <= from,
    ensures
        ({
            let needle = encode_utf8(query);
            let plan = planned(src.encoding, query, false, true);
            match first_hit(all_hits(src, plan->Ok_0, false, from)) {
                Some(h) => {
                    &&& from <= h.byte
                    &&& wanted(src.buf, needle, false, h.byte)
                    &&& forall|q: int|
                        from <= q < h.byte ==> !#[trigger] wanted(src.buf, needle, false, q)
                },
                None => forall|q: int| from <= q ==> !#[trigger] wanted(src.buf, needle, false, q),
            }
        }),
{
    let needle = encode_utf8(query);
    let hits = all_hits(src, planned(src.encoding, query, false, true)->Ok_0, false, from);
    a_text_is_found_wherever_it_stands(src, query, false, from);
    assert forall|q: int| from <= q && #[trigger] wanted(src.buf, needle, false, q) implies hits.len()
        > 0 && hits[0].byte <= q by {
        let i = choose|i: int|
            0 <= i < hits.len() && (#[trigger] hits[i]).byte <= q < hits[i].byte + needle.len();
        if i > 0 {
            assert(hits[0].byte + needle.len() <= hits[i].byte);
        }
    }
}

/// The next whole word that is found is one.
pub proof fn the_next_word_is_one(src: Source, query: Seq<char>, from: int)
    requires
        src.encoding == Encoding::Utf8 || src.encoding == Encoding::Ascii,
        query.len() > 0,
        0 <= from,
    ensures
        ({
            let hits = all_hits(src, planned(src.encoding, query, false, true)->Ok_0, true, from);
            &&& first_hit(hits) is None <==> hits.len() == 0
            &&& first_hit(hits) matches Some(h) ==> from <= h.byte && wanted(
                src.buf,
                encode_utf8(query),
                true,
                h.byte,
            ) && forall|i: int| 0 <= i < hits.len() ==> h.byte <= (#[trigger] hits[i]).byte
        }),
{
    a_text_is_found_wherever_it_stands(src, query, true, from);
}

// ---- numbers -----------------------------------------------------------------

/// Bits are no number where the exponent is all ones and the fraction is not
/// zero; infinities are numbers.
pub proof fn what_is_no_number(bits: u64)
    ensures
        is_nan_bits(bits) <==> (bits >> 52) & 2047 == 2047 && bits & 0xF_FFFF_FFFF_FFFF != 0,
{
    assert((bits & 0x7FFF_FFFF_FFFF_FFFF > 0x7FF0_0000_0000_0000) <==> ((bits >> 52) & 2047 == 2047
        && bits & 0xF_FFFF_FFFF_FFFF != 0)) by (bit_vector);
}

/// Numbers are collected where a column for them is given, and otherwise not.
pub proof fn numbers_are_collected_where_asked(
    n: nat,
    opts: GroupOptions,
    values: Seq<Option<u64>>,
    i: int,
)
    requires
        values.len() == n,
        0 <= i < n,
    ensures
        group_values(n, opts, values).len() == n,
        opts.value_column is Some ==> group_values(n, opts, values)[i] == values[i],
        opts.value_column is None ==> group_values(n, opts, values)[i] is None,
{
}

/// The register of a hash is its first bits.
pub proof fn registers_are_the_first_bits(h: u64, p: u32)
    requires
        4 <= p <= 18,
    ensures
        register_of(h, p) < (1u64 << (p as u64)),
        (register_of(h, p) << ((64 - p) as u64)) <= h,
        h - (register_of(h, p) << ((64 - p) as u64)) < (1u64 << ((64 - p) as u64)),
{
    let s = (64 - p) as u64;
    let q = p as u64;
    assert(h >> s < (1u64 << q)) by (bit_vector)
        requires
            4 <= q <= 18,
            s == 64 - q,
    ;
    assert(((h >> s) << s) <= h && h - ((h >> s) << s) < (1u64 << s)) by (bit_vector)
        requires
            46 <= s <= 60,
    ;
}

/// The precision is what is asked for, as far as it lies between 4 and 18.
pub proof fn precision_is_kept_in_bounds(p: u32)
    ensures
        4 <= kept_precision(p) <= 18,
        4 <= p <= 18 ==> kept_precision(p) == p,
        p < 4 ==> kept_precision(p) == 4,
        p > 18 ==> kept_precision(p) == 18,
{
}

// ---- columns of two-byte encodings -------------------------------------------

/// Column 0 is the start of a line, and each column starts where the character
/// of the one before it ends, to the end of the line and not beyond.
pub proof fn columns_follow_characters(enc: Encoding, raw: Seq<u8>, from: int, c: nat)
    ensures
        column_offset(enc, raw, from, 0) == Some(from),
        column_offset(enc, raw, from, c) matches Some(p) ==> {
            &&& p < raw.len() ==> column_offset(enc, raw, from, c + 1) == Some(
                p + step(enc, raw, p),
            )
            &&& p >= raw.len() ==> column_offset(enc, raw, from, c + 1) is None
        },
        column_offset(enc, raw, from, c) is None ==> column_offset(enc, raw, from, c + 1) is None,
    decreases c,
{
    reveal_with_fuel(column_offset, 2);
    if c > 0 && from < raw.len() {
        columns_follow_characters(enc, raw, from + step(enc, raw, from), (c - 1) as nat);
    }
}

/// Walking one character more goes behind the next character, to the end of the
/// line at the latest.
pub proof fn walks_follow_characters(enc: Encoding, raw: Seq<u8>, from: int, n: nat)
    ensures
        after_chars(enc, raw, from, 0) == from,
        ({
            let p = after_chars(enc, raw, from, n);
            after_chars(enc, raw, from, n + 1) == if p < raw.len() {
                p + step(enc, raw, p)
            } else {
                p
            }
        }),
    decreases n,
{
    reveal_with_fuel(after_chars, 2);
    if n > 0 && from < raw.len() {
        walks_follow_characters(enc, raw, from + step(enc, raw, from), (n - 1) as nat);
    }
}

// ---- what is looked at -------------------------------------------------------

/// What starts with a dot is not looked at, nor what is neither a file nor a
/// folder. Every other folder is, and every other file whose name passes.
pub proof fn hidden_entries_are_passed_over(e: EntryView, globs: Seq<Seq<char>>)
    ensures
        e.name.len() > 0 && e.name[0] == '.' ==> !looked_at(e, true, globs) && !looked_at(
            e,
            false,
            globs,
        ),
        e.kind == EntryKind::Other ==> !looked_at(e, true, globs) && !looked_at(e, false, globs),
        e.name.len() == 0 || e.name[0] != '.' ==> {
            &&& looked_at(e, true, globs) <==> e.kind == EntryKind::File && name_passes(
                globs,
                e.name,
            )
            &&& looked_at(e, false, globs) <==> e.kind == EntryKind::Folder
        },
{
}

/// A file in UTF-16 is passed over; one of plain text is searched, as far as it
/// is not too large.
pub proof fn plain_files_are_searched(
    buf: Seq<u8>,
    rest: Seq<u8>,
    max_file_bytes: nat,
    max_hits: nat,
)
    requires
        forall|i: int| 0 <= i < buf.len() ==> 0 < #[trigger] buf[i] < 0x80 && buf[i] != 0x1B,
        0 < buf.len() <= max_file_bytes,
        buf.len() <= SNIFF,
        max_hits > 0,
    ensures
        searched(buf, max_file_bytes, max_hits),
        !searched(seq![0xFFu8, 0xFE] + rest, max_file_bytes, max_hits),
        !searched(seq![0xFEu8, 0xFF] + rest, max_file_bytes, max_hits),
{
    assert(buf[0] < 0x80);
    assert(unmarked(buf));
    let t = Seq::new(buf.len(), |i: int| buf[i] as char);
    assert(is_ascii_chars(t)) by {
        assert forall|i: int| 0 <= i < t.len() implies '\0' <= #[trigger] t[i] <= '\u{7f}' by {
            assert(buf[i] < 0x80);
        }
    }
    is_ascii_chars_encode_utf8(t);
    assert(encode_utf8(t) =~= buf) by {
        assert forall|i: int| 0 <= i < t.len() implies encode_utf8(t)[i] == buf[i] by {
            assert(buf[i] < 0x80);
            assert(t[i] as u8 == buf[i]);
        }
    }
    encode_utf8_valid_utf8(t);
    buffers_are_known_by_their_bytes(Seq::empty(), buf, Encoding::Utf8);
    assert(!binary(buf));
    let le = seq![0xFFu8, 0xFE] + rest;
    let be = seq![0xFEu8, 0xFF] + rest;
    assert(le[0] == 0xFF && le[1] == 0xFE && be[0] == 0xFE && be[1] == 0xFF);
}

/// One file may still give as many hits as are left, and no more than one file
/// may.
pub proof fn hits_are_limited(w: WalkView)
    requires
        w.valid(),
    ensures
        w.allowance() <= w.max_hits - w.hits.len(),
        w.allowance() <= w.max_per_file,
        w.allowance() == w.max_hits - w.hits.len() || w.allowance() == w.max_per_file,
{
}

/// A line that is shown as unedited is the line of the file that it names; one
/// that is shown as edited and not inserted stands in the place of one; an
/// inserted one names none.
pub proof fn lines_are_shown_for_what_they_are(
    m: Map<u64, EventView>,
    l: Seq<Seq<char>>,
    i: int,
    r: LineRef,
    x: EditLine,
)
    requires
        l.len() < u64::MAX,
        refers(m, l, i, r),
        shows(r, x),
    ensures
        x.inserted <==> x.original_line is None,
        x.inserted ==> x.edited,
        !x.edited ==> x.original_line is Some && x.original_line->Some_0 < l.len() && shown(m, l)[i]
            == l[x.original_line->Some_0 as int],
        x.edited && !x.inserted ==> x.original_line is Some && x.original_line->Some_0 < l.len()
            && m.contains_key(x.original_line->Some_0) && m[x.original_line->Some_0].replacement
            == Some(shown(m, l)[i]),
{
    lemma_refers(m, l, i, r);
}

/// Each line of the file counts once among the deleted or the replaced ones, or
/// not at all; a line that is deleted does not count as replaced. What is
/// inserted before it counts line by line.
pub proof fn changes_are_counted_line_by_line(m: Map<u64, EventView>, a: u64)
    ensures
        deleted_upto(m, 0) == 0,
        replaced_upto(m, 0) == 0,
        inserted_upto(m, 0) == 0,
        !m.contains_key(a) ==> deleted_upto(m, a + 1) == deleted_upto(m, a as int) && replaced_upto(
            m,
            a + 1,
        ) == replaced_upto(m, a as int) && inserted_upto(m, a + 1) == inserted_upto(m, a as int),
        m.contains_key(a) ==> {
            let e = m[a];
            &&& deleted_upto(m, a + 1) - deleted_upto(m, a as int) == if e.deleted { 1int } else { 0 }
            &&& replaced_upto(m, a + 1) - replaced_upto(m, a as int) == if !e.deleted
                && e.replacement is Some {
                1int
            } else {
                0
            }
            &&& inserted_upto(m, a + 1) - inserted_upto(m, a as int) == e.inserts.len()
        },
{
}

// ---- carets of several edits -------------------------------------------------

proof fn lemma_order_holds(spans: Seq<Span>, n: nat, i: int) -> (k: int)
    requires
        0 <= i < n,
    ensures
        0 <= k < n,
        span_order(spans, n)[k] == i,
    decreases n,
{
    let h = (n - 1) as nat;
    let o = span_order(spans, h);
    lemma_order(Seq::empty(), spans, h);
    lemma_slot(o, spans, n - 1, 0);
    let at = slot(o, spans, n - 1, 0);
    let q = o.insert(at, n - 1);
    assert(span_order(spans, n) == q);
    if i == n - 1 {
        at
    } else {
        let k = lemma_order_holds(spans, h, i);
        if k < at {
            assert(q[k] == o[k]);
            k
        } else {
            assert(q[k + 1] == o[k]);
            k + 1
        }
    }
}

/// The new text starts with a part that ends with the text of an edit.
pub open spec fn ends_with(now: Seq<char>, part: Seq<char>, text: Seq<char>) -> bool {
    &&& part.len() <= now.len()
    &&& now.take(part.len() as int) == part
    &&& text.len() <= part.len()
    &&& part.skip(part.len() - text.len()) == text
}

/// Whatever the order of the edits in the text, each has its own caret, at the
/// end of its own text.
pub proof fn each_edit_has_its_caret(
    m: Model,
    edits: Seq<BatchEditView>,
    carets: Seq<(u64, usize)>,
    i: int,
) -> (part: Seq<char>)
    requires
        m.lines.len() > 0,
        single_lines(m.lines),
        stepped(m, LoggedOpView::Batch { edits }) is Some,
        batch_caret(m.lines, edits, carets),
        0 <= i < edits.len(),
    ensures
        carets.len() == edits.len(),
        ends_with(
            joined(stepped(m, LoggedOpView::Batch { edits })->Some_0.lines),
            part,
            edits[i].text,
        ),
        carets[i].0 == end_of(part).0,
        end_of(part).1 <= usize::MAX ==> carets[i].1 == end_of(part).1,
{
    let spans = clamped_spans(m.lines, edits);
    let order = span_order(spans, edits.len());
    let k = lemma_order_holds(spans, edits.len(), i);
    carets_stand_behind_their_texts(m, edits, k);
    let part = text_behind(m.lines, edits, order, k);
    assert(carets[order[k]].0 == batch_end(edits, spans, order, k).0);
    part
}

} // verus!
