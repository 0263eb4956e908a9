//! How names pass filters, how markers go with their lines, and how documents
//! are cut into parts.

use crate::arrange::the_first_bytes_that_differ_decide;
use crate::document::DocView;
use crate::grep::{
    binary, entry_less, glob_of, glob_pieces, globbed, globs_among, globs_of, in_name_order,
    name_passes, searched, EntryView,
};
use crate::lines::{lemma_start, lemma_start_order};
use crate::markers::{
    bin_of, first_of, in_bin, marked_after, moved, rising, within, LineEdit,
};
use crate::split::{
    last_dot, part_count, part_image, part_name, part_start, stem_and_extension, width_for,
    zero_padded,
};
use crate::text::{decimal_text, lower_char, trimmed};
use vstd::prelude::*;
use vstd::utf8::encode_utf8;

verus! {

// ---- patterns of names -------------------------------------------------------

/// Letters from A to Z have a lower case, 32 places on; other characters stay.
pub proof fn letters_have_a_lower_case(c: char)
    ensures
        'A' <= c <= 'Z' ==> lower_char(c) as u32 == c as u32 + 32,
        !('A' <= c <= 'Z') ==> lower_char(c) == c,
{
    assert('A' as u32 == 65 && 'Z' as u32 == 90);
}

/// A byte of a pattern stands for the bytes `a` up to `b` of a name: a star for
/// any, a question mark for any one, another byte for itself.
pub open spec fn stands_for(p: u8, name: Seq<u8>, a: int, b: int) -> bool {
    &&& 0 <= a <= b <= name.len()
    &&& p != 42 ==> b == a + 1
    &&& p != 42 && p != 63 ==> name[a] == p
}

/// The bytes of a pattern stand one after the other for all of a name, each up
/// to one of the cuts.
pub open spec fn spread(pat: Seq<u8>, name: Seq<u8>, cuts: Seq<int>) -> bool {
    &&& cuts.len() == pat.len() + 1
    &&& cuts[0] == 0
    &&& cuts[pat.len() as int] == name.len()
    &&& forall|k: int|
        0 <= k < pat.len() ==> stands_for(#[trigger] pat[k], name, cuts[k], cuts[k + 1])
}

spec fn spread_from(pat: Seq<u8>, name: Seq<u8>, cuts: Seq<int>, i: int, j: int) -> bool {
    &&& cuts.len() == pat.len() + 1
    &&& cuts[i] == j
    &&& cuts[pat.len() as int] == name.len()
    &&& forall|k: int|
        i <= k < pat.len() ==> stands_for(#[trigger] pat[k], name, cuts[k], cuts[k + 1])
}

proof fn lemma_spread(pat: Seq<u8>, name: Seq<u8>, i: int, j: int) -> (cuts: Seq<int>)
    requires
        0 <= i <= pat.len(),
        0 <= j <= name.len(),
        globbed(pat, name, i, j),
    ensures
        spread_from(pat, name, cuts, i, j),
    decreases pat.len() - i, name.len() - j,
{
    if i == pat.len() {
        Seq::new(pat.len() + 1, |k: int| j)
    } else if pat[i] == 42 && !globbed(pat, name, i + 1, j) {
        let c = lemma_spread(pat, name, i, j + 1);
        let d = c.update(i, j);
        assert forall|k: int| i <= k < pat.len() implies stands_for(
            #[trigger] pat[k],
            name,
            d[k],
            d[k + 1],
        ) by {
            assert(stands_for(pat[k], name, c[k], c[k + 1]));
        }
        d
    } else {
        let next = if pat[i] == 42 { j } else { j + 1 };
        let c = lemma_spread(pat, name, i + 1, next);
        let d = c.update(i, j);
        assert forall|k: int| i <= k < pat.len() implies stands_for(
            #[trigger] pat[k],
            name,
            d[k],
            d[k + 1],
        ) by {
            if k > i {
                assert(stands_for(pat[k], name, c[k], c[k + 1]));
            }
        }
        d
    }
}

proof fn lemma_star_takes(pat: Seq<u8>, name: Seq<u8>, i: int, j: int, m: int)
    requires
        0 <= i < pat.len(),
        pat[i] == 42,
        0 <= j <= m <= name.len(),
        globbed(pat, name, i + 1, m),
    ensures
        globbed(pat, name, i, j),
    decreases m - j,
{
    if j < m {
        lemma_star_takes(pat, name, i, j + 1, m);
    }
}

proof fn lemma_spread_matches(pat: Seq<u8>, name: Seq<u8>, cuts: Seq<int>, i: int)
    requires
        0 <= i <= pat.len(),
        spread(pat, name, cuts),
    ensures
        0 <= cuts[i] <= name.len(),
        globbed(pat, name, i, cuts[i]),
    decreases pat.len() - i,
{
    if i < pat.len() {
        lemma_spread_matches(pat, name, cuts, i + 1);
        assert(stands_for(pat[i], name, cuts[i], cuts[i + 1]));
        if pat[i] == 42 {
            lemma_star_takes(pat, name, i, cuts[i], cuts[i + 1]);
        }
    }
}

/// A name matches a pattern where the bytes of the pattern stand for the bytes
/// of the name one after the other, and nowhere else.
pub proof fn patterns_stand_for_names(pat: Seq<u8>, name: Seq<u8>)
    ensures
        globbed(pat, name, 0, 0) <==> exists|cuts: Seq<int>| #[trigger] spread(pat, name, cuts),
{
    if globbed(pat, name, 0, 0) {
        let cuts = lemma_spread(pat, name, 0, 0);
        assert(spread(pat, name, cuts));
    }
    if exists|cuts: Seq<int>| #[trigger] spread(pat, name, cuts) {
        let cuts = choose|cuts: Seq<int>| #[trigger] spread(pat, name, cuts);
        lemma_spread_matches(pat, name, cuts, 0);
    }
}

proof fn lemma_pieces(a: Seq<char>, c: char, b: Seq<char>)
    requires
        c == ',' || c == ' ' || c == '\t',
    ensures
        glob_pieces(a.push(c) + b) == glob_pieces(a) + glob_pieces(b),
        glob_pieces(b).len() >= 1,
    decreases b.len(),
{
    let whole = a.push(c) + b;
    if b.len() == 0 {
        assert(whole.drop_last() =~= a);
        assert(whole.last() == c);
        assert(glob_pieces(whole) =~= glob_pieces(a) + glob_pieces(b));
    } else {
        let r = b.drop_last();
        lemma_pieces(a, c, r);
        assert(whole.drop_last() =~= a.push(c) + r);
        assert(whole.last() == b.last());
        assert(glob_pieces(whole) =~= glob_pieces(a) + glob_pieces(b));
    }
}

proof fn lemma_globs_among(a: Seq<Seq<char>>, b: Seq<Seq<char>>)
    ensures
        globs_among(a + b) == globs_among(a) + globs_among(b),
    decreases b.len(),
{
    if b.len() == 0 {
        assert(a + b =~= a);
        assert(globs_among(a) + globs_among(b) =~= globs_among(a));
    } else {
        lemma_globs_among(a, b.drop_last());
        assert((a + b).drop_last() =~= a + b.drop_last());
        assert(globs_among(a + b) =~= globs_among(a) + globs_among(b));
    }
}

/// A filter is a list of patterns: what stands before and after a comma, a
/// space or a tab gives its patterns one after the other.
pub proof fn filters_are_lists(a: Seq<char>, c: char, b: Seq<char>)
    requires
        c == ',' || c == ' ' || c == '\t',
    ensures
        globs_of(a.push(c) + b) == globs_of(a) + globs_of(b),
{
    lemma_pieces(a, c, b);
    lemma_globs_among(glob_pieces(a), glob_pieces(b));
}

proof fn lemma_one_piece(s: Seq<char>)
    requires
        forall|i: int|
            0 <= i < s.len() ==> #[trigger] s[i] != ',' && s[i] != ' ' && s[i] != '\t',
    ensures
        glob_pieces(s) == seq![s],
    decreases s.len(),
{
    if s.len() > 0 {
        let r = s.drop_last();
        assert forall|i: int| 0 <= i < r.len() implies #[trigger] r[i] != ',' && r[i] != ' ' && r[i]
            != '\t' by {
            assert(s[i] != ',');
        }
        lemma_one_piece(r);
        assert(s[s.len() - 1] != ',');
        assert(seq![r].drop_last().push(seq![r].last().push(s.last())) =~= seq![s]) by {
            assert(r.push(s.last()) =~= s);
        }
    } else {
        assert(s =~= Seq::<char>::empty());
    }
}

/// Without a separator a filter is one pattern, in lower case and without the
/// white space around it, or none if nothing is left.
pub proof fn a_word_is_one_pattern(s: Seq<char>)
    requires
        forall|i: int|
            0 <= i < s.len() ==> #[trigger] s[i] != ',' && s[i] != ' ' && s[i] != '\t',
    ensures
        trimmed(s).len() == 0 ==> globs_of(s).len() == 0,
        trimmed(s).len() > 0 ==> globs_of(s).len() == 1 && globs_of(s)[0].len() == trimmed(s).len()
            && forall|i: int|
            0 <= i < trimmed(s).len() ==> {
                let (x, y) = (trimmed(s)[i], #[trigger] globs_of(s)[0][i]);
                if 'A' <= x <= 'Z' {
                    y as u32 == x as u32 + 32
                } else {
                    y == x
                }
            },
{
    lemma_one_piece(s);
    reveal_with_fuel(globs_among, 2);
    assert(seq![s].drop_last() =~= Seq::<Seq<char>>::empty());
    assert(glob_of(s).len() == trimmed(s).len());
    if trimmed(s).len() > 0 {
        assert(globs_of(s) =~= seq![glob_of(s)]);
        assert forall|i: int| 0 <= i < trimmed(s).len() implies {
            let (x, y) = (trimmed(s)[i], #[trigger] globs_of(s)[0][i]);
            if 'A' <= x <= 'Z' {
                y as u32 == x as u32 + 32
            } else {
                y == x
            }
        } by {
            letters_have_a_lower_case(trimmed(s)[i]);
        }
    }
}

/// Two texts that differ only in the case of ASCII letters.
pub open spec fn same_but_case(a: Seq<char>, b: Seq<char>) -> bool {
    &&& a.len() == b.len()
    &&& forall|i: int|
        0 <= i < a.len() ==> #[trigger] a[i] == b[i] || ('A' <= a[i] <= 'Z' && b[i] as u32 == a[i]
            as u32 + 32) || ('A' <= b[i] <= 'Z' && a[i] as u32 == b[i] as u32 + 32)
}

/// The case of ASCII letters is nothing to a filter, and one without patterns
/// lets every name pass.
pub proof fn filters_ignore_case(globs: Seq<Seq<char>>, a: Seq<char>, b: Seq<char>)
    requires
        same_but_case(a, b),
    ensures
        name_passes(globs, a) == name_passes(globs, b),
        globs.len() == 0 ==> name_passes(globs, a),
{
    let f = |c: char| lower_char(c);
    assert(a.map_values(f) =~= b.map_values(f)) by {
        assert forall|i: int| 0 <= i < a.len() implies a.map_values(f)[i] == b.map_values(f)[i] by {
            assert(a[i] == b[i] || 'A' <= a[i] <= 'Z' || 'A' <= b[i] <= 'Z');
        }
    }
}

/// A name in lower case passes if one of the patterns stands for it.
pub proof fn names_pass_by_a_pattern(globs: Seq<Seq<char>>, name: Seq<char>)
    requires
        globs.len() > 0,
        forall|i: int| 0 <= i < name.len() ==> !('A' <= #[trigger] name[i] <= 'Z'),
    ensures
        name_passes(globs, name) <==> exists|g: int, cuts: Seq<int>|
            0 <= g < globs.len() && #[trigger] spread(
                encode_utf8(globs[g]),
                encode_utf8(name),
                cuts,
            ),
{
    let f = |c: char| lower_char(c);
    assert(name.map_values(f) =~= name) by {
        assert forall|i: int| 0 <= i < name.len() implies name.map_values(f)[i] == name[i] by {
            letters_have_a_lower_case(name[i]);
        }
    }
    let low = encode_utf8(name);
    if name_passes(globs, name) {
        let g = choose|i: int|
            0 <= i < globs.len() && globbed(encode_utf8(#[trigger] globs[i]), low, 0, 0);
        patterns_stand_for_names(encode_utf8(globs[g]), low);
    }
    if exists|g: int, cuts: Seq<int>|
        0 <= g < globs.len() && #[trigger] spread(encode_utf8(globs[g]), low, cuts) {
        let (g, cuts) = choose|g: int, cuts: Seq<int>|
            0 <= g < globs.len() && #[trigger] spread(encode_utf8(globs[g]), low, cuts);
        patterns_stand_for_names(encode_utf8(globs[g]), low);
        assert(globbed(encode_utf8(globs[g]), low, 0, 0));
    }
}

/// Entries come in the order of the bytes of their names: before the first byte
/// that differs they agree, or one name is the start of the other; entries of
/// one name come as they were listed.
pub proof fn entries_come_by_name(
    order: Seq<int>,
    v: Seq<EntryView>,
    files: bool,
    globs: Seq<Seq<char>>,
    i: int,
    j: int,
)
    requires
        in_name_order(order, v, files, globs),
        0 <= i < j < order.len(),
    ensures
        ({
            let a = encode_utf8(v[order[i]].name);
            let b = encode_utf8(v[order[j]].name);
            ||| a == b && order[i] < order[j]
            ||| a != b && exists|k: int|
                {
                    &&& 0 <= k <= a.len()
                    &&& k < b.len()
                    &&& #[trigger] a.take(k) == b.take(k)
                    &&& k < a.len() ==> a[k] < b[k]
                }
        }),
{
    let a = encode_utf8(v[order[i]].name);
    let b = encode_utf8(v[order[j]].name);
    assert(entry_less(v, order[i], order[j]));
    the_first_bytes_that_differ_decide(a, b);
}

/// A file with a NUL among its first bytes is passed over, and so are one that
/// is empty and one that is too large.
pub proof fn some_files_are_passed_over(buf: Seq<u8>, max_file_bytes: nat, max_hits: nat, i: int)
    ensures
        0 <= i < buf.len() && i < 8192 && buf[i] == 0 ==> !searched(buf, max_file_bytes, max_hits),
        buf.len() == 0 || buf.len() > max_file_bytes || max_hits == 0 ==> !searched(
            buf,
            max_file_bytes,
            max_hits,
        ),
{
    if 0 <= i < buf.len() && i < 8192 && buf[i] == 0 {
        assert(binary(buf));
    }
}

// ---- markers -----------------------------------------------------------------

/// The markers between two lines are those that lie there, in their order.
pub proof fn markers_lie_between_lines(s: Seq<u64>, lo: int, hi: int)
    requires
        rising(s),
    ensures
        rising(within(s, lo, hi)),
        forall|x: u64| #[trigger]
            within(s, lo, hi).contains(x) <==> s.contains(x) && lo <= x < hi,
    decreases s.len(),
{
    let w = within(s, lo, hi);
    if s.len() > 0 {
        let r = s.drop_last();
        assert(rising(r)) by {
            assert forall|i: int, j: int| 0 <= i < j < r.len() implies #[trigger] r[i]
                < #[trigger] r[j] by {
                assert(s[i] < s[j]);
            }
        }
        markers_lie_between_lines(r, lo, hi);
        let p = within(r, lo, hi);
        assert forall|x: u64| #[trigger] w.contains(x) <==> s.contains(x) && lo <= x < hi by {
            if w.contains(x) {
                let i = choose|i: int| 0 <= i < w.len() && w[i] == x;
                if i < p.len() {
                    assert(p.contains(x)) by {
                        assert(p[i] == x);
                    }
                    let k = choose|k: int| 0 <= k < r.len() && r[k] == x;
                    assert(s[k] == x);
                } else {
                    assert(s[s.len() - 1] == x);
                }
            }
            if s.contains(x) && lo <= x < hi {
                let k = choose|k: int| 0 <= k < s.len() && s[k] == x;
                if k < r.len() {
                    assert(r[k] == x);
                    assert(p.contains(x));
                    let i = choose|i: int| 0 <= i < p.len() && p[i] == x;
                    assert(w[i] == x);
                } else {
                    assert(w[w.len() - 1] == x);
                }
            }
        }
        assert forall|i: int, j: int| 0 <= i < j < w.len() implies #[trigger] w[i]
            < #[trigger] w[j] by {
            if j < p.len() {
                assert(p[i] < p[j]);
            } else {
                assert(p[i] == w[i]);
                assert(p.contains(w[i]));
                let k = choose|k: int| 0 <= k < r.len() && r[k] == w[i];
                assert(s[k] < s[s.len() - 1]);
            }
        }
    }
}

/// Of a limited number of markers the first are given.
pub proof fn the_first_markers_are_given(s: Seq<u64>, n: nat)
    ensures
        first_of(s, n).len() <= n,
        first_of(s, n).len() == n || first_of(s, n) == s,
        forall|i: int| 0 <= i < first_of(s, n).len() ==> #[trigger] first_of(s, n)[i] == s[i],
{
}

/// Markers go with their lines. One before the replaced lines stays; one behind
/// them moves by as many lines as were added or taken away; one on the first
/// replaced line stays where lines come in its place; one on another replaced
/// line is gone. Besides them only the restored ones are there.
pub proof fn markers_go_with_their_lines(s: Set<u64>, edit: LineEdit, restore: Set<u64>, y: u64)
    ensures
        restore.contains(y) ==> moved(s, edit, restore).contains(y),
        s.contains(y) && y < edit.start ==> moved(s, edit, restore).contains(y),
        s.contains(y) && y >= edit.start + edit.old_lines && 0 <= y + edit.new_lines
            - edit.old_lines <= u64::MAX ==> moved(s, edit, restore).contains(
            (y + edit.new_lines - edit.old_lines) as u64,
        ),
        s.contains(y) && y == edit.start && edit.old_lines > 0 && edit.new_lines > 0 ==> moved(
            s,
            edit,
            restore,
        ).contains(y),
        moved(s, edit, restore).contains(y) && !restore.contains(y) ==> {
            ||| s.contains(y) && y < edit.start
            ||| s.contains(y) && y == edit.start && edit.old_lines > 0 && edit.new_lines > 0
            ||| exists|z: u64|
                #![trigger s.contains(z)]
                s.contains(z) && z >= edit.start + edit.old_lines && y == z + edit.new_lines
                    - edit.old_lines
        },
{
    assert(moved(s, edit, restore).contains(y) == marked_after(s, edit, restore, y));
    let t = y + edit.new_lines - edit.old_lines;
    if s.contains(y) && y >= edit.start + edit.old_lines && 0 <= t <= u64::MAX {
        let x = t as u64;
        assert(moved(s, edit, restore).contains(x) == marked_after(s, edit, restore, x));
        let from = x - edit.new_end() + edit.old_end();
        assert(from == y);
        assert(s.contains(from as u64));
    }
    let from = y - edit.new_end() + edit.old_end();
    if y >= edit.new_end() && from <= u64::MAX && s.contains(from as u64) {
        let z = from as u64;
        assert(s.contains(z) && z >= edit.start + edit.old_lines);
        assert(y == z + edit.new_lines - edit.old_lines);
    }
}

/// The lines of a document are spread evenly over the bins: line `l` of `last`
/// falls into bin `l * bins / last`, rounded down; the last line and those
/// behind it into the last.
pub proof fn lines_are_spread_evenly(line: u64, last_line: u64, last_bin: nat)
    requires
        last_line > 0,
    ensures
        line <= last_line ==> bin_of(line, last_line, last_bin) * last_line <= line * last_bin < (
        bin_of(line, last_line, last_bin) + 1) * last_line,
        line >= last_line ==> bin_of(line, last_line, last_bin) == last_bin,
        0 <= bin_of(line, last_line, last_bin) <= last_bin,
{
    let at = if line <= last_line { line as int } else { last_line as int };
    let w = last_line as int;
    let n = last_bin as int;
    let q = at * n / w;
    assert(q * w <= at * n < (q + 1) * w && q >= 0) by (nonlinear_arith)
        requires
            w > 0,
            at >= 0,
            n >= 0,
            q == at * n / w,
    ;
    assert(q <= n) by (nonlinear_arith)
        requires
            q * w <= at * n,
            at <= w,
            w > 0,
            n >= 0,
            at >= 0,
    ;
    if at == w {
        assert(q >= n) by (nonlinear_arith)
            requires
                w * n < (q + 1) * w,
                w > 0,
        ;
    }
}

/// The markers in bins `0` up to `upto`.
pub open spec fn in_bins(s: Seq<u64>, last_line: u64, last_bin: nat, upto: nat) -> nat
    decreases upto,
{
    if upto == 0 {
        0
    } else {
        in_bins(s, last_line, last_bin, (upto - 1) as nat) + in_bin(
            s,
            last_line,
            last_bin,
            upto - 1,
        )
    }
}

proof fn lemma_in_bins(s: Seq<u64>, last_line: u64, last_bin: nat, upto: nat)
    ensures
        s.len() == 0 ==> in_bins(s, last_line, last_bin, upto) == 0,
        s.len() > 0 ==> in_bins(s, last_line, last_bin, upto) == in_bins(
            s.drop_last(),
            last_line,
            last_bin,
            upto,
        ) + if 0 <= bin_of(s.last(), last_line, last_bin) < upto {
            1nat
        } else {
            0
        },
    decreases upto,
{
    if upto > 0 {
        lemma_in_bins(s, last_line, last_bin, (upto - 1) as nat);
    }
}

/// Every marker is counted in one bin.
pub proof fn every_marker_is_counted(s: Seq<u64>, last_line: u64, last_bin: nat)
    requires
        last_line > 0,
    ensures
        in_bins(s, last_line, last_bin, last_bin + 1) == s.len(),
    decreases s.len(),
{
    lemma_in_bins(s, last_line, last_bin, last_bin + 1);
    if s.len() > 0 {
        every_marker_is_counted(s.drop_last(), last_line, last_bin);
        lines_are_spread_evenly(s.last(), last_line, last_bin);
    }
}

// ---- parts -------------------------------------------------------------------

/// The value of decimal digits.
pub open spec fn value_of(t: Seq<char>) -> nat
    decreases t.len(),
{
    if t.len() == 0 {
        0
    } else {
        (10 * value_of(t.drop_last()) + (t.last() as int - '0' as int)) as nat
    }
}

/// A number in decimal is written with digits, without zeros before it, and can
/// be read back.
pub proof fn numbers_are_written_in_decimal(n: nat)
    ensures
        decimal_text(n).len() > 0,
        forall|i: int| 0 <= i < decimal_text(n).len() ==> '0' <= #[trigger] decimal_text(n)[i]
            <= '9',
        n > 0 ==> decimal_text(n)[0] != '0',
        n == 0 ==> decimal_text(n) == seq!['0'],
        value_of(decimal_text(n)) == n,
    decreases n,
{
    let t = decimal_text(n);
    reveal_with_fuel(value_of, 2);
    if n < 10 {
        assert(t.drop_last() =~= Seq::<char>::empty());
    } else {
        numbers_are_written_in_decimal(n / 10);
        let r = decimal_text(n / 10);
        assert(t.drop_last() =~= r);
        assert forall|i: int| 0 <= i < t.len() implies '0' <= #[trigger] t[i] <= '9' by {
            if i < r.len() {
                assert(t[i] == r[i]);
            }
        }
        assert(t[0] == r[0]);
    }
}

proof fn lemma_zeros(k: nat, t: Seq<char>)
    ensures
        value_of(Seq::new(k, |i: int| '0') + t) == value_of(t),
    decreases t.len(), k,
{
    let z = Seq::new(k, |i: int| '0');
    if t.len() > 0 {
        lemma_zeros(k, t.drop_last());
        assert((z + t).drop_last() =~= z + t.drop_last());
    } else if k > 0 {
        let y = Seq::new((k - 1) as nat, |i: int| '0');
        lemma_zeros((k - 1) as nat, t);
        assert((z + t).drop_last() =~= y + t);
    } else {
        assert(z + t =~= t);
    }
}

/// A part is called by its number, between the two halves of the name; numbers
/// have as many digits as the largest, and four at least, so that names in
/// order are parts in order.
pub proof fn parts_are_numbered(stem: Seq<char>, ext: Seq<char>, part: nat, count: nat)
    requires
        1 <= part <= count,
    ensures
        exists|digits: Seq<char>|
            part_name(stem, ext, part, width_for(count)) == stem + seq!['.', 'p', 'a', 'r', 't']
                + digits + ext && #[trigger] value_of(digits) == part && digits.len() >= 4
                && digits.len() >= decimal_text(count).len() && (digits.len() == 4 || digits.len()
                == decimal_text(count).len()),
{
    let w = width_for(count);
    let t = decimal_text(part);
    let digits = zero_padded(t, w);
    numbers_are_written_in_decimal(part);
    lemma_shorter(part, count);
    if t.len() < w {
        lemma_zeros((w - t.len()) as nat, t);
    }
    reveal_strlit(".part");
    assert(".part"@ =~= seq!['.', 'p', 'a', 'r', 't']);
    assert(value_of(digits) == part);
}

proof fn lemma_shorter(a: nat, b: nat)
    requires
        a <= b,
    ensures
        decimal_text(a).len() <= decimal_text(b).len(),
    decreases b,
{
    if a >= 10 {
        lemma_shorter(a / 10, b / 10);
    } else {
        numbers_are_written_in_decimal(b);
    }
}

proof fn lemma_last_dot(s: Seq<char>)
    ensures
        match last_dot(s) {
            Some(i) => 0 <= i < s.len() && s[i] == '.' && forall|j: int|
                i < j < s.len() ==> #[trigger] s[j] != '.',
            None => !s.contains('.'),
        },
    decreases s.len(),
{
    if s.len() > 0 && s.last() != '.' {
        let r = s.drop_last();
        lemma_last_dot(r);
        match last_dot(r) {
            Some(i) => {
                assert forall|j: int| i < j < s.len() implies #[trigger] s[j] != '.' by {
                    if j < r.len() {
                        assert(s[j] == r[j]);
                    }
                }
            },
            None => {
                assert forall|j: int| 0 <= j < s.len() implies s[j] != '.' by {
                    if j < r.len() {
                        assert(s[j] == r[j]);
                        if r[j] == '.' {
                            assert(r.contains('.'));
                        }
                    }
                }
            },
        }
    }
}

/// The two halves of a file name make the name. The second is the extension: it
/// starts with the last dot of the name, and is there unless the name has no
/// dot behind its first character.
pub proof fn names_have_two_halves(name: Seq<char>)
    requires
        name.len() > 0,
        name != seq!['.', '.'],
    ensures
        ({
            let (stem, ext) = stem_and_extension(name);
            &&& stem + ext == name
            &&& stem.len() > 0
            &&& ext.len() > 0 ==> ext[0] == '.' && forall|j: int|
                0 < j < ext.len() ==> #[trigger] ext[j] != '.'
            &&& ext.len() == 0 ==> forall|j: int| 0 < j < name.len() ==> #[trigger] name[j] != '.'
        }),
{
    reveal_strlit("..");
    assert(".."@ =~= seq!['.', '.']);
    lemma_last_dot(name);
    let (stem, ext) = stem_and_extension(name);
    assert(stem + ext =~= name);
    match last_dot(name) {
        Some(i) => {
            if i > 0 {
                assert forall|j: int| 0 < j < ext.len() implies #[trigger] ext[j] != '.' by {
                    assert(ext[j] == name[i + j]);
                }
            }
        },
        None => {
            assert forall|j: int| 0 < j < name.len() implies #[trigger] name[j] != '.' by {
                if name[j] == '.' {
                    assert(name.contains('.'));
                }
            }
        },
    }
}

/// Every part but the last holds as many lines as are asked for, and the last
/// holds what is left; the parts are as few as that allows. What stands before
/// the content comes with the first part.
pub proof fn parts_have_their_lines(doc: DocView, per: nat, part: nat)
    requires
        doc.valid(),
        per > 0,
        1 <= part <= part_count(doc.count(), per),
    ensures
        ({
            let (n, c) = (doc.count(), part_count(doc.count(), per));
            let from = (part - 1) * per;
            let to = if part < c { part * per } else { n };
            &&& (c - 1) * per < n <= c * per
            &&& 0 <= from < to <= n
            &&& to - from <= per
            &&& part == 1 ==> part_image(doc, per, part) == doc.buf.subrange(
                0,
                doc.start(to),
            )
            &&& part > 1 ==> part_image(doc, per, part) == doc.buf.subrange(
                doc.start(from as nat),
                doc.start(to),
            )
        }),
{
    let n = doc.count();
    let c = part_count(n, per);
    assert(c * per >= n && (c - 1) * per < n) by (nonlinear_arith)
        requires
            per > 0,
            c > 0,
            c == (n + per - 1) / per as int,
    ;
    let from = (part - 1) * per;
    let to = if part < c { part * per } else { n };
    assert(0 <= from <= (c - 1) * per) by (nonlinear_arith)
        requires
            1 <= part <= c,
            per > 0,
            from == (part - 1) * per,
    ;
    assert(part * per == from + per) by (nonlinear_arith)
        requires
            from == (part - 1) * per,
    ;
    if part < c {
        assert(part * per <= (c - 1) * per) by (nonlinear_arith)
            requires
                part < c,
                per > 0,
        ;
    }
    assert((part + 1 - 1) * per == part * per);
    assert(part_start(n, per, part) == from);
    assert(part_start(n, per, part + 1) == to);
    let k = doc.newline();
    lemma_start(doc.buf, k, doc.base, from as nat);
    lemma_start(doc.buf, k, doc.base, to);
    lemma_start_order(doc.buf, k, doc.base, from as nat, to);
    if part == 1 {
        assert((1 - 1) * per == 0) by (nonlinear_arith);
        assert(doc.start(0) == doc.base);
        assert(part_image(doc, per, part) =~= doc.buf.subrange(0, doc.start(to)));
    } else {
        assert(part_image(doc, per, part) =~= doc.buf.subrange(
            doc.start(from as nat),
            doc.start(to),
        ));
    }
}

} // verus!
