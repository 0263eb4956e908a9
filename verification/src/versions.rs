//! What versions, notes and options of a release say.

use crate::cache::{hex_digit, key_text};
use crate::detect::detector_encoding;
use crate::encoding::{encoding_named, Encoding};
use crate::release::{
    bump_of, digits_value, dotted, has_entry, hexed, host_from, ident_of, is_entry, line_of,
    no_opts, number_of, opts_of, preflight_fault, run_of, section_of, stamped, version_of,
    version_text, without_plus, word_start, words_end, OptsView,
};
use crate::sifting::numbers_are_written_in_decimal;
use crate::text::{decimal_text, first_from, is_white, pieces, stands_at, trim_start};
use vstd::prelude::*;

verus! {

// ---- versions ----------------------------------------------------------------

proof fn lemma_dotted(a: Seq<char>, b: Seq<char>)
    ensures
        dotted(a.push('.') + b) == dotted(a) + dotted(b),
        dotted(b).len() >= 1,
    decreases b.len(),
{
    let whole = a.push('.') + b;
    if b.len() == 0 {
        assert(whole.drop_last() =~= a);
        assert(whole.last() == '.');
        assert(dotted(whole) =~= dotted(a) + dotted(b));
    } else {
        let r = b.drop_last();
        lemma_dotted(a, r);
        assert(whole.drop_last() =~= a.push('.') + r);
        assert(whole.last() == b.last());
        assert(dotted(whole) =~= dotted(a) + dotted(b));
    }
}

proof fn lemma_undotted(s: Seq<char>)
    requires
        !s.contains('.'),
    ensures
        dotted(s) == seq![s],
    decreases s.len(),
{
    if s.len() > 0 {
        let r = s.drop_last();
        assert(!r.contains('.')) by {
            if r.contains('.') {
                let i = choose|i: int| 0 <= i < r.len() && r[i] == '.';
                assert(s[i] == '.');
            }
        }
        lemma_undotted(r);
        assert(s[s.len() - 1] != '.') by {
            if s[s.len() - 1] == '.' {
                assert(s.contains('.'));
            }
        }
        assert(r.push(s.last()) =~= s);
        assert(seq![r].drop_last().push(seq![r].last().push(s.last())) =~= seq![s]);
    } else {
        assert(s =~= Seq::<char>::empty());
    }
}

/// What stands before and after a dot are other parts of a version, and what
/// holds no dot is one.
pub proof fn versions_are_cut_at_dots(a: Seq<char>, b: Seq<char>)
    ensures
        dotted(a.push('.') + b) == dotted(a) + dotted(b),
        !a.contains('.') ==> dotted(a) == seq![a],
{
    lemma_dotted(a, b);
    if !a.contains('.') {
        lemma_undotted(a);
    }
}

proof fn lemma_decimal_value(n: nat)
    ensures
        digits_value(decimal_text(n)) == Some(n),
    decreases n,
{
    let t = decimal_text(n);
    if n < 10 {
        assert(t.len() == 1);
    } else {
        lemma_decimal_value(n / 10);
        numbers_are_written_in_decimal(n / 10);
        assert(t.drop_last() =~= decimal_text(n / 10));
    }
}

/// A number is read as it is written, also with a plus before it.
pub proof fn numbers_are_read_as_written(n: u64)
    ensures
        number_of(decimal_text(n as nat)) == Some(n),
        number_of(seq!['+'] + decimal_text(n as nat)) == Some(n),
{
    let t = decimal_text(n as nat);
    lemma_decimal_value(n as nat);
    numbers_are_written_in_decimal(n as nat);
    assert(t[0] != '+');
    assert(without_plus(t) == t);
    assert((seq!['+'] + t).drop_first() =~= t);
}

proof fn lemma_version_parts(a: nat, b: nat, c: nat)
    ensures
        dotted(version_text(a, b, c)) == seq![decimal_text(a), decimal_text(b), decimal_text(c)],
{
    let (x, y, z) = (decimal_text(a), decimal_text(b), decimal_text(c));
    reveal_strlit(".");
    assert("."@ =~= seq!['.']);
    lemma_no_dot(a);
    lemma_no_dot(b);
    lemma_no_dot(c);
    lemma_undotted(x);
    lemma_undotted(y);
    lemma_undotted(z);
    lemma_dotted(y, z);
    lemma_dotted(x, y.push('.') + z);
    assert(version_text(a, b, c) =~= x.push('.') + (y.push('.') + z));
    assert(seq![x] + (seq![y] + seq![z]) =~= seq![x, y, z]);
}

proof fn lemma_no_dot(n: nat)
    ensures
        !decimal_text(n).contains('.'),
{
    let t = decimal_text(n);
    numbers_are_written_in_decimal(n);
    if t.contains('.') {
        let i = choose|i: int| 0 <= i < t.len() && t[i] == '.';
        assert('0' <= t[i] <= '9');
    }
}

/// A version is read as it is written.
pub proof fn versions_are_read_as_written(a: u64, b: u64, c: u64)
    ensures
        version_of(version_text(a as nat, b as nat, c as nat)) == Some((a, b, c)),
{
    lemma_version_parts(a as nat, b as nat, c as nat);
    numbers_are_read_as_written(a);
    numbers_are_read_as_written(b);
    numbers_are_read_as_written(c);
}

/// Raising a version: a patch raises the third number; a minor version the
/// second, and starts the third anew; a major version the first, and starts the
/// others anew.
pub proof fn versions_are_raised(a: u64, b: u64, c: u64)
    requires
        a < u64::MAX,
        b < u64::MAX,
        c < u64::MAX,
    ensures
        ({
            let now = version_text(a as nat, b as nat, c as nat);
            &&& bump_of(now, seq!['p', 'a', 't', 'c', 'h']) matches Ok(v) && version_of(v) == Some(
                (a, b, (c + 1) as u64),
            )
            &&& bump_of(now, seq!['m', 'i', 'n', 'o', 'r']) matches Ok(v) && version_of(v) == Some(
                (a, (b + 1) as u64, 0u64),
            )
            &&& bump_of(now, seq!['m', 'a', 'j', 'o', 'r']) matches Ok(v) && version_of(v) == Some(
                ((a + 1) as u64, 0u64, 0u64),
            )
        }),
{
    reveal_strlit("patch");
    reveal_strlit("minor");
    reveal_strlit("major");
    assert("patch"@ =~= seq!['p', 'a', 't', 'c', 'h']);
    assert("minor"@ =~= seq!['m', 'i', 'n', 'o', 'r']);
    assert("major"@ =~= seq!['m', 'a', 'j', 'o', 'r']);
    assert("patch"@[0] == 'p' && "minor"@[0] == 'm' && "major"@[0] == 'm');
    assert("minor"@[1] == 'i' && "major"@[1] == 'a');
    versions_are_read_as_written(a, b, c);
    versions_are_read_as_written(a, b, (c + 1) as u64);
    versions_are_read_as_written(a, (b + 1) as u64, 0);
    versions_are_read_as_written((a + 1) as u64, 0, 0);
}

/// A version that is given in full is taken as it is.
pub proof fn versions_are_given(a: u64, b: u64, c: u64, x: u64, y: u64, z: u64)
    ensures
        ({
            let now = version_text(a as nat, b as nat, c as nat);
            let next = version_text(x as nat, y as nat, z as nat);
            bump_of(now, next) == Ok::<Seq<char>, Seq<char>>(next)
        }),
{
    let next = version_text(x as nat, y as nat, z as nat);
    versions_are_read_as_written(a, b, c);
    lemma_version_parts(x as nat, y as nat, z as nat);
    numbers_are_written_in_decimal(x as nat);
    reveal_strlit("patch");
    reveal_strlit("minor");
    reveal_strlit("major");
    assert(next[0] == decimal_text(x as nat)[0]);
    assert("patch"@[0] == 'p' && "minor"@[0] == 'm' && "major"@[0] == 'm');
    assert('0' <= decimal_text(x as nat)[0] <= '9');
}

// ---- options -----------------------------------------------------------------

/// An argument stands among others from `i` on.
pub open spec fn given(args: Seq<Seq<char>>, i: int, word: Seq<char>) -> bool {
    exists|k: int| i <= k < args.len() && #[trigger] args[k] == word
}

proof fn lemma_opts(args: Seq<Seq<char>>, i: int, o: OptsView)
    requires
        0 <= i <= args.len(),
        forall|k: int|
            i <= k < args.len() ==> #[trigger] args[k] == "--yes"@ || args[k] == "--dry-run"@
                || args[k] == "--skip-gate"@,
    ensures
        opts_of(args, i, o) matches Ok(r) && r.bump == o.bump && r.yes == (o.yes || given(
            args,
            i,
            "--yes"@,
        )) && r.dry_run == (o.dry_run || given(args, i, "--dry-run"@)) && r.skip_gate == (
        o.skip_gate || given(args, i, "--skip-gate"@)),
    decreases args.len() - i,
{
    if i < args.len() {
        lemma_words();
        let w = args[i];
        let next = if w == "--yes"@ {
            OptsView { yes: true, ..o }
        } else if w == "--dry-run"@ {
            OptsView { dry_run: true, ..o }
        } else {
            OptsView { skip_gate: true, ..o }
        };
        lemma_opts(args, i + 1, next);
        assert(opts_of(args, i, o) == opts_of(args, i + 1, next));
        assert(given(args, i, "--yes"@) == (w == "--yes"@ || given(args, i + 1, "--yes"@)));
        assert(given(args, i, "--dry-run"@) == (w == "--dry-run"@ || given(
            args,
            i + 1,
            "--dry-run"@,
        )));
        assert(given(args, i, "--skip-gate"@) == (w == "--skip-gate"@ || given(
            args,
            i + 1,
            "--skip-gate"@,
        )));
    }
}

proof fn lemma_words()
    ensures
        "--yes"@ != "--dry-run"@,
        "--yes"@ != "--skip-gate"@,
        "--dry-run"@ != "--skip-gate"@,
        "--bump"@ != "--yes"@,
        "--bump"@ != "--dry-run"@,
        "--bump"@ != "--skip-gate"@,
{
    reveal_strlit("--yes");
    reveal_strlit("--dry-run");
    reveal_strlit("--skip-gate");
    reveal_strlit("--bump");
    assert("--yes"@[2] == 'y' && "--dry-run"@[2] == 'd' && "--skip-gate"@[2] == 's' && "--bump"@[2]
        == 'b');
}

/// Each option is on where it is given, in any order, and off otherwise.
pub proof fn options_are_on_where_given(args: Seq<Seq<char>>)
    requires
        forall|k: int|
            0 <= k < args.len() ==> #[trigger] args[k] == "--yes"@ || args[k] == "--dry-run"@
                || args[k] == "--skip-gate"@,
    ensures
        opts_of(args, 0, no_opts()) matches Ok(r) && r.bump is None && r.yes == args.contains(
            "--yes"@,
        ) && r.dry_run == args.contains("--dry-run"@) && r.skip_gate == args.contains(
            "--skip-gate"@,
        ),
{
    lemma_opts(args, 0, no_opts());
}

/// What follows `--bump` says how the version is raised; the options behind it
/// count as well. An argument that is no option is refused, and so is `--bump`
/// with nothing behind it.
pub proof fn the_bump_is_given(how: Seq<char>, args: Seq<Seq<char>>, word: Seq<char>)
    requires
        forall|k: int|
            0 <= k < args.len() ==> #[trigger] args[k] == "--yes"@ || args[k] == "--dry-run"@
                || args[k] == "--skip-gate"@,
        word != "--bump"@,
        word != "--yes"@,
        word != "--dry-run"@,
        word != "--skip-gate"@,
    ensures
        opts_of(seq!["--bump"@, how] + args, 0, no_opts()) matches Ok(r) && r.bump == Some(how)
            && r.yes == args.contains("--yes"@) && r.dry_run == args.contains("--dry-run"@)
            && r.skip_gate == args.contains("--skip-gate"@),
        opts_of(seq![word] + args, 0, no_opts()) is Err,
        opts_of(seq!["--bump"@], 0, no_opts()) is Err,
{
    let all = seq!["--bump"@, how] + args;
    lemma_words();
    assert(all[0] == "--bump"@ && all[1] == how);
    assert forall|k: int| 2 <= k < all.len() implies #[trigger] all[k] == "--yes"@ || all[k]
        == "--dry-run"@ || all[k] == "--skip-gate"@ by {
        assert(all[k] == args[k - 2]);
    }
    let o = OptsView { bump: Some(how), ..no_opts() };
    lemma_opts(all, 2, o);
    assert(opts_of(all, 0, no_opts()) == opts_of(all, 2, o));
    lemma_shifted(how, args, "--yes"@);
    lemma_shifted(how, args, "--dry-run"@);
    lemma_shifted(how, args, "--skip-gate"@);
    assert((seq![word] + args)[0] == word);
}

proof fn lemma_shifted(how: Seq<char>, args: Seq<Seq<char>>, word: Seq<char>)
    ensures
        given(seq!["--bump"@, how] + args, 2, word) == args.contains(word),
{
    let all = seq!["--bump"@, how] + args;
    if given(all, 2, word) {
        let k = choose|k: int| 2 <= k < all.len() && #[trigger] all[k] == word;
        assert(args[k - 2] == word);
    }
    if args.contains(word) {
        let k = choose|k: int| 0 <= k < args.len() && args[k] == word;
        assert(all[k + 2] == word);
    }
}

// ---- notes -------------------------------------------------------------------

/// A text is found at the first place from `i` on at which it stands, and is
/// not found where it stands at none.
pub proof fn texts_are_found_at_their_first_place(hay: Seq<char>, needle: Seq<char>, i: int)
    requires
        0 <= i <= hay.len(),
    ensures
        match first_from(hay, needle, i) {
            Some(p) => {
                &&& i <= p
                &&& p + needle.len() <= hay.len()
                &&& hay.subrange(p, p + needle.len()) == needle
                &&& forall|q: int|
                    i <= q < p && q + needle.len() <= hay.len() ==> #[trigger] hay.subrange(
                        q,
                        q + needle.len(),
                    ) != needle
            },
            None => forall|q: int|
                i <= q && q + needle.len() <= hay.len() ==> #[trigger] hay.subrange(
                    q,
                    q + needle.len(),
                ) != needle,
        },
    decreases hay.len() - i,
{
    if !stands_at(hay, needle, i) && i < hay.len() {
        texts_are_found_at_their_first_place(hay, needle, i + 1);
    }
}

/// Stamping gives the notes the heading of a version in place of the first
/// heading of what is not released, and changes nothing else.
pub proof fn notes_get_their_heading(text: Seq<char>, version: Seq<char>, date: Seq<char>)
    ensures
        stamped(text, version, date) matches Ok(t) ==> exists|a: int|
            {
                let mark = seq!['#', '#', ' ', 'U', 'n', 'r', 'e', 'l', 'e', 'a', 's', 'e', 'd'];
                &&& 0 <= a
                &&& a + 13 <= text.len()
                &&& text.subrange(a, a + 13) == mark
                &&& forall|q: int|
                    0 <= q < a && q + 13 <= text.len() ==> #[trigger] text.subrange(q, q + 13)
                        != mark
                &&& t == #[trigger] text.take(a) + seq!['#', '#', ' ', 'v'] + version + seq![
                    ' ',
                    '-',
                    ' ',
                ] + date + text.skip(a + 13)
            },
{
    reveal_strlit("## Unreleased");
    reveal_strlit("## v");
    reveal_strlit(" - ");
    let mark = seq!['#', '#', ' ', 'U', 'n', 'r', 'e', 'l', 'e', 'a', 's', 'e', 'd'];
    assert("## Unreleased"@ =~= mark);
    assert("## v"@ =~= seq!['#', '#', ' ', 'v']);
    assert(" - "@ =~= seq![' ', '-', ' ']);
    texts_are_found_at_their_first_place(text, mark, 0);
    if let Some((a, b, c)) = section_of(text) {
        assert(b == a + 13);
        assert(text.take(a) == text.take(a));
    }
}

/// A dash and a space make an entry, with white space before them or without.
pub proof fn a_dash_makes_an_entry(line: Seq<char>)
    ensures
        is_entry(line) <==> exists|a: int|
            0 <= a && a + 2 <= line.len() && #[trigger] line[a] == '-' && line[a + 1] == ' '
                && forall|i: int| 0 <= i < a ==> is_white(#[trigger] line[i]),
    decreases line.len(),
{
    reveal_strlit("- ");
    assert("- "@ =~= seq!['-', ' ']);
    if line.len() > 0 && is_white(line[0]) {
        let r = line.drop_first();
        a_dash_makes_an_entry(r);
        if is_entry(line) {
            let a = choose|a: int|
                0 <= a && a + 2 <= r.len() && #[trigger] r[a] == '-' && r[a + 1] == ' '
                    && forall|i: int| 0 <= i < a ==> is_white(#[trigger] r[i]);
            assert(line[a + 1] == r[a] && line[a + 2] == r[a + 1]);
            assert forall|i: int| 0 <= i < a + 1 implies is_white(#[trigger] line[i]) by {
                if i > 0 {
                    assert(line[i] == r[i - 1]);
                }
            }
        }
        if exists|a: int|
            0 <= a && a + 2 <= line.len() && #[trigger] line[a] == '-' && line[a + 1] == ' '
                && forall|i: int| 0 <= i < a ==> is_white(#[trigger] line[i]) {
            let a = choose|a: int|
                0 <= a && a + 2 <= line.len() && #[trigger] line[a] == '-' && line[a + 1] == ' '
                    && forall|i: int| 0 <= i < a ==> is_white(#[trigger] line[i]);
            assert(a > 0);
            assert(r[a - 1] == line[a] && r[a] == line[a + 1]);
            assert forall|i: int| 0 <= i < a - 1 implies is_white(#[trigger] r[i]) by {
                assert(r[i] == line[i + 1]);
            }
        }
    } else {
        assert(trim_start(line) == line);
        if is_entry(line) {
            assert(line.subrange(0, 2)[0] == '-' && line.subrange(0, 2)[1] == ' ');
            assert(line[0] == '-' && line[1] == ' ');
        }
        if exists|a: int|
            0 <= a && a + 2 <= line.len() && #[trigger] line[a] == '-' && line[a + 1] == ' '
                && forall|i: int| 0 <= i < a ==> is_white(#[trigger] line[i]) {
            let a = choose|a: int|
                0 <= a && a + 2 <= line.len() && #[trigger] line[a] == '-' && line[a + 1] == ' '
                    && forall|i: int| 0 <= i < a ==> is_white(#[trigger] line[i]);
            if a > 0 {
                assert(is_white(line[0]));
            }
            assert(line.subrange(0, 2) =~= seq!['-', ' ']);
        }
    }
}

// ---- bytes and runs ----------------------------------------------------------

/// The digit with a value, from 0 to 9 and then from a to f.
pub open spec fn is_digit_of(c: char, d: int) -> bool {
    if d < 10 {
        c as int == '0' as int + d
    } else {
        c as int == 'a' as int + d - 10
    }
}

/// A byte is written with two digits, the higher one first.
pub proof fn bytes_have_two_digits(b: Seq<u8>, i: int)
    requires
        0 <= i < b.len(),
    ensures
        hexed(b).len() == 2 * b.len(),
        is_digit_of(hexed(b)[2 * i], b[i] as int / 16),
        is_digit_of(hexed(b)[2 * i + 1], b[i] as int % 16),
    decreases b.len(),
{
    let r = b.drop_last();
    let n = b.len() - 1;
    lemma_hexed_len(r);
    lemma_hexed_len(b);
    if i < n {
        bytes_have_two_digits(r, i);
        assert(hexed(b)[2 * i] == hexed(r)[2 * i]);
        assert(hexed(b)[2 * i + 1] == hexed(r)[2 * i + 1]);
        assert(r[i] == b[i]);
    } else {
        let x = b[n] as nat;
        assert(hexed(b)[2 * n] == hex_digit(x / 16));
        assert(hexed(b)[2 * n + 1] == hex_digit(x % 16));
    }
}

proof fn lemma_hexed_len(b: Seq<u8>)
    ensures
        hexed(b).len() == 2 * b.len(),
    decreases b.len(),
{
    if b.len() > 0 {
        lemma_hexed_len(b.drop_last());
    }
}

/// The run of a commit is the first that is of that commit and has a number.
pub proof fn the_first_run_is_picked(
    runs: Seq<(Option<Seq<char>>, Option<u64>)>,
    commit: Seq<char>,
    i: int,
)
    requires
        0 <= i <= runs.len(),
    ensures
        match run_of(runs, commit, i) {
            Some(id) => exists|k: int|
                i <= k < runs.len() && #[trigger] runs[k] == (Some(commit), Some(id)) && forall|j: int|
                    i <= j < k ==> !((#[trigger] runs[j]).0 == Some(commit) && runs[j].1 is Some),
            None => forall|j: int|
                i <= j < runs.len() ==> !((#[trigger] runs[j]).0 == Some(commit) && runs[j].1
                    is Some),
        },
    decreases runs.len() - i,
{
    if i < runs.len() {
        if runs[i].0 == Some(commit) && runs[i].1 is Some {
            assert(runs[i] == (Some(commit), Some(runs[i].1->Some_0)));
        } else {
            the_first_run_is_picked(runs, commit, i + 1);
        }
    }
}

// ---- starting a release ------------------------------------------------------

/// A release starts from the main branch, or from another where that was
/// confirmed, with nothing uncommitted and nothing left to pull.
pub proof fn releases_start_clean(
    branch: Seq<char>,
    yes: bool,
    clean: bool,
    behind: Option<Seq<char>>,
)
    ensures
        preflight_fault(branch, yes, clean, behind) is None <==> (branch == seq!['m', 'a', 'i', 'n']
            || yes) && clean && (behind is None || behind == Some(seq!['0'])),
{
    reveal_strlit("main");
    reveal_strlit("0");
    assert("main"@ =~= seq!['m', 'a', 'i', 'n']);
    assert("0"@ =~= seq!['0']);
}

/// The host is what the first line says that starts with its name.
pub proof fn the_first_host_is_taken(text: Seq<char>, i: int)
    requires
        0 <= i <= pieces(text).len(),
    ensures
        ({
            let mark = seq!['h', 'o', 's', 't', ':', ' '];
            match host_from(text, i) {
                Some(h) => exists|k: int|
                    i <= k < pieces(text).len() && #[trigger] line_of(text, k) == mark + h && forall|
                        j: int,
                    |
                        i <= j < k ==> !(#[trigger] line_of(text, j).len() >= 6 && line_of(
                            text,
                            j,
                        ).take(6) == mark),
                None => forall|j: int|
                    i <= j < pieces(text).len() ==> !(#[trigger] line_of(text, j).len() >= 6
                        && line_of(text, j).take(6) == mark),
            }
        }),
    decreases pieces(text).len() - i,
{
    let mark = seq!['h', 'o', 's', 't', ':', ' '];
    reveal_strlit("host: ");
    assert("host: "@ =~= mark);
    if i < pieces(text).len() {
        let l = line_of(text, i);
        if l.len() >= 6 {
            assert(l.subrange(0, 6) =~= l.take(6));
        }
        if stands_at(l, mark, 0) {
            assert(l =~= mark + l.skip(6)) by {
                assert(l =~= l.take(6) + l.skip(6));
            }
        } else {
            the_first_host_is_taken(text, i + 1);
        }
    }
}

/// Notes are stamped where they have an entry under the first heading of what
/// is not released, which starts at `a`, before the next heading, at `c`.
pub proof fn notes_need_an_entry(
    text: Seq<char>,
    version: Seq<char>,
    date: Seq<char>,
    a: int,
    c: int,
)
    requires
        first_from(
            text,
            seq!['#', '#', ' ', 'U', 'n', 'r', 'e', 'l', 'e', 'a', 's', 'e', 'd'],
            0,
        ) == Some(a),
        first_from(text, seq!['\n', '#', '#', ' '], a + 13) == Some(c) || (first_from(
            text,
            seq!['\n', '#', '#', ' '],
            a + 13,
        ) is None && c == text.len()),
    ensures
        stamped(text, version, date) is Ok <==> exists|i: int|
            0 <= i < pieces(text.subrange(a + 13, c)).len() && is_entry(
                #[trigger] pieces(text.subrange(a + 13, c))[i],
            ),
{
    reveal_strlit("## Unreleased");
    reveal_strlit("\n## ");
    let mark = seq!['#', '#', ' ', 'U', 'n', 'r', 'e', 'l', 'e', 'a', 's', 'e', 'd'];
    assert("## Unreleased"@ =~= mark);
    assert("\n## "@ =~= seq!['\n', '#', '#', ' ']);
    assert(section_of(text) == Some((a, a + 13, c)));
    assert(stamped(text, version, date) is Ok <==> has_entry(text.subrange(a + 13, c)));
}

/// Notes without such a heading are refused.
pub proof fn notes_need_a_heading(text: Seq<char>, version: Seq<char>, date: Seq<char>)
    requires
        first_from(
            text,
            seq!['#', '#', ' ', 'U', 'n', 'r', 'e', 'l', 'e', 'a', 's', 'e', 'd'],
            0,
        ) is None,
    ensures
        stamped(text, version, date) is Err,
{
    reveal_strlit("## Unreleased");
    let mark = seq!['#', '#', ' ', 'U', 'n', 'r', 'e', 'l', 'e', 'a', 's', 'e', 'd'];
    assert("## Unreleased"@ =~= mark);
}

// ---- moments -----------------------------------------------------------------

proof fn lemma_word(before: Seq<char>, word: Seq<char>)
    requires
        forall|i: int| 0 <= i < word.len() ==> !is_white(#[trigger] word[i]),
    ensures
        word_start(before.push(' ') + word) == before.len() + 1,
        word.len() > 0 ==> words_end(before.push(' ') + word) == before.len() + 1 + word.len(),
    decreases word.len(),
{
    let t = before.push(' ') + word;
    if word.len() == 0 {
        assert(t.last() == ' ');
    } else {
        let r = word.drop_last();
        assert forall|i: int| 0 <= i < r.len() implies !is_white(#[trigger] r[i]) by {
            assert(r[i] == word[i]);
        }
        lemma_word(before, r);
        assert(t.drop_last() =~= before.push(' ') + r);
        assert(t.last() == word[word.len() - 1]);
    }
}

/// The moment at the end of an identity is read as it is written: the seconds,
/// and the offset with its sign, its hours and its minutes.
pub proof fn moments_are_read_as_written(who: Seq<char>, epoch: nat, sign: char, d: Seq<char>)
    requires
        epoch <= i64::MAX,
        sign == '+' || sign == '-',
        d.len() == 4,
        forall|i: int| 0 <= i < 4 ==> '0' <= #[trigger] d[i] <= '9',
    ensures
        ({
            let seconds = (10 * (d[0] as int - 48) + (d[1] as int - 48)) * 3600 + (10 * (d[2] as int
                - 48) + (d[3] as int - 48)) * 60;
            ident_of(who.push(' ') + decimal_text(epoch).push(' ') + (seq![sign] + d)) == Some(
                (epoch as i64, (if sign == '+' { seconds } else { -seconds }) as i64),
            )
        }),
{
    let number = decimal_text(epoch);
    let offset = seq![sign] + d;
    let before = who.push(' ') + number;
    let s = who.push(' ') + number.push(' ') + offset;
    assert(s =~= before.push(' ') + offset);
    assert(d[0] >= '0' && d[1] >= '0' && d[2] >= '0' && d[3] >= '0');
    assert forall|i: int| 0 <= i < offset.len() implies !is_white(#[trigger] offset[i]) by {
        if i > 0 {
            assert(offset[i] == d[i - 1]);
        }
    }
    lemma_word(before, offset);
    assert(s.take(s.len() as int) =~= s);
    let a = before.len() as int + 1;
    assert(s.skip(a) =~= offset);
    let head = s.take(a);
    assert(head =~= before.push(' '));
    numbers_are_written_in_decimal(epoch);
    assert forall|i: int| 0 <= i < number.len() implies !is_white(#[trigger] number[i]) by {
        assert('0' <= number[i] <= '9');
    }
    lemma_word(who, number);
    assert(head.drop_last() =~= before);
    assert(head.last() == ' ');
    assert(words_end(head) == words_end(before));
    let u = head.take(words_end(head));
    assert(u =~= before);
    assert(u.skip(who.len() as int + 1) =~= number);
    lemma_decimal_value(epoch);
    assert(number[0] != '-' && number[0] != '+');
    assert(without_plus(number) == number);
    assert(offset[0] == sign && offset[1] == d[0] && offset[2] == d[1] && offset[3] == d[2]
        && offset[4] == d[3]);
}

// ---- keys of files -----------------------------------------------------------

proof fn lemma_cut_apart(a: Seq<char>, x: Seq<char>, b: Seq<char>, y: Seq<char>)
    requires
        a.push('|') + x == b.push('|') + y,
        !x.contains('|'),
        !y.contains('|'),
    ensures
        a == b,
        x == y,
{
    let s = a.push('|') + x;
    let t = b.push('|') + y;
    assert(s.len() == a.len() + 1 + x.len() && t.len() == b.len() + 1 + y.len());
    assert(s == t);
    assert(s[a.len() as int] == '|');
    assert(t[b.len() as int] == '|');
    if a.len() < b.len() {
        let i = b.len() - a.len() - 1;
        assert(x[i] == s[b.len() as int]);
        assert(x.contains('|'));
    }
    if b.len() < a.len() {
        let i = a.len() - b.len() - 1;
        assert(y[i] == t[a.len() as int]);
        assert(y.contains('|'));
    }
    assert(a =~= s.take(a.len() as int));
    assert(b =~= t.take(b.len() as int));
    assert(x =~= s.skip(a.len() as int + 1));
    assert(y =~= t.skip(b.len() as int + 1));
}

proof fn lemma_no_bar(n: nat)
    ensures
        !decimal_text(n).contains('|'),
{
    let t = decimal_text(n);
    numbers_are_written_in_decimal(n);
    if t.contains('|') {
        let i = choose|i: int| 0 <= i < t.len() && t[i] == '|';
        assert('0' <= t[i] <= '9');
    }
}

/// Another file, another size, another time or another stride is another key.
pub proof fn keys_tell_versions_apart(
    p: Seq<char>,
    len: u64,
    mtime: (u64, u32),
    stride: u64,
    p2: Seq<char>,
    len2: u64,
    mtime2: (u64, u32),
    stride2: u64,
)
    requires
        key_text(p, len, mtime, stride) == key_text(p2, len2, mtime2, stride2),
    ensures
        p == p2 && len == len2 && mtime == mtime2 && stride == stride2,
{
    reveal_strlit("|");
    assert("|"@ =~= seq!['|']);
    let (a, b, c, d) = (
        decimal_text(len as nat),
        decimal_text(mtime.0 as nat),
        decimal_text(mtime.1 as nat),
        decimal_text(stride as nat),
    );
    let (e, f, g, h) = (
        decimal_text(len2 as nat),
        decimal_text(mtime2.0 as nat),
        decimal_text(mtime2.1 as nat),
        decimal_text(stride2 as nat),
    );
    let x1 = p.push('|') + a;
    let x2 = x1.push('|') + b;
    let x3 = x2.push('|') + c;
    let y1 = p2.push('|') + e;
    let y2 = y1.push('|') + f;
    let y3 = y2.push('|') + g;
    assert(key_text(p, len, mtime, stride) =~= x3.push('|') + d);
    assert(key_text(p2, len2, mtime2, stride2) =~= y3.push('|') + h);
    lemma_no_bar(len as nat);
    lemma_no_bar(mtime.0 as nat);
    lemma_no_bar(mtime.1 as nat);
    lemma_no_bar(stride as nat);
    lemma_no_bar(len2 as nat);
    lemma_no_bar(mtime2.0 as nat);
    lemma_no_bar(mtime2.1 as nat);
    lemma_no_bar(stride2 as nat);
    lemma_cut_apart(x3, d, y3, h);
    lemma_cut_apart(x2, c, y2, g);
    lemma_cut_apart(x1, b, y1, f);
    lemma_cut_apart(p, a, p2, e);
    lemma_decimal_value(len as nat);
    lemma_decimal_value(mtime.0 as nat);
    lemma_decimal_value(mtime.1 as nat);
    lemma_decimal_value(stride as nat);
    lemma_decimal_value(len2 as nat);
    lemma_decimal_value(mtime2.0 as nat);
    lemma_decimal_value(mtime2.1 as nat);
    lemma_decimal_value(stride2 as nat);
}

/// An encoding is known by the names that users give it.
pub proof fn encodings_are_named(key: Seq<char>)
    ensures
        key == seq!['u', 't', 'f', '8'] ==> encoding_named(key) == Some(Encoding::Utf8),
        key == seq!['a', 's', 'c', 'i', 'i'] ==> encoding_named(key) == Some(Encoding::Ascii),
        key == seq!['s', 'j', 'i', 's'] || key == seq!['c', 'p', '9', '3', '2'] || key == seq![
            's',
            'h',
            'i',
            'f',
            't',
            'j',
            'i',
            's',
        ] ==> encoding_named(key) == Some(Encoding::ShiftJis),
        key == seq!['e', 'u', 'c', 'j', 'p'] || key == seq!['e', 'u', 'c'] ==> encoding_named(key)
            == Some(Encoding::EucJp),
        key == seq!['j', 'i', 's'] ==> encoding_named(key) == Some(Encoding::Iso2022Jp),
        key == seq!['u', 't', 'f', '1', '6'] || key == seq!['u', 't', 'f', '1', '6', 'l', 'e']
            ==> encoding_named(key) == Some(Encoding::Utf16Le),
        key == seq!['u', 't', 'f', '1', '6', 'b', 'e'] ==> encoding_named(key) == Some(
            Encoding::Utf16Be,
        ),
        key.len() == 0 ==> encoding_named(key) is None,
{
    reveal_strlit("utf8");
    reveal_strlit("ascii");
    reveal_strlit("usascii");
    reveal_strlit("shiftjis");
    reveal_strlit("sjis");
    reveal_strlit("cp932");
    reveal_strlit("windows31j");
    reveal_strlit("ms932");
    reveal_strlit("eucjp");
    reveal_strlit("euc");
    reveal_strlit("iso2022jp");
    reveal_strlit("iso2022");
    reveal_strlit("jis");
    reveal_strlit("utf16");
    reveal_strlit("utf16le");
    reveal_strlit("utf16be");
    assert("utf8"@ =~= seq!['u', 't', 'f', '8']);
    assert("ascii"@ =~= seq!['a', 's', 'c', 'i', 'i']);
    assert("sjis"@ =~= seq!['s', 'j', 'i', 's']);
    assert("cp932"@ =~= seq!['c', 'p', '9', '3', '2']);
    assert("shiftjis"@ =~= seq!['s', 'h', 'i', 'f', 't', 'j', 'i', 's']);
    assert("eucjp"@ =~= seq!['e', 'u', 'c', 'j', 'p']);
    assert("euc"@ =~= seq!['e', 'u', 'c']);
    assert("jis"@ =~= seq!['j', 'i', 's']);
    assert("utf16"@ =~= seq!['u', 't', 'f', '1', '6']);
    assert("utf16le"@ =~= seq!['u', 't', 'f', '1', '6', 'l', 'e']);
    assert("utf16be"@ =~= seq!['u', 't', 'f', '1', '6', 'b', 'e']);
    assert("utf8"@[0] == 'u' && "sjis"@[0] == 's');
    assert("ascii"@[0] == 'a' && "cp932"@[0] == 'c' && "ms932"@[0] == 'm' && "eucjp"@[0] == 'e'
        && "utf16"@[0] == 'u');
    assert("usascii"@[1] == 's' && "iso2022"@[1] == 's' && "utf16le"@[1] == 't' && "utf16be"@[1]
        == 't');
    assert("utf16le"@[5] == 'l' && "utf16be"@[5] == 'b' && "usascii"@[5] == 'i' && "iso2022"@[5]
        == '2');
    assert("euc"@[0] == 'e' && "jis"@[0] == 'j');
}

/// The names that the detector gives are the labels of the encodings.
pub proof fn detected_names_are_labels(e: Encoding)
    requires
        e != Encoding::Ascii,
    ensures
        detector_encoding(e.label_text()) == e,
{
    reveal_strlit("UTF-8");
    reveal_strlit("Shift_JIS");
    reveal_strlit("EUC-JP");
    reveal_strlit("ISO-2022-JP");
    reveal_strlit("UTF-16LE");
    reveal_strlit("UTF-16BE");
    assert("UTF-16LE"@[6] == 'L' && "UTF-16BE"@[6] == 'B');
    assert("UTF-8"@.len() == 5 && "Shift_JIS"@.len() == 9 && "EUC-JP"@.len() == 6);
    assert("ISO-2022-JP"@.len() == 11 && "UTF-16LE"@.len() == 8 && "UTF-16BE"@.len() == 8);
}

} // verus!
