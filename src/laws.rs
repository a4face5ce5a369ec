//! Properties of the stored format, proved over the specifications of the
//! encoder and decoder.
use vstd::prelude::*;

use crate::storage::{id_step, description_step, status_step, encode, encode_entries, encode_entry, encode_object, scan_start, field_step, fields_of, no_fields, number_of, object_of, string_of_line, Fields, ascii_digits, decimal, digit_char, digits_value, is_digit, decode, escape, escape_char, replace_pair, scan, scan_step, unescape, ScanState};
use crate::task::{TaskView, ascii_lower, ascii_lower_seq, parse_status, status_word, TaskStatus};
use crate::text::{after_first, contains, is_ws, occurs_at, split, trim, trim_end, trim_start};

verus! {

// ---------------------------------------------------------------------------
// Escaping and unescaping
/// Whether no backslash in `s` is directly followed by one of the letters
/// `n`, `r`, `t`: such a pair would be read back as a control character.
pub open spec fn no_escape_letter_after_backslash(s: Seq<char>) -> bool {
    forall|i: int|
        0 <= i < s.len() - 1 && #[trigger] s[i] == '\\' ==> s[i + 1] != 'n' && s[i + 1] != 'r' && s[i
            + 1] != 't'
}

/// Whether character `c` has already been turned back after `k` of the five
/// replacements of `unescape`.
spec fn restored(c: char, k: int) -> bool {
    (k >= 1 && c == '"') || (k >= 2 && c == '\\') || (k >= 3 && c == '\n') || (k >= 4 && c
        == '\r') || (k >= 5 && c == '\t')
}

spec fn stage_char(c: char, k: int) -> Seq<char> {
    if restored(c, k) {
        seq![c]
    } else {
        escape_char(c)
    }
}

/// An escaped text after `k` of the five replacements of `unescape`.
spec fn stage(s: Seq<char>, k: int) -> Seq<char>
    decreases s.len(),
{
    if s.len() == 0 {
        Seq::empty()
    } else {
        stage_char(s[0], k) + stage(s.drop_first(), k)
    }
}

spec fn pattern(k: int) -> char {
    if k == 0 {
        '"'
    } else if k == 1 {
        '\\'
    } else if k == 2 {
        'n'
    } else if k == 3 {
        'r'
    } else {
        't'
    }
}

spec fn target(k: int) -> char {
    if k == 0 {
        '"'
    } else if k == 1 {
        '\\'
    } else if k == 2 {
        '\n'
    } else if k == 3 {
        '\r'
    } else {
        '\t'
    }
}

proof fn lemma_replace_single(x: char, r: Seq<char>, a: char, b: char, t: char)
    requires
        x != a,
    ensures
        replace_pair(seq![x] + r, a, b, t) == seq![x] + replace_pair(r, a, b, t),
{
    assert((seq![x] + r).drop_first() =~= r);
}

proof fn lemma_replace_match(r: Seq<char>, a: char, b: char, t: char)
    ensures
        replace_pair(seq![a, b] + r, a, b, t) == seq![t] + replace_pair(r, a, b, t),
{
    let s = seq![a, b] + r;
    assert(s.subrange(2, s.len() as int) =~= r);
}

proof fn lemma_replace_no_match(r: Seq<char>, a: char, b: char, t: char)
    requires
        r.len() == 0 || r[0] != b,
    ensures
        replace_pair(seq![a] + r, a, b, t) == seq![a] + replace_pair(r, a, b, t),
{
    assert((seq![a] + r).drop_first() =~= r);
}

proof fn lemma_stage_first(s: Seq<char>, k: int)
    requires
        s.len() > 0,
    ensures
        stage(s, k).len() > 0,
        stage(s, k)[0] == stage_char(s[0], k)[0],
        stage(s, k)[0] == s[0] || stage(s, k)[0] == '\\',
        k == 0 ==> stage(s, k)[0] != '"',
{
}

proof fn lemma_stage_step(s: Seq<char>, k: int)
    requires
        0 <= k < 5,
        no_escape_letter_after_backslash(s),
    ensures
        replace_pair(stage(s, k), '\\', pattern(k), target(k)) == stage(s, k + 1),
    decreases s.len(),
{
    if s.len() > 0 {
        let c = s[0];
        let t = s.drop_first();
        let r = stage(t, k);
        let a = '\\';
        let p = pattern(k);
        let g = target(k);
        assert(no_escape_letter_after_backslash(t)) by {
            assert forall|i: int| 0 <= i < t.len() - 1 && #[trigger] t[i] == '\\' implies t[i + 1] != 'n'
                && t[i + 1] != 'r' && t[i + 1] != 't' by {
                assert(s[i + 1] == t[i] && s[i + 2] == t[i + 1]);
            }
        }
        lemma_stage_step(t, k);
        if t.len() > 0 {
            lemma_stage_first(t, k);
            assert(c == '\\' ==> t[0] != 'n' && t[0] != 'r' && t[0] != 't') by {
                if c == '\\' {
                    assert(s[1] == t[0]);
                }
            }
        }
        assert(stage(s, k) == stage_char(c, k) + r);
        assert(stage(s, k + 1) == stage_char(c, k + 1) + stage(t, k + 1));
        if restored(c, k) {
            assert(stage_char(c, k + 1) == seq![c]);
            if c == a {
                lemma_replace_no_match(r, a, p, g);
            } else {
                lemma_replace_single(c, r, a, p, g);
            }
        } else {
            let e = escape_char(c);
            if e.len() == 1 {
                assert(e == seq![c]);
                assert(stage_char(c, k + 1) == seq![c]);
                lemma_replace_single(c, r, a, p, g);
            } else {
                let x = e[1];
                assert(e == seq![a, x]);
                if x == p {
                    assert(c == g);
                    assert(stage_char(c, k + 1) == seq![c]);
                    lemma_replace_match(r, a, p, g);
                } else {
                    assert(stage_char(c, k + 1) == e);
                    assert(seq![a, x] + r =~= seq![a] + (seq![x] + r));
                    if x == a {
                        assert(k == 0);
                        lemma_replace_no_match(r, a, p, g);
                        lemma_replace_no_match(seq![x] + r, a, p, g);
                        assert(seq![a] + (seq![a] + replace_pair(r, a, p, g)) =~= seq![a, a]
                            + replace_pair(r, a, p, g));
                    } else {
                        lemma_replace_no_match(seq![x] + r, a, p, g);
                        lemma_replace_single(x, r, a, p, g);
                        assert(seq![a] + (seq![x] + replace_pair(r, a, p, g)) =~= seq![a, x]
                            + replace_pair(r, a, p, g));
                    }
                }
            }
        }
    }
}

proof fn lemma_stage_zero(s: Seq<char>)
    ensures
        stage(s, 0) == escape(s),
    decreases s.len(),
{
    if s.len() > 0 {
        lemma_stage_zero(s.drop_first());
    }
}

proof fn lemma_stage_five(s: Seq<char>)
    ensures
        stage(s, 5) == s,
    decreases s.len(),
{
    if s.len() > 0 {
        lemma_stage_five(s.drop_first());
        assert(stage_char(s[0], 5) == seq![s[0]]);
        assert(seq![s[0]] + s.drop_first() =~= s);
    }
}

/// Unescaping undoes escaping for every text in which no backslash is
/// directly followed by `n`, `r` or `t`; a text made of lower-case letters,
/// backslashes, double quotes, newlines, carriage returns and tabs is
/// restored exactly when it has no such pair.
pub proof fn lemma_unescape_escape(s: Seq<char>)
    requires
        no_escape_letter_after_backslash(s),
    ensures
        unescape(escape(s)) == s,
{
    lemma_stage_zero(s);
    lemma_stage_step(s, 0);
    lemma_stage_step(s, 1);
    lemma_stage_step(s, 2);
    lemma_stage_step(s, 3);
    lemma_stage_step(s, 4);
    lemma_stage_five(s);
}


// ---------------------------------------------------------------------------
// Statuses
/// A status is read back from any spelling that differs from its word only in
/// ASCII case, and from no other; its word is written in lower case.
pub proof fn lemma_status_case(s: Seq<char>, st: TaskStatus)
    ensures
        parse_status(s) == Some(st) <==> ascii_lower_seq(s) == status_word(st),
        ascii_lower_seq(status_word(st)) == status_word(st),
        parse_status(status_word(st)) == Some(st),
{
    reveal_strlit("todo");
    reveal_strlit("in-progress");
    reveal_strlit("done");
    assert(status_word(TaskStatus::Todo) != status_word(TaskStatus::InProgress));
    assert(status_word(TaskStatus::Todo)[0] != status_word(TaskStatus::Done)[0]);
    assert(status_word(TaskStatus::InProgress)[0] != status_word(TaskStatus::Done)[0]);
    assert(ascii_lower_seq(status_word(st)) =~= status_word(st));
}

// ---------------------------------------------------------------------------
// Lists
/// A text that, once trimmed, does not start with `[` and end with `]` holds
/// no tasks.
pub proof fn lemma_malformed_shape_is_empty(text: Seq<char>)
    requires
        trim(text).len() == 0 || trim(text)[0] != '[' || trim(text).last() != ']',
    ensures
        decode(text) == Seq::<crate::task::TaskView>::empty(),
{
}


// ---------------------------------------------------------------------------
// Facts about the text functions
proof fn lemma_split_len(s: Seq<char>, c: char)
    ensures
        split(s, c).len() >= 1,
    decreases s.len(),
{
    if s.len() > 0 {
        lemma_split_len(s.drop_last(), c);
    }
}

/// A text without the separator is one piece.
proof fn lemma_split_none(s: Seq<char>, c: char)
    requires
        forall|i: int| 0 <= i < s.len() ==> s[i] != c,
    ensures
        split(s, c) == seq![s],
    decreases s.len(),
{
    if s.len() > 0 {
        lemma_split_none(s.drop_last(), c);
        assert(s.last() != c);
        assert(s.drop_last().push(s.last()) =~= s);
        assert(seq![s.drop_last()].update(0, s.drop_last().push(s.last())) =~= seq![s]);
    } else {
        assert(s =~= Seq::<char>::empty());
    }
}

/// The pieces on either side of a separator are kept apart.
proof fn lemma_split_join(a: Seq<char>, b: Seq<char>, c: char)
    ensures
        split(a + seq![c] + b, c) == split(a, c) + split(b, c),
    decreases b.len(),
{
    let s = a + seq![c] + b;
    if b.len() == 0 {
        assert(s.drop_last() =~= a);
        assert(split(b, c) =~= seq![Seq::<char>::empty()]);
        assert(split(a, c).push(Seq::empty()) =~= split(a, c) + split(b, c));
    } else {
        lemma_split_join(a, b.drop_last(), c);
        assert(s.drop_last() =~= a + seq![c] + b.drop_last());
        lemma_split_len(b.drop_last(), c);
        lemma_split_len(a, c);
        let p = split(a, c);
        let q = split(b.drop_last(), c);
        if b.last() == c {
            assert((p + q).push(Seq::empty()) =~= p + q.push(Seq::empty()));
        } else {
            let u = q.last().push(b.last());
            assert((p + q).last() == q.last());
            assert((p + q).update((p + q).len() - 1, u) =~= p + q.update(q.len() - 1, u));
        }
    }
}

/// Leading white space is dropped up to the first other character.
proof fn lemma_trim_start_prefix(w: Seq<char>, core: Seq<char>)
    requires
        forall|i: int| 0 <= i < w.len() ==> is_ws(#[trigger] w[i]),
        core.len() > 0,
        !is_ws(core[0]),
    ensures
        trim_start(w + core) == core,
    decreases w.len(),
{
    if w.len() > 0 {
        assert((w + core).drop_first() =~= w.drop_first() + core);
        lemma_trim_start_prefix(w.drop_first(), core);
    } else {
        assert(w + core =~= core);
    }
}

/// Trimming a text that starts with white space and then holds `core`, which
/// begins and ends with other characters, gives `core`.
proof fn lemma_trim_line(w: Seq<char>, core: Seq<char>)
    requires
        forall|i: int| 0 <= i < w.len() ==> is_ws(#[trigger] w[i]),
        core.len() > 0,
        !is_ws(core[0]),
        !is_ws(core.last()),
    ensures
        trim(w + core) == core,
{
    lemma_trim_start_prefix(w, core);
}

/// A pattern whose first two characters never stand side by side in `l`
/// does not occur in `l`.
proof fn lemma_not_contains(l: Seq<char>, pat: Seq<char>)
    requires
        pat.len() >= 2,
        forall|j: int| 0 <= j < l.len() - 1 && #[trigger] l[j] == pat[0] ==> l[j + 1] != pat[1],
    ensures
        !contains(l, pat),
{
    assert forall|i: int| !occurs_at(l, pat, i) by {
        if occurs_at(l, pat, i) {
            assert(l.subrange(i, i + pat.len())[0] == l[i]);
            assert(l.subrange(i, i + pat.len())[1] == l[i + 1]);
        }
    }
}

proof fn lemma_contains_start(l: Seq<char>, pat: Seq<char>, rest: Seq<char>)
    requires
        l == pat + rest,
    ensures
        contains(l, pat),
{
    assert(l.subrange(0, pat.len() as int) =~= pat);
    assert(occurs_at(l, pat, 0));
}

/// What follows the first `c`, when the text before it holds none.
proof fn lemma_after_first(p: Seq<char>, c: char, q: Seq<char>)
    requires
        forall|i: int| 0 <= i < p.len() ==> p[i] != c,
    ensures
        after_first(p + seq![c] + q, c) == Some(q),
    decreases p.len(),
{
    let s = p + seq![c] + q;
    if p.len() == 0 {
        assert(s.drop_first() =~= q);
    } else {
        assert(s.drop_first() =~= p.drop_first() + seq![c] + q);
        lemma_after_first(p.drop_first(), c, q);
    }
}


// ---------------------------------------------------------------------------
// Facts about the scan of a list's body
pub open spec fn brace_delta(c: char) -> int {
    if c == '{' {
        1
    } else if c == '}' {
        -1
    } else {
        0
    }
}

/// Opening braces in `s` less closing ones.
pub open spec fn brace_depth(s: Seq<char>) -> int
    decreases s.len(),
{
    if s.len() == 0 {
        0
    } else {
        brace_delta(s[0]) + brace_depth(s.drop_first())
    }
}

/// Whether every brace of `s` is closed in `s` and no closing brace comes
/// before its opening one.
pub open spec fn braces_balanced(s: Seq<char>) -> bool {
    &&& brace_depth(s) == 0
    &&& forall|k: int| 0 <= k <= s.len() ==> brace_depth(#[trigger] s.subrange(0, k)) >= 0
}

pub open spec fn has_no_braces(s: Seq<char>) -> bool {
    forall|i: int| 0 <= i < s.len() ==> s[i] != '{' && s[i] != '}'
}

proof fn lemma_scan_append(st: ScanState, a: Seq<char>, b: Seq<char>)
    ensures
        scan(st, a + b) == scan(scan(st, a), b),
    decreases a.len(),
{
    if a.len() == 0 {
        assert(a + b =~= b);
    } else {
        assert((a + b).drop_first() =~= a.drop_first() + b);
        lemma_scan_append(scan_step(st, a[0]), a.drop_first(), b);
    }
}

/// Inside an object, text without braces is collected.
proof fn lemma_scan_plain(st: ScanState, x: Seq<char>)
    requires
        st.depth >= 1,
        has_no_braces(x),
    ensures
        scan(st, x) == (ScanState { buf: st.buf + x, ..st }),
    decreases x.len(),
{
    if x.len() == 0 {
        assert(st.buf + x =~= st.buf);
    } else {
        let next = scan_step(st, x[0]);
        assert(next == ScanState { buf: st.buf.push(x[0]), ..st });
        lemma_scan_plain(next, x.drop_first());
        assert(st.buf.push(x[0]) + x.drop_first() =~= st.buf + x);
    }
}

/// Outside objects, text without braces is skipped.
proof fn lemma_scan_skip(st: ScanState, x: Seq<char>)
    requires
        st.depth == 0,
        has_no_braces(x),
    ensures
        scan(st, x) == st,
    decreases x.len(),
{
    if x.len() > 0 {
        lemma_scan_skip(st, x.drop_first());
    }
}

/// Inside an object, an escaped description whose braces never close the
/// object is collected.
proof fn lemma_scan_escape(st: ScanState, d: Seq<char>)
    requires
        st.depth >= 1,
        forall|k: int| 0 <= k <= d.len() ==> st.depth + brace_depth(#[trigger] d.subrange(0, k)) >= 1,
    ensures
        scan(st, escape(d)) == (ScanState {
            depth: st.depth + brace_depth(d),
            buf: st.buf + escape(d),
            ..st
        }),
    decreases d.len(),
{
    if d.len() == 0 {
        assert(st.buf + escape(d) =~= st.buf);
    } else {
        let c = d[0];
        let t = d.drop_first();
        let e = escape_char(c);
        lemma_scan_append(st, e, escape(t));
        let mid = ScanState { depth: st.depth + brace_delta(c), buf: st.buf + e, ..st };
        assert(d.subrange(0, 1).drop_first() =~= Seq::<char>::empty());
        assert(brace_depth(d.subrange(0, 1).drop_first()) == 0);
        assert(d.subrange(0, 1)[0] == c);
        assert(brace_depth(d.subrange(0, 1)) == brace_delta(c));
        if c == '{' || c == '}' {
            assert(e == seq![c]);
            assert(e.drop_first() =~= Seq::<char>::empty());
            assert(scan(st, e) == scan(scan_step(st, c), e.drop_first()));
            assert(st.buf.push(c) =~= st.buf + e);
            assert(scan(st, e) == mid);
        } else {
            assert(has_no_braces(e));
            lemma_scan_plain(st, e);
            assert(scan(st, e) == mid);
        }
        assert forall|k: int| 0 <= k <= t.len() implies mid.depth + brace_depth(
            #[trigger] t.subrange(0, k),
        ) >= 1 by {
            assert(d.subrange(0, k + 1).drop_first() =~= t.subrange(0, k));
            assert(d.subrange(0, k + 1)[0] == c);
            assert(st.depth + brace_depth(d.subrange(0, k + 1)) >= 1);
        }
        lemma_scan_escape(mid, t);
        assert(mid.buf + escape(t) =~= st.buf + escape(d));
    }
}


// ---------------------------------------------------------------------------
// Facts about numbers
proof fn lemma_digit_char(d: nat)
    requires
        d < 10,
    ensures
        is_digit(digit_char(d)),
        ((digit_char(d) as u32) - 48) as nat == d,
{
}

proof fn lemma_decimal(n: nat)
    ensures
        decimal(n).len() >= 1,
        forall|i: int| 0 <= i < decimal(n).len() ==> is_digit(#[trigger] decimal(n)[i]),
        digits_value(decimal(n)) == n,
    decreases n,
{
    if n < 10 {
        lemma_digit_char(n);
        assert(decimal(n).drop_last() =~= Seq::<char>::empty());
        assert(digits_value(decimal(n).drop_last()) == 0);
        assert(decimal(n).last() == digit_char(n));
    } else {
        lemma_decimal(n / 10);
        lemma_digit_char(n % 10);
        assert(decimal(n).drop_last() =~= decimal(n / 10));
        assert(decimal(n).last() == digit_char(n % 10));
        assert(digits_value(decimal(n)) == (n / 10) * 10 + n % 10);
        assert((n / 10) * 10 + n % 10 == n);
        assert forall|i: int| 0 <= i < decimal(n).len() implies is_digit(
            #[trigger] decimal(n)[i],
        ) by {
            if i < decimal(n).len() - 1 {
                assert(decimal(n)[i] == decimal(n / 10)[i]);
            }
        }
    }
}

proof fn lemma_digits_join(a: Seq<char>, b: Seq<char>)
    ensures
        ascii_digits(a + b) == ascii_digits(a) + ascii_digits(b),
    decreases a.len(),
{
    if a.len() == 0 {
        assert(a + b =~= b);
        assert(ascii_digits(a) + ascii_digits(b) =~= ascii_digits(b));
    } else {
        assert((a + b).drop_first() =~= a.drop_first() + b);
        lemma_digits_join(a.drop_first(), b);
        if is_digit(a[0]) {
            assert(seq![a[0]] + (ascii_digits(a.drop_first()) + ascii_digits(b)) =~= (seq![a[0]]
                + ascii_digits(a.drop_first())) + ascii_digits(b));
        }
    }
}

proof fn lemma_digits_all(a: Seq<char>)
    requires
        forall|i: int| 0 <= i < a.len() ==> is_digit(#[trigger] a[i]),
    ensures
        ascii_digits(a) == a,
    decreases a.len(),
{
    if a.len() > 0 {
        lemma_digits_all(a.drop_first());
        assert(seq![a[0]] + a.drop_first() =~= a);
    }
}

proof fn lemma_digits_none(a: Seq<char>)
    requires
        forall|i: int| 0 <= i < a.len() ==> !is_digit(#[trigger] a[i]),
    ensures
        ascii_digits(a) == Seq::<char>::empty(),
    decreases a.len(),
{
    if a.len() > 0 {
        lemma_digits_none(a.drop_first());
    }
}


// ---------------------------------------------------------------------------
// The lines of one written task
spec fn id_head() -> Seq<char> {
    seq!['"', 'i', 'd', '"', ':', ' ']
}

spec fn description_head() -> Seq<char> {
    seq!['"', 'd', 'e', 's', 'c', 'r', 'i', 'p', 't', 'i', 'o', 'n', '"', ':', ' ', '"']
}

spec fn status_head() -> Seq<char> {
    seq!['"', 's', 't', 'a', 't', 'u', 's', '"', ':', ' ', '"']
}

spec fn indent() -> Seq<char> {
    seq![' ', ' ', ' ', ' ']
}

/// Whether a description is read back as it was written: it holds no double
/// quote, keeps its braces balanced and has no backslash directly before
/// `n`, `r` or `t`.
pub open spec fn round_trip_safe(d: Seq<char>) -> bool {
    &&& forall|i: int| 0 <= i < d.len() ==> d[i] != '"'
    &&& braces_balanced(d)
    &&& no_escape_letter_after_backslash(d)
}

proof fn lemma_keys()
    ensures
        "\"id\""@ == seq!['"', 'i', 'd', '"'],
        "\"description\""@ == seq!['"', 'd', 'e', 's', 'c', 'r', 'i', 'p', 't', 'i', 'o', 'n', '"'],
        "\"status\""@ == seq!['"', 's', 't', 'a', 't', 'u', 's', '"'],
{
    reveal_strlit("\"id\"");
    reveal_strlit("\"description\"");
    reveal_strlit("\"status\"");
    assert("\"id\""@ =~= seq!['"', 'i', 'd', '"']);
    assert("\"description\""@ =~= seq!['"', 'd', 'e', 's', 'c', 'r', 'i', 'p', 't', 'i', 'o', 'n', '"']);
    assert("\"status\""@ =~= seq!['"', 's', 't', 'a', 't', 'u', 's', '"']);
}

proof fn lemma_escape_chars(d: Seq<char>)
    ensures
        forall|i: int| 0 <= i < escape(d).len() ==> #[trigger] escape(d)[i] != '\n',
        (forall|i: int| 0 <= i < d.len() ==> d[i] != '"') ==> forall|i: int|
            0 <= i < escape(d).len() ==> #[trigger] escape(d)[i] != '"',
    decreases d.len(),
{
    if d.len() > 0 {
        let t = d.drop_first();
        lemma_escape_chars(t);
        let e = escape_char(d[0]);
        assert(escape(d) == e + escape(t));
        assert forall|i: int| 0 <= i < escape(d).len() implies #[trigger] escape(d)[i] != '\n' by {
            if i >= e.len() {
                assert(escape(d)[i] == escape(t)[i - e.len()]);
            }
        }
        if forall|i: int| 0 <= i < d.len() ==> d[i] != '"' {
            assert forall|i: int| 0 <= i < escape(d).len() implies #[trigger] escape(d)[i]
                != '"' by {
                assert(d[0] != '"');
                assert forall|j: int| 0 <= j < t.len() implies t[j] != '"' by {
                    assert(t[j] == d[j + 1]);
                }
                if i >= e.len() {
                    assert(escape(d)[i] == escape(t)[i - e.len()]);
                }
            }
        }
    }
}

proof fn lemma_replace_absent(s: Seq<char>, a: char, b: char, t: char)
    requires
        forall|i: int| 0 <= i < s.len() ==> s[i] != a,
    ensures
        replace_pair(s, a, b, t) == s,
    decreases s.len(),
{
    if s.len() > 0 {
        lemma_replace_absent(s.drop_first(), a, b, t);
        assert(seq![s[0]] + s.drop_first() =~= s);
    }
}

proof fn lemma_id_number(id: u32)
    ensures
        number_of(id_head() + decimal(id as nat) + seq![',']) == Some(id),
{
    let n = decimal(id as nat);
    let core = id_head() + n + seq![','];
    let tail = seq![' '] + n + seq![','];
    lemma_decimal(id as nat);
    assert(core =~= seq!['"', 'i', 'd', '"'] + seq![':'] + tail);
    lemma_after_first(seq!['"', 'i', 'd', '"'], ':', tail);
    lemma_digits_join(seq![' '] + n, seq![',']);
    lemma_digits_join(seq![' '], n);
    lemma_digits_none(seq![' ']);
    lemma_digits_none(seq![',']);
    lemma_digits_all(n);
    assert(ascii_digits(tail) =~= n);
}

/// The `id` line gives the id and nothing else.
proof fn lemma_id_line(f: Fields, id: u32)
    ensures
        field_step(f, indent() + (id_head() + decimal(id as nat) + seq![','])) == (Fields {
            id: Some(id),
            ..f
        }),
{
    let n = decimal(id as nat);
    let core = id_head() + n + seq![','];
    lemma_trim_line(indent(), core);
    lemma_keys();
    assert(core =~= "\"id\""@ + (seq![':', ' '] + n + seq![',']));
    lemma_contains_start(core, "\"id\""@, seq![':', ' '] + n + seq![',']);
    lemma_id_number(id);
    lemma_decimal(id as nat);
    assert forall|j: int| 0 <= j < core.len() - 1 && #[trigger] core[j] == '"' implies core[j + 1]
        != 'd' && core[j + 1] != 's' by {
        if j < 6 {
            assert(core[j] == id_head()[j]);
            if j < 5 {
                assert(core[j + 1] == id_head()[j + 1]);
            } else {
                assert(core[j + 1] == n[0]);
            }
        } else if j < 6 + n.len() {
            assert(core[j] == n[j - 6]);
        }
    }
    lemma_not_contains(core, seq!['"', 'd', 'e', 's', 'c', 'r', 'i', 'p', 't', 'i', 'o', 'n', '"']);
    lemma_not_contains(core, seq!['"', 's', 't', 'a', 't', 'u', 's', '"']);
    assert(id_step(f, core) == Fields { id: Some(id), ..f });
}


/// An escaped text made of characters that escaping keeps came from that
/// same text.
proof fn lemma_escape_plain(d: Seq<char>, k: Seq<char>)
    requires
        escape(d) == k,
        forall|i: int|
            0 <= i < k.len() ==> #[trigger] k[i] != '\\' && k[i] != '"' && k[i] != '\n' && k[i]
                != '\r' && k[i] != '\t',
    ensures
        d == k,
    decreases d.len(),
{
    if d.len() > 0 {
        let e = escape_char(d[0]);
        assert(escape(d) == e + escape(d.drop_first()));
        assert(k[0] == e[0]);
        assert(e == seq![d[0]]);
        assert(escape(d.drop_first()) =~= k.drop_first());
        lemma_escape_plain(d.drop_first(), k.drop_first());
        assert(d =~= k);
    } else {
        assert(k.len() == 0);
        assert(d =~= k);
    }
}

/// A quoted word held by the written description line, other than the two
/// quoted at its start, is the escaped description itself.
proof fn lemma_description_line_key(d: Seq<char>, k: Seq<char>)
    requires
        forall|i: int| 0 <= i < d.len() ==> d[i] != '"',
        k.len() >= 1,
        k[0] != 'd' && k[0] != ':' && k[0] != ',',
        forall|i: int| 0 <= i < k.len() ==> #[trigger] k[i] != '"',
        contains(description_head() + escape(d) + seq!['"', ','], seq!['"'] + k + seq!['"']),
    ensures
        escape(d) == k,
{
    let e = escape(d);
    let h = description_head();
    let l = h + e + seq!['"', ','];
    let pat = seq!['"'] + k + seq!['"'];
    lemma_escape_chars(d);
    let i = choose|i: int| occurs_at(l, pat, i);
    let w = l.subrange(i, i + pat.len());
    assert(w == pat);
    assert(l[i] == w[0] && w[0] == '"');
    assert(l[i + 1] == w[1] && w[1] == k[0]);
    assert forall|j: int| 0 <= j < k.len() implies l[i + 1 + j] == k[j] by {
        assert(w[1 + j] == l[i + 1 + j]);
    }
    assert(l[i + 1 + k.len() as int] == w[1 + k.len() as int]);
    if i < 16 {
        assert(l[i] == h[i]);
        assert(i == 0 || i == 12 || i == 15);
        if i == 0 {
            assert(l[1] == h[1]);
        } else if i == 12 {
            assert(l[13] == h[13]);
        } else {
            if e.len() > k.len() {
                assert(l[16 + k.len() as int] == e[k.len() as int]);
            } else if e.len() < k.len() {
                assert(l[16 + e.len() as int] == '"');
                assert(k[e.len() as int] == l[16 + e.len() as int]);
            } else {
                assert forall|j: int| 0 <= j < k.len() implies e[j] == k[j] by {
                    assert(l[16 + j] == e[j]);
                    assert(l[i + 1 + j] == k[j]);
                }
                assert(e =~= k);
            }
        }
    } else if i < 16 + e.len() {
        assert(l[i] == e[i - 16]);
    } else {
        assert(l[i + 1] == ',');
    }
}

/// On the written description line the `id` test changes nothing.
proof fn lemma_description_line_id(f: Fields, d: Seq<char>)
    requires
        round_trip_safe(d),
    ensures
        id_step(f, description_head() + escape(d) + seq!['"', ',']) == f,
{
    let e = escape(d);
    let l = description_head() + e + seq!['"', ','];
    lemma_keys();
    let k = seq!['i', 'd'];
    assert(seq!['"'] + k + seq!['"'] =~= seq!['"', 'i', 'd', '"']);
    if contains(l, seq!['"', 'i', 'd', '"']) {
        lemma_description_line_key(d, k);
        lemma_escape_plain(d, k);
        // the line is then `"description": "id",`, with no digit after its colon
        let p = l.subrange(0, 13);
        let rest = seq![' ', '"', 'i', 'd', '"', ','];
        assert(l =~= p + seq![':'] + rest);
        lemma_after_first(p, ':', rest);
        lemma_digits_none(rest);
        assert(number_of(l) is None);
    }
}

/// On the written description line the `status` test changes nothing while
/// no status has been read.
proof fn lemma_description_line_status(f: Fields, d: Seq<char>)
    requires
        round_trip_safe(d),
        f.status is None,
    ensures
        status_step(f, description_head() + escape(d) + seq!['"', ',']) == f,
{
    let e = escape(d);
    let l = description_head() + e + seq!['"', ','];
    lemma_keys();
    let k = seq!['s', 't', 'a', 't', 'u', 's'];
    assert(seq!['"'] + k + seq!['"'] =~= seq!['"', 's', 't', 'a', 't', 'u', 's', '"']);
    if contains(l, seq!['"', 's', 't', 'a', 't', 'u', 's', '"']) {
        lemma_description_line_key(d, k);
        lemma_escape_plain(d, k);
        lemma_description_value(d);
        lemma_status_words();
        assert(ascii_lower_seq(d).len() == 6);
        assert(parse_status(d) is None);
    }
}

proof fn lemma_description_value(d: Seq<char>)
    requires
        round_trip_safe(d),
    ensures
        string_of_line(description_head() + escape(d) + seq!['"', ',']) == Some(d),
{
    let e = escape(d);
    let l = description_head() + e + seq!['"', ','];
    let name = seq!['d', 'e', 's', 'c', 'r', 'i', 'p', 't', 'i', 'o', 'n'];
    let q = '"';
    lemma_escape_chars(d);
    assert(l =~= Seq::<char>::empty() + seq![q] + (name + seq![q] + (seq![':', ' '] + seq![q] + (
    e + seq![q] + seq![',']))));
    lemma_split_join(Seq::empty(), name + seq![q] + (seq![':', ' '] + seq![q] + (e + seq![q] + seq![','])), q);
    lemma_split_join(name, seq![':', ' '] + seq![q] + (e + seq![q] + seq![',']), q);
    lemma_split_join(seq![':', ' '], e + seq![q] + seq![','], q);
    lemma_split_join(e, seq![','], q);
    lemma_split_none(Seq::empty(), q);
    lemma_split_none(name, q);
    lemma_split_none(seq![':', ' '], q);
    lemma_split_none(e, q);
    lemma_split_none(seq![','], q);
    let parts = split(l, q);
    assert(parts =~= seq![Seq::empty(), name, seq![':', ' '], e, seq![',']]);
    lemma_unescape_escape(d);
}

/// The `description` line gives the description and nothing else.
proof fn lemma_description_line(f: Fields, d: Seq<char>)
    requires
        round_trip_safe(d),
        f.status is None,
    ensures
        field_step(f, indent() + (description_head() + escape(d) + seq!['"', ','])) == (Fields {
            description: Some(d),
            ..f
        }),
{
    let e = escape(d);
    let core = description_head() + e + seq!['"', ','];
    assert(core[0] == '"');
    assert(core.last() == ',');
    lemma_trim_line(indent(), core);
    lemma_keys();
    lemma_description_line_id(f, d);
    lemma_description_line_status(Fields { description: Some(d), ..f }, d);
    let key = seq!['"', 'd', 'e', 's', 'c', 'r', 'i', 'p', 't', 'i', 'o', 'n', '"'];
    assert(core =~= key + (seq![':', ' ', '"'] + e + seq!['"', ',']));
    lemma_contains_start(core, key, seq![':', ' ', '"'] + e + seq!['"', ',']);
    lemma_description_value(d);
}


/// A pattern whose first three characters never stand in a row in `l` does
/// not occur in `l`.
proof fn lemma_not_contains3(l: Seq<char>, pat: Seq<char>)
    requires
        pat.len() >= 3,
        forall|j: int|
            0 <= j < l.len() - 2 && #[trigger] l[j] == pat[0] && l[j + 1] == pat[1] ==> l[j + 2]
                != pat[2],
    ensures
        !contains(l, pat),
{
    assert forall|i: int| !occurs_at(l, pat, i) by {
        if occurs_at(l, pat, i) {
            let w = l.subrange(i, i + pat.len());
            assert(w[0] == l[i] && w[1] == l[i + 1] && w[2] == l[i + 2]);
        }
    }
}

proof fn lemma_status_words()
    ensures
        status_word(TaskStatus::Todo) == seq!['t', 'o', 'd', 'o'],
        status_word(TaskStatus::InProgress) == seq![
            'i',
            'n',
            '-',
            'p',
            'r',
            'o',
            'g',
            'r',
            'e',
            's',
            's',
        ],
        status_word(TaskStatus::Done) == seq!['d', 'o', 'n', 'e'],
{
    reveal_strlit("todo");
    reveal_strlit("in-progress");
    reveal_strlit("done");
    assert(status_word(TaskStatus::Todo) =~= seq!['t', 'o', 'd', 'o']);
    assert(status_word(TaskStatus::InProgress) =~= seq![
        'i',
        'n',
        '-',
        'p',
        'r',
        'o',
        'g',
        'r',
        'e',
        's',
        's',
    ]);
    assert(status_word(TaskStatus::Done) =~= seq!['d', 'o', 'n', 'e']);
}

proof fn lemma_status_line_keys(st: TaskStatus)
    ensures
        !contains(status_head() + status_word(st) + seq!['"'], seq!['"', 'i', 'd', '"']),
        !contains(
            status_head() + status_word(st) + seq!['"'],
            seq!['"', 'd', 'e', 's', 'c', 'r', 'i', 'p', 't', 'i', 'o', 'n', '"'],
        ),
{
    lemma_status_words();
    let l = status_head() + status_word(st) + seq!['"'];
    let w = status_word(st);
    assert forall|j: int| 0 <= j < l.len() - 2 && #[trigger] l[j] == '"' implies (l[j + 1] != 'i'
        || l[j + 2] != 'd') && (l[j + 1] != 'd' || l[j + 2] != 'e') by {
        if j < 11 {
            assert(l[j] == status_head()[j]);
            if j == 10 {
                assert(l[j + 1] == w[0] && l[j + 2] == w[1]);
            } else {
                assert(l[j + 1] == status_head()[j + 1]);
            }
        } else {
            assert(l[j] == w[j - 11]);
        }
    }
    lemma_not_contains3(l, seq!['"', 'i', 'd', '"']);
    lemma_not_contains3(l, seq!['"', 'd', 'e', 's', 'c', 'r', 'i', 'p', 't', 'i', 'o', 'n', '"']);
}

proof fn lemma_status_value(st: TaskStatus)
    ensures
        string_of_line(status_head() + status_word(st) + seq!['"']) == Some(status_word(st)),
{
    lemma_status_words();
    let w = status_word(st);
    let l = status_head() + w + seq!['"'];
    let name = seq!['s', 't', 'a', 't', 'u', 's'];
    let q = '"';
    let e = Seq::<char>::empty();
    assert(l =~= e + seq![q] + (name + seq![q] + (seq![':', ' '] + seq![q] + (w + seq![q] + e))));
    lemma_split_join(e, name + seq![q] + (seq![':', ' '] + seq![q] + (w + seq![q] + e)), q);
    lemma_split_join(name, seq![':', ' '] + seq![q] + (w + seq![q] + e), q);
    lemma_split_join(seq![':', ' '], w + seq![q] + e, q);
    lemma_split_join(w, e, q);
    lemma_split_none(e, q);
    lemma_split_none(name, q);
    lemma_split_none(seq![':', ' '], q);
    lemma_split_none(w, q);
    assert(split(l, q) =~= seq![e, name, seq![':', ' '], w, e]);
    let b = '\\';
    lemma_replace_absent(w, b, '"', '"');
    lemma_replace_absent(w, b, b, b);
    lemma_replace_absent(w, b, 'n', '\n');
    lemma_replace_absent(w, b, 'r', '\r');
    lemma_replace_absent(w, b, 't', '\t');
}

/// The `status` line gives the status and nothing else.
proof fn lemma_status_line(f: Fields, st: TaskStatus)
    ensures
        field_step(f, indent() + (status_head() + status_word(st) + seq!['"'])) == (Fields {
            status: Some(st),
            ..f
        }),
{
    let w = status_word(st);
    let core = status_head() + w + seq!['"'];
    assert(core[0] == '"');
    assert(core.last() == '"');
    lemma_trim_line(indent(), core);
    lemma_keys();
    lemma_status_line_keys(st);
    let key = seq!['"', 's', 't', 'a', 't', 'u', 's', '"'];
    assert(core =~= key + (seq![':', ' ', '"'] + w + seq!['"']));
    lemma_contains_start(core, key, seq![':', ' ', '"'] + w + seq!['"']);
    lemma_status_value(st);
    lemma_status_case(w, st);
}


spec fn id_line(t: TaskView) -> Seq<char> {
    indent() + (id_head() + decimal(t.id as nat) + seq![','])
}

spec fn description_line(t: TaskView) -> Seq<char> {
    indent() + (description_head() + escape(t.description) + seq!['"', ','])
}

spec fn status_line(t: TaskView) -> Seq<char> {
    indent() + (status_head() + status_word(t.status) + seq!['"'])
}

/// The text of one written task from its opening to its closing brace.
spec fn object_text(t: TaskView) -> Seq<char> {
    seq!['{'] + seq!['\n'] + id_line(t) + seq!['\n'] + description_line(t) + seq!['\n']
        + status_line(t) + seq!['\n'] + seq![' ', ' ', '}']
}

/// A line with a single brace and white space gives nothing.
proof fn lemma_brace_line(f: Fields, w: Seq<char>, c: char)
    requires
        forall|i: int| 0 <= i < w.len() ==> is_ws(#[trigger] w[i]),
        c == '{' || c == '}',
    ensures
        field_step(f, w + seq![c]) == f,
{
    lemma_trim_line(w, seq![c]);
    lemma_keys();
}

proof fn lemma_object_lines(t: TaskView)
    requires
        round_trip_safe(t.description),
    ensures
        split(object_text(t), '\n') == seq![
            seq!['{'],
            id_line(t),
            description_line(t),
            status_line(t),
            seq![' ', ' ', '}'],
        ],
{
    let nl = '\n';
    let l0 = seq!['{'];
    let l1 = id_line(t);
    let l2 = description_line(t);
    let l3 = status_line(t);
    let l4 = seq![' ', ' ', '}'];
    lemma_decimal(t.id as nat);
    lemma_escape_chars(t.description);
    lemma_status_words();
    assert(object_text(t) =~= l0 + seq![nl] + (l1 + seq![nl] + (l2 + seq![nl] + (l3 + seq![nl]
        + l4))));
    lemma_split_join(l0, l1 + seq![nl] + (l2 + seq![nl] + (l3 + seq![nl] + l4)), nl);
    lemma_split_join(l1, l2 + seq![nl] + (l3 + seq![nl] + l4), nl);
    lemma_split_join(l2, l3 + seq![nl] + l4, nl);
    lemma_split_join(l3, l4, nl);
    lemma_split_none(l0, nl);
    assert forall|i: int| 0 <= i < l1.len() implies l1[i] != nl by {
        if 10 <= i < l1.len() - 1 {
            assert(l1[i] == decimal(t.id as nat)[i - 10]);
        }
    }
    lemma_split_none(l1, nl);
    assert forall|i: int| 0 <= i < l2.len() implies l2[i] != nl by {
        if 20 <= i < l2.len() - 2 {
            assert(l2[i] == escape(t.description)[i - 20]);
        }
    }
    lemma_split_none(l2, nl);
    assert forall|i: int| 0 <= i < l3.len() implies l3[i] != nl by {
        if 15 <= i < l3.len() - 1 {
            assert(l3[i] == status_word(t.status)[i - 15]);
        }
    }
    lemma_split_none(l3, nl);
    lemma_split_none(l4, nl);
    assert(seq![l0] + (seq![l1] + (seq![l2] + (seq![l3] + seq![l4]))) =~= seq![l0, l1, l2, l3, l4]);
}

/// The text of a written task gives back the task.
proof fn lemma_object(t: TaskView)
    requires
        round_trip_safe(t.description),
    ensures
        object_of(object_text(t)) == Some(t),
{
    let lines = split(object_text(t), '\n');
    lemma_object_lines(t);
    let f0 = no_fields();
    let ws2 = seq![' ', ' '];
    lemma_brace_line(f0, Seq::empty(), '{');
    assert(Seq::<char>::empty() + seq!['{'] =~= seq!['{']);
    assert(ws2 + seq!['}'] =~= seq![' ', ' ', '}']);
    let f1 = Fields { id: Some(t.id), ..f0 };
    lemma_id_line(f0, t.id);
    let f2 = Fields { description: Some(t.description), ..f1 };
    lemma_description_line(f1, t.description);
    let f3 = Fields { status: Some(t.status), ..f2 };
    lemma_status_line(f2, t.status);
    lemma_brace_line(f3, ws2, '}');
    assert(lines.drop_last() =~= seq![seq!['{'], id_line(t), description_line(t), status_line(t)]);
    assert(lines.drop_last().drop_last() =~= seq![seq!['{'], id_line(t), description_line(t)]);
    assert(lines.drop_last().drop_last().drop_last() =~= seq![seq!['{'], id_line(t)]);
    assert(lines.drop_last().drop_last().drop_last().drop_last() =~= seq![seq!['{']]);
    assert(seq![seq!['{']].drop_last() =~= Seq::<Seq<char>>::empty());
    assert(fields_of(Seq::<Seq<char>>::empty()) == f0);
    assert(field_step(f0, seq!['{']) == f0);
    assert(seq![seq!['{']].last() == seq!['{']);
    assert(fields_of(seq![seq!['{']]) == f0);
    assert(fields_of(seq![seq!['{'], id_line(t)]) == f1);
    assert(fields_of(seq![seq!['{'], id_line(t), description_line(t)]) == f2);
    assert(fields_of(seq![seq!['{'], id_line(t), description_line(t), status_line(t)]) == f3);
    assert(fields_of(lines) == f3);
}


// ---------------------------------------------------------------------------
// Whole lists
proof fn lemma_no_braces_join(a: Seq<char>, b: Seq<char>)
    requires
        has_no_braces(a),
        has_no_braces(b),
    ensures
        has_no_braces(a + b),
{
    assert forall|i: int| 0 <= i < (a + b).len() implies (a + b)[i] != '{' && (a + b)[i] != '}' by {
        if i >= a.len() {
            assert((a + b)[i] == b[i - a.len()]);
        }
    }
}

/// The text of a written task, as `encode_object` spells it.
proof fn lemma_encode_object(t: TaskView)
    ensures
        encode_object(t) == seq![' ', ' '] + object_text(t),
{
    reveal_strlit("  {\n    \"id\": ");
    reveal_strlit(",\n    \"description\": \"");
    reveal_strlit("\",\n    \"status\": \"");
    reveal_strlit("\"\n  }");
    assert(encode_object(t) =~= seq![' ', ' '] + object_text(t));
}

/// The text of a written task before its description.
spec fn before_description(t: TaskView) -> Seq<char> {
    seq!['\n'] + id_line(t) + seq!['\n'] + indent() + description_head()
}

/// The text of a written task after its description, up to its closing brace.
spec fn after_description(t: TaskView) -> Seq<char> {
    seq!['"', ','] + seq!['\n'] + status_line(t) + seq!['\n'] + seq![' ', ' ']
}

proof fn lemma_entry_pieces(t: TaskView)
    ensures
        has_no_braces(before_description(t)),
        has_no_braces(after_description(t)),
        object_text(t) == seq!['{'] + before_description(t) + escape(t.description)
            + after_description(t) + seq!['}'],
{
    let ws2 = seq![' ', ' '];
    lemma_decimal(t.id as nat);
    lemma_status_words();
    assert(has_no_braces(decimal(t.id as nat)));
    assert(has_no_braces(status_word(t.status)));
    lemma_no_braces_join(seq!['\n'] + indent() + id_head(), decimal(t.id as nat));
    lemma_no_braces_join(
        seq!['\n'] + indent() + id_head() + decimal(t.id as nat),
        seq![','] + seq!['\n'] + indent() + description_head(),
    );
    assert(before_description(t) =~= seq!['\n'] + indent() + id_head() + decimal(t.id as nat) + (
    seq![','] + seq!['\n'] + indent() + description_head()));
    lemma_no_braces_join(seq!['"', ','] + seq!['\n'] + indent() + status_head(), status_word(t.status));
    lemma_no_braces_join(
        seq!['"', ','] + seq!['\n'] + indent() + status_head() + status_word(t.status),
        seq!['"'] + seq!['\n'] + ws2,
    );
    assert(after_description(t) =~= seq!['"', ','] + seq!['\n'] + indent() + status_head()
        + status_word(t.status) + (seq!['"'] + seq!['\n'] + ws2));
    assert(object_text(t) =~= seq!['{'] + before_description(t) + escape(t.description)
        + after_description(t) + seq!['}']);
}

/// Scanning one written entry from between objects adds its task.
proof fn lemma_scan_entry(st: ScanState, t: TaskView, sep: Seq<char>)
    requires
        st.depth == 0,
        st.buf == Seq::<char>::empty(),
        round_trip_safe(t.description),
        has_no_braces(sep),
    ensures
        scan(st, encode_object(t) + sep) == (ScanState {
            depth: 0,
            buf: Seq::empty(),
            found: st.found.push(t),
        }),
{
    let d = t.description;
    let e = escape(d);
    let ws2 = seq![' ', ' '];
    let p1 = before_description(t);
    let p2 = after_description(t);
    lemma_encode_object(t);
    lemma_entry_pieces(t);
    assert(encode_object(t) + sep =~= ws2 + (seq!['{'] + (p1 + (e + (p2 + (seq!['}'] + sep))))));
    // skip the indent, open the object
    lemma_scan_append(st, ws2, seq!['{'] + (p1 + (e + (p2 + (seq!['}'] + sep)))));
    lemma_scan_skip(st, ws2);
    lemma_scan_append(st, seq!['{'], p1 + (e + (p2 + (seq!['}'] + sep))));
    let s1 = ScanState { depth: 1, buf: seq!['{'], found: st.found };
    assert(seq!['{'].drop_first() =~= Seq::<char>::empty());
    assert(scan(st, seq!['{']) == scan(scan_step(st, '{'), Seq::<char>::empty()));
    assert(st.buf.push('{') =~= seq!['{']);
    assert(scan(st, seq!['{']) == s1);
    // collect the object
    lemma_scan_append(s1, p1, e + (p2 + (seq!['}'] + sep)));
    lemma_scan_plain(s1, p1);
    let s2 = ScanState { buf: seq!['{'] + p1, ..s1 };
    lemma_scan_append(s2, e, p2 + (seq!['}'] + sep));
    assert forall|k: int| 0 <= k <= d.len() implies s2.depth + brace_depth(
        #[trigger] d.subrange(0, k),
    ) >= 1 by {}
    lemma_scan_escape(s2, d);
    let s3 = ScanState { buf: seq!['{'] + p1 + e, ..s1 };
    lemma_scan_append(s3, p2, seq!['}'] + sep);
    lemma_scan_plain(s3, p2);
    let s4 = ScanState { buf: seq!['{'] + p1 + e + p2, ..s1 };
    // close it
    lemma_scan_append(s4, seq!['}'], sep);
    assert(seq!['}'].drop_first() =~= Seq::<char>::empty());
    assert(s4.buf.push('}') =~= object_text(t));
    lemma_object(t);
    let s5 = ScanState { depth: 0, buf: Seq::empty(), found: st.found.push(t) };
    assert(scan(s4, seq!['}']) == scan(scan_step(s4, '}'), Seq::<char>::empty()));
    assert(scan(s4, seq!['}']) == s5);
    lemma_scan_skip(s5, sep);
}

proof fn lemma_scan_entries(ts: Seq<TaskView>, k: int)
    requires
        0 <= k <= ts.len(),
        forall|i: int| 0 <= i < ts.len() ==> round_trip_safe(#[trigger] ts[i].description),
    ensures
        scan(scan_start(), encode_entries(ts, k)) == (ScanState {
            depth: 0,
            buf: Seq::empty(),
            found: ts.subrange(0, k),
        }),
    decreases k,
{
    if k == 0 {
        assert(ts.subrange(0, 0) =~= Seq::<TaskView>::empty());
    } else {
        lemma_scan_entries(ts, k - 1);
        let st = ScanState { depth: 0, buf: Seq::empty(), found: ts.subrange(0, k - 1) };
        lemma_scan_append(scan_start(), encode_entries(ts, k - 1), encode_entry(ts, k - 1));
        reveal_strlit(",\n");
        reveal_strlit("\n");
        let sep = if k < ts.len() {
            ",\n"@
        } else {
            "\n"@
        };
        assert(has_no_braces(sep));
        assert(encode_entry(ts, k - 1) == encode_object(ts[k - 1]) + sep);
        lemma_scan_entry(st, ts[k - 1], sep);
        assert(ts.subrange(0, k - 1).push(ts[k - 1]) =~= ts.subrange(0, k));
    }
}

/// A list written out is read back unchanged, in the same order and with
/// repeated ids kept, when each description is one that survives the line
/// format: no double quote, balanced braces, and no backslash directly
/// before `n`, `r` or `t`.
pub proof fn lemma_round_trip(ts: Seq<TaskView>)
    requires
        forall|i: int| 0 <= i < ts.len() ==> round_trip_safe(#[trigger] ts[i].description),
    ensures
        decode(encode(ts)) == ts,
{
    let body = encode_entries(ts, ts.len() as int);
    reveal_strlit("[\n");
    reveal_strlit("]\n");
    let core = seq!['['] + seq!['\n'] + body + seq![']'];
    assert(encode(ts) =~= core + seq!['\n']);
    // trimming removes the final newline only
    assert(trim_start(encode(ts)) == encode(ts));
    assert((core + seq!['\n']).drop_last() =~= core);
    assert(trim_end(core) == core);
    assert(trim(encode(ts)) == core);
    assert(core.subrange(1, core.len() - 1) =~= seq!['\n'] + body);
    lemma_scan_append(scan_start(), seq!['\n'], body);
    lemma_scan_skip(scan_start(), seq!['\n']);
    lemma_scan_entries(ts, ts.len() as int);
    assert(ts.subrange(0, ts.len() as int) =~= ts);
}

} // verus!
