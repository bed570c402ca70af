//! Page selections typed by the user ("1-5, 8, 12") and the compact labels
//! ("1-5_8_12") that name a selection in a file name.
use vstd::prelude::*;
use crate::text::{
    all_digits, chars_of, dec, dec_value, digit_char, digit_value, find_char_from, first_pos, is_digit,
    lemma_first_pos_bounds, lemma_first_pos_is, occurs_at, parse_bounded, parse_dec, push_dec, replace_all,
    slice_chars, split_on, string_of,
};

verus! {

// ---------------------------------------------------------------------------
// Parsing a selection
// ---------------------------------------------------------------------------

/// A full-width comma, a full-width or ASCII semicolon separate entries like
/// a comma; an em dash joins a range like a hyphen.
pub open spec fn normalize_separator(c: char) -> char {
    if c == '\u{ff0c}' || c == '\u{ff1b}' || c == ';' {
        ','
    } else if c == '\u{2014}' {
        '-'
    } else {
        c
    }
}

/// The characters a selection keeps once normalized: digits, commas, hyphens.
pub open spec fn kept_in_selection(c: char) -> bool {
    is_digit(c) || c == ',' || c == '-'
}

/// The selection text with separators normalized and every other character dropped.
pub open spec fn cleaned_selection(s: Seq<char>) -> Seq<char>
    decreases s.len(),
{
    if s.len() == 0 {
        s
    } else {
        let prefix = cleaned_selection(s.drop_last());
        let c = normalize_separator(s.last());
        if kept_in_selection(c) {
            prefix.push(c)
        } else {
            prefix
        }
    }
}

/// The largest page number a selection entry can name.
pub open spec fn max_entry() -> nat {
    65535
}

/// One comma-separated entry of a selection names the 1-based page `page`
/// of a document with `max_pages` pages. An entry holding a hyphen is a range
/// from its first to its second hyphen-separated number, in either order,
/// cut to `1..=max_pages`; any other entry is a single page number in
/// `1..=max_pages`. Numbers above 65535 or empty numbers make the entry name nothing.
pub open spec fn entry_names_page(entry: Seq<char>, max_pages: nat, page: nat) -> bool {
    if entry.len() == 0 {
        false
    } else if first_pos(entry, '-') < entry.len() {
        let bounds = split_on(entry, '-');
        match (parse_bounded(bounds[0], max_entry()), parse_bounded(bounds[1], max_entry())) {
            (Some(a), Some(b)) => {
                let lo = if a < b { a } else { b };
                let hi = if a < b { b } else { a };
                let start = if lo < 1 { 1 } else { lo };
                let end = if hi < max_pages { hi } else { max_pages };
                start <= page <= end
            },
            _ => false,
        }
    } else {
        match parse_bounded(entry, max_entry()) {
            Some(n) => 1 <= n <= max_pages && page == n,
            None => false,
        }
    }
}

/// The 0-based page `index` is selected by the selection text `input`.
pub open spec fn page_selected(input: Seq<char>, max_pages: nat, index: nat) -> bool {
    let entries = split_on(cleaned_selection(input), ',');
    exists|k: int| 0 <= k < entries.len() && entry_names_page(#[trigger] entries[k], max_pages, index + 1)
}

proof fn lemma_cleaned_concat(s: Seq<char>, t: Seq<char>)
    ensures
        cleaned_selection(s + t) == cleaned_selection(s) + cleaned_selection(t),
    decreases t.len(),
{
    if t.len() == 0 {
        assert(s + t =~= s);
        assert(cleaned_selection(s) + cleaned_selection(t) =~= cleaned_selection(s));
    } else {
        lemma_cleaned_concat(s, t.drop_last());
        assert((s + t).drop_last() =~= s + t.drop_last());
        assert((s + t).last() == t.last());
        let c = normalize_separator(t.last());
        if kept_in_selection(c) {
            assert(cleaned_selection(s) + cleaned_selection(t.drop_last()).push(c) =~= (cleaned_selection(s)
                + cleaned_selection(t.drop_last())).push(c));
        }
    }
}

proof fn lemma_split_concat(x: Seq<char>, y: Seq<char>, sep: char)
    ensures
        split_on(x + seq![sep] + y, sep) == split_on(x, sep) + split_on(y, sep),
    decreases x.len(),
{
    let s = x + seq![sep] + y;
    lemma_first_pos_bounds(x, sep);
    let k = first_pos(x, sep);
    assert forall|j: int| 0 <= j < k implies s[j] != sep by {
        assert(s[j] == x[j]);
    }
    if k < x.len() {
        assert(s[k] == x[k]);
        lemma_first_pos_is(s, sep, k);
        let x2 = x.skip(k + 1);
        lemma_split_concat(x2, y, sep);
        assert(s.take(k) =~= x.take(k));
        assert(s.skip(k + 1) =~= x2 + seq![sep] + y);
        assert(seq![x.take(k)] + (split_on(x2, sep) + split_on(y, sep)) =~= (seq![x.take(k)] + split_on(x2, sep))
            + split_on(y, sep));
    } else {
        assert(s[x.len() as int] == sep);
        lemma_first_pos_is(s, sep, x.len() as int);
        assert(s.take(x.len() as int) =~= x);
        assert(s.skip(x.len() as int + 1) =~= y);
        assert(x.take(x.len() as int) =~= x);
    }
}

/// A selection made of two texts joined by a comma names exactly the pages
/// that one or the other names; so the order of the parts does not matter.
pub proof fn lemma_selection_union(a: Seq<char>, b: Seq<char>, max_pages: nat, index: nat)
    ensures
        page_selected(a + ","@ + b, max_pages, index) <==> (page_selected(a, max_pages, index) || page_selected(
            b,
            max_pages,
            index,
        )),
{
    reveal_strlit(",");
    let comma = ","@;
    assert(comma =~= seq![',']);
    lemma_cleaned_concat(a, comma);
    lemma_cleaned_concat(a + comma, b);
    assert(cleaned_selection(comma.drop_last()) =~= Seq::<char>::empty());
    assert(cleaned_selection(comma) =~= seq![',']);
    let ca = cleaned_selection(a);
    let cb = cleaned_selection(b);
    assert(cleaned_selection(a + comma + b) == ca + seq![','] + cb);
    lemma_split_concat(ca, cb, ',');
    let ea = split_on(ca, ',');
    let eb = split_on(cb, ',');
    let e = ea + eb;
    let p = index + 1;
    if page_selected(a + comma + b, max_pages, index) {
        let k = choose|k: int| 0 <= k < e.len() && entry_names_page(#[trigger] e[k], max_pages, p);
        if k < ea.len() {
            assert(e[k] == ea[k]);
            assert(entry_names_page(ea[k], max_pages, p));
        } else {
            assert(e[k] == eb[k - ea.len()]);
            assert(entry_names_page(eb[k - ea.len()], max_pages, p));
        }
    }
    if page_selected(a, max_pages, index) {
        let k = choose|k: int| 0 <= k < ea.len() && entry_names_page(#[trigger] ea[k], max_pages, p);
        assert(e[k] == ea[k]);
        assert(entry_names_page(e[k], max_pages, p));
    }
    if page_selected(b, max_pages, index) {
        let k = choose|k: int| 0 <= k < eb.len() && entry_names_page(#[trigger] eb[k], max_pages, p);
        assert(e[ea.len() + k] == eb[k]);
        assert(entry_names_page(e[ea.len() + k], max_pages, p));
    }
}

/// Raising the page count only adds pages: with `m1 <= m2`, a selection
/// names a page of an `m1`-page document exactly when the page lies in it
/// and the selection names it in an `m2`-page document.
pub proof fn lemma_selection_grows(input: Seq<char>, m1: nat, m2: nat, index: nat)
    requires
        m1 <= m2,
    ensures
        page_selected(input, m1, index) <==> (index < m1 && page_selected(input, m2, index)),
{
    let e = split_on(cleaned_selection(input), ',');
    let p = index + 1;
    if page_selected(input, m1, index) {
        let k = choose|k: int| 0 <= k < e.len() && entry_names_page(#[trigger] e[k], m1, p);
        assert(entry_names_page(e[k], m2, p));
    }
    if index < m1 && page_selected(input, m2, index) {
        let k = choose|k: int| 0 <= k < e.len() && entry_names_page(#[trigger] e[k], m2, p);
        assert(entry_names_page(e[k], m1, p));
    }
}

/// The selection text with separators normalized and other characters dropped.
fn clean_selection(input: &str) -> (r: Vec<char>)
    ensures
        r@ == cleaned_selection(input@),
{
    let s = chars_of(input);
    let mut out: Vec<char> = Vec::new();
    let mut i: usize = 0;
    assert(s@.take(0) =~= Seq::<char>::empty());
    while i < s.len()
        invariant
            i <= s.len(),
            s@ == input@,
            out@ == cleaned_selection(s@.take(i as int)),
        decreases s.len() - i,
    {
        let c0 = s[i];
        let c = if c0 == '\u{ff0c}' || c0 == '\u{ff1b}' || c0 == ';' {
            ','
        } else if c0 == '\u{2014}' {
            '-'
        } else {
            c0
        };
        assert(s@.take(i + 1).drop_last() =~= s@.take(i as int));
        if ('0' <= c && c <= '9') || c == ',' || c == '-' {
            out.push(c);
        }
        i += 1;
    }
    assert(s@.take(i as int) =~= s@);
    out
}

/// The first piece of `split_on(s, sep)` ends at the first `sep`.
proof fn lemma_split_first(s: Seq<char>, sep: char)
    ensures
        split_on(s, sep).len() >= 1,
        split_on(s, sep)[0] == s.take(first_pos(s, sep)),
{
    lemma_first_pos_bounds(s, sep);
    if first_pos(s, sep) >= s.len() {
        assert(s.take(first_pos(s, sep)) =~= s);
    }
}

/// The pieces after the first continue with the text after the first `sep`.
proof fn lemma_split_rest(s: Seq<char>, sep: char)
    requires
        first_pos(s, sep) < s.len(),
    ensures
        split_on(s, sep) == seq![s.take(first_pos(s, sep))] + split_on(
            s.skip(first_pos(s, sep) + 1),
            sep,
        ),
{
}

/// Marks `marks[p - 1]` for every page `p` in `start..=end`.
fn mark_pages(marks: &mut Vec<bool>, start: u32, end: u32)
    requires
        1 <= start <= end,
        end <= old(marks).len() <= 65535,
    ensures
        final(marks).len() == old(marks).len(),
        forall|p: int|
            0 <= p < final(marks).len() ==> #[trigger] final(marks)@[p] == (old(marks)@[p] || (
            start <= p + 1 <= end)),
{
    let mut i = start;
    while i <= end
        invariant
            1 <= start <= i,
            end <= marks.len() == old(marks).len(),
            marks.len() <= 65535,
            i <= end + 1,
            forall|p: int|
                0 <= p < marks.len() ==> #[trigger] marks@[p] == (old(marks)@[p] || (start <= p + 1
                    < i)),
        decreases end + 1 - i,
    {
        marks.set((i - 1) as usize, true);
        i += 1;
    }
}

/// Marks the pages that one entry of a selection names.
fn mark_entry(marks: &mut Vec<bool>, cleaned: &Vec<char>, a: usize, b: usize)
    requires
        a <= b <= cleaned.len(),
        old(marks).len() <= max_entry(),
    ensures
        final(marks).len() == old(marks).len(),
        forall|p: int|
            0 <= p < final(marks).len() ==> #[trigger] final(marks)@[p] == (old(marks)@[p]
                || entry_names_page(cleaned@.subrange(a as int, b as int), old(marks).len() as nat, (p + 1) as nat)),
{
    let ghost entry = cleaned@.subrange(a as int, b as int);
    let max_pages = marks.len();
    if a == b {
        return;
    }
    let part = slice_chars(cleaned, a, b);
    let m = find_char_from(&part, '-', 0);
    assert(part@.skip(0) =~= part@);
    proof {
        lemma_first_pos_bounds(entry, '-');
        lemma_split_first(entry, '-');
    }
    if m < part.len() {
        let m2 = find_char_from(&part, '-', m + 1);
        let first = slice_chars(&part, 0, m);
        let second = slice_chars(&part, m + 1, m2);
        proof {
            lemma_split_rest(entry, '-');
            let rest = entry.skip(m + 1);
            assert(rest == part@.skip(m + 1));
            lemma_split_first(rest, '-');
            assert(split_on(entry, '-')[1] == split_on(rest, '-')[0]);
            assert(second@ =~= rest.take(first_pos(rest, '-')));
            assert(first@ =~= entry.take(m as int));
        }
        let pa = parse_dec(&first, 65535);
        let pb = parse_dec(&second, 65535);
        match (pa, pb) {
            (Some(x), Some(y)) => {
                let lo = if x < y { x } else { y };
                let hi = if x < y { y } else { x };
                let start: u64 = if lo < 1 { 1 } else { lo };
                let end: u64 = if hi < max_pages as u64 { hi } else { max_pages as u64 };
                if start <= end {
                    mark_pages(marks, start as u32, end as u32);
                }
            },
            _ => {},
        }
    } else {
        match parse_dec(&part, 65535) {
            Some(n) => {
                if n >= 1 && n <= max_pages as u64 {
                    marks.set((n - 1) as usize, true);
                }
            },
            None => {},
        }
    }
}

/// The 0-based indices of the pages that a selection such as `"1-5, 8, 12"`
/// names in a document of `max_pages` pages, in increasing order and each
/// once. Full-width commas and semicolons separate entries like commas, an
/// em dash joins a range like a hyphen, and all other characters except
/// digits are ignored; entries that name nothing are skipped.
pub fn parse_page_range(input: &str, max_pages: u16) -> (pages: Vec<u16>)
    ensures
        forall|i: int, j: int| 0 <= i < j < pages@.len() ==> pages@[i] < pages@[j],
        forall|i: int| 0 <= i < pages@.len() ==> #[trigger] pages@[i] < max_pages,
        forall|p: u16| pages@.contains(p) <==> page_selected(input@, max_pages as nat, p as nat),
{
    let cleaned = clean_selection(input);
    let ghost entries = split_on(cleaned@, ',');
    let mut marks: Vec<bool> = Vec::new();
    let mut q: usize = 0;
    while q < max_pages as usize
        invariant
            q <= max_pages,
            marks.len() == q,
            forall|p: int| 0 <= p < q ==> !#[trigger] marks@[p],
        decreases max_pages - q,
    {
        marks.push(false);
        q += 1;
    }
    let n = cleaned.len();
    let mut pos: usize = 0;
    let ghost mut done: int = 0;
    assert(cleaned@.skip(0) =~= cleaned@);
    loop
        invariant
            pos <= n == cleaned.len(),
            marks.len() == max_pages,
            cleaned@ == cleaned_selection(input@),
            0 <= done <= entries.len(),
            entries == split_on(cleaned@, ','),
            entries.subrange(done, entries.len() as int) == split_on(cleaned@.skip(pos as int), ','),
            forall|p: int|
                0 <= p < max_pages ==> (#[trigger] marks@[p] <==> exists|k: int|
                    0 <= k < done && entry_names_page(#[trigger] entries[k], max_pages as nat, (p + 1) as nat)),
        decreases n - pos,
    {
        let ghost rest = cleaned@.skip(pos as int);
        let k = find_char_from(&cleaned, ',', pos);
        let ghost old_marks = marks@;
        proof {
            lemma_split_first(rest, ',');
            assert(rest.take(k - pos) =~= cleaned@.subrange(pos as int, k as int));
            assert(entries[done] == cleaned@.subrange(pos as int, k as int)) by {
                assert(entries.subrange(done, entries.len() as int)[0] == entries[done]);
            }
        }
        mark_entry(&mut marks, &cleaned, pos, k);
        proof {
            assert forall|p: int| 0 <= p < max_pages implies (#[trigger] marks@[p] <==> exists|j: int|
                0 <= j < done + 1 && entry_names_page(#[trigger] entries[j], max_pages as nat, (p + 1) as nat)) by {
                if marks@[p] && !old_marks[p] {
                    assert(entry_names_page(entries[done], max_pages as nat, (p + 1) as nat));
                }
            }
        }
        if k == n {
            proof {
                lemma_first_pos_bounds(rest, ',');
                assert(split_on(rest, ',') == seq![rest]);
                assert(done + 1 == entries.len()) by {
                    assert(entries.subrange(done, entries.len() as int).len() == 1);
                }
                done = done + 1;
            }
            return collect_marked(&marks, Ghost(input@), Ghost(entries));
        }
        proof {
            lemma_split_rest(rest, ',');
            assert(rest.skip(k - pos + 1) =~= cleaned@.skip(k + 1));
            assert(entries.subrange(done + 1, entries.len() as int) =~= entries.subrange(
                done,
                entries.len() as int,
            ).drop_first());
            done = done + 1;
        }
        pos = k + 1;
    }
}

/// The indices `p` with `marks[p]`, in increasing order.
fn collect_marked(marks: &Vec<bool>, Ghost(input): Ghost<Seq<char>>, Ghost(entries): Ghost<Seq<Seq<char>>>) -> (pages: Vec<u16>)
    requires
        marks.len() <= 65535,
        entries == split_on(cleaned_selection(input), ','),
        forall|p: int|
            0 <= p < marks.len() ==> (#[trigger] marks@[p] <==> exists|k: int|
                0 <= k < entries.len() && entry_names_page(#[trigger] entries[k], marks.len() as nat, (p + 1) as nat)),
    ensures
        forall|i: int, j: int| 0 <= i < j < pages@.len() ==> pages@[i] < pages@[j],
        forall|i: int| 0 <= i < pages@.len() ==> #[trigger] pages@[i] < marks.len(),
        forall|p: u16| pages@.contains(p) <==> page_selected(input, marks.len() as nat, p as nat),
{
    let mut out: Vec<u16> = Vec::new();
    let mut p: usize = 0;
    while p < marks.len()
        invariant
            p <= marks.len() <= 65535,
            forall|i: int, j: int| 0 <= i < j < out@.len() ==> out@[i] < out@[j],
            forall|i: int| 0 <= i < out@.len() ==> out@[i] < p,
            forall|q: u16| q < p ==> (out@.contains(q) <==> marks@[q as int]),
            forall|q: u16| q >= p ==> !out@.contains(q),
        decreases marks.len() - p,
    {
        let ghost old_out = out@;
        if marks[p] {
            out.push(p as u16);
            assert(out@[out@.len() - 1] == p as u16);
        }
        proof {
            assert forall|q: u16| q < p + 1 implies (out@.contains(q) <==> marks@[q as int]) by {
                if marks@[p as int] {
                    assert(out@ == old_out.push(p as u16));
                    if old_out.contains(q) {
                        let i = choose|i: int| 0 <= i < old_out.len() && old_out[i] == q;
                        assert(out@[i] == q);
                    }
                    if out@.contains(q) && q as int != p as int {
                        let i = choose|i: int| 0 <= i < out@.len() && out@[i] == q;
                        assert(old_out[i] == q);
                    }
                } else {
                    assert(out@ == old_out);
                }
                if q as int == p as int {
                    if out@.contains(q) && !marks@[q as int] {
                        let i = choose|i: int| 0 <= i < out@.len() && out@[i] == q;
                        assert(false);
                    }
                }
            }
            assert forall|q: u16| q >= p + 1 implies !out@.contains(q) by {
                if out@.contains(q) {
                    let i = choose|i: int| 0 <= i < out@.len() && out@[i] == q;
                }
            }
        }
        p += 1;
    }
    proof {
        assert forall|q: u16| out@.contains(q) <==> page_selected(input, marks.len() as nat, q as nat) by {
            if q < marks.len() {
                assert(out@.contains(q) <==> marks@[q as int]);
            } else {
                if page_selected(input, marks.len() as nat, q as nat) {
                    let k = choose|k: int| 0 <= k < entries.len() && entry_names_page(#[trigger] entries[k], marks.len() as nat, (q + 1) as nat);
                    assert(entry_names_page(entries[k], marks.len() as nat, (q + 1) as nat));
                }
            }
        }
    }
    out
}

// ---------------------------------------------------------------------------
// Labelling a selection
// ---------------------------------------------------------------------------

/// The runs of `s`, as (first value, last value) pairs: a value one more
/// than the last value of the run before it extends that run, any other
/// value starts a new run.
pub open spec fn runs(s: Seq<u16>) -> Seq<(int, int)>
    decreases s.len(),
{
    if s.len() == 0 {
        Seq::empty()
    } else if s.len() == 1 {
        seq![(s[0] as int, s[0] as int)]
    } else {
        let r = runs(s.drop_last());
        let last = r.last();
        if s.last() == last.1 + 1 {
            r.update(r.len() - 1, (last.0, s.last() as int))
        } else {
            r.push((s.last() as int, s.last() as int))
        }
    }
}

/// A run of 0-based indices as 1-based page numbers: `"4"` or `"2-7"`.
pub open spec fn run_label(run: (int, int)) -> Seq<char> {
    if run.0 == run.1 {
        dec((run.0 + 1) as nat)
    } else {
        dec((run.0 + 1) as nat) + seq!['-'] + dec((run.1 + 1) as nat)
    }
}

/// The pieces joined with `'_'` between each two.
pub open spec fn join_underscore(pieces: Seq<Seq<char>>) -> Seq<char>
    decreases pieces.len(),
{
    if pieces.len() == 0 {
        Seq::empty()
    } else if pieces.len() == 1 {
        pieces[0]
    } else {
        join_underscore(pieces.drop_last()) + seq!['_'] + pieces.last()
    }
}

/// The label of a list of 0-based page indices: its runs, each written as
/// 1-based page numbers, joined by `'_'`.
pub open spec fn range_label(s: Seq<u16>) -> Seq<char> {
    join_underscore(run_labels(runs(s)))
}

/// The label of each run.
pub open spec fn run_labels(rs: Seq<(int, int)>) -> Seq<Seq<char>> {
    rs.map_values(|r: (int, int)| run_label(r))
}

/// The pieces joined with `','` between each two.
pub open spec fn join_comma(pieces: Seq<Seq<char>>) -> Seq<char>
    decreases pieces.len(),
{
    if pieces.len() == 0 {
        Seq::empty()
    } else if pieces.len() == 1 {
        pieces[0]
    } else {
        join_comma(pieces.drop_last()) + seq![','] + pieces.last()
    }
}

/// Every character of `t` is a digit or a hyphen.
pub open spec fn label_chars(t: Seq<char>) -> bool {
    forall|i: int| 0 <= i < t.len() ==> is_digit(#[trigger] t[i]) || t[i] == '-'
}

proof fn lemma_dec(n: nat)
    ensures
        all_digits(dec(n)),
        dec_value(dec(n)) == n,
    decreases n,
{
    if n >= 10 {
        lemma_dec(n / 10);
        let d = dec(n / 10);
        let e = dec(n);
        assert(e.drop_last() =~= d);
        assert(is_digit(digit_char(n % 10)) && digit_value(digit_char(n % 10)) == n % 10);
        assert forall|i: int| 0 <= i < e.len() implies is_digit(#[trigger] e[i]) by {
            if i < d.len() {
                assert(e[i] == d[i]);
            }
        }
        assert(e.last() == digit_char(n % 10));
        assert(dec_value(e) == dec_value(d) * 10 + digit_value(e.last()));
        assert((n / 10) * 10 + n % 10 == n);
    } else {
        assert(is_digit(digit_char(n)) && digit_value(digit_char(n)) == n);
        let e = dec(n);
        assert(e.drop_last() =~= Seq::<char>::empty());
        assert(dec_value(e.drop_last()) == 0);
        assert(e.last() == digit_char(n));
        assert(dec_value(e) == dec_value(e.drop_last()) * 10 + digit_value(e.last()));
    }
}

proof fn lemma_no_char_split(t: Seq<char>, c: char)
    requires
        forall|i: int| 0 <= i < t.len() ==> #[trigger] t[i] != c,
    ensures
        first_pos(t, c) == t.len(),
        split_on(t, c) == seq![t],
{
    lemma_first_pos_is(t, c, t.len() as int);
    assert(t.take(t.len() as int) =~= t);
}

/// A run label names exactly the pages of its run.
proof fn lemma_run_label_names(r: (int, int), m: nat, p: nat)
    requires
        0 <= r.0 <= r.1,
        r.1 < m <= 65535,
    ensures
        entry_names_page(run_label(r), m, p) <==> r.0 + 1 <= p <= r.1 + 1,
{
    let a = (r.0 + 1) as nat;
    let b = (r.1 + 1) as nat;
    lemma_dec(a);
    lemma_dec(b);
    let da = dec(a);
    let db = dec(b);
    assert forall|i: int| 0 <= i < da.len() implies #[trigger] da[i] != '-' by {
        assert(is_digit(da[i]));
    }
    assert forall|i: int| 0 <= i < db.len() implies #[trigger] db[i] != '-' by {
        assert(is_digit(db[i]));
    }
    lemma_no_char_split(da, '-');
    lemma_no_char_split(db, '-');
    if r.0 == r.1 {
        assert(parse_bounded(da, max_entry()) == Some(a));
    } else {
        let e = da + seq!['-'] + db;
        assert(run_label(r) == e);
        lemma_split_concat(da, db, '-');
        assert forall|j: int| 0 <= j < da.len() implies #[trigger] e[j] != '-' by {
            assert(e[j] == da[j]);
        }
        assert(e[da.len() as int] == '-');
        lemma_first_pos_is(e, '-', da.len() as int);
        let bounds = split_on(e, '-');
        assert(bounds =~= seq![da, db]);
        assert(parse_bounded(bounds[0], max_entry()) == Some(a));
        assert(parse_bounded(bounds[1], max_entry()) == Some(b));
    }
}

proof fn lemma_replace_concat(x: Seq<char>, y: Seq<char>, from: Seq<char>, to: Seq<char>)
    requires
        from.len() == 1,
    ensures
        replace_all(x + y, from, to) == replace_all(x, from, to) + replace_all(y, from, to),
    decreases x.len(),
{
    if x.len() == 0 {
        assert(x + y =~= y);
        assert(replace_all(x, from, to) + replace_all(y, from, to) =~= replace_all(y, from, to));
    } else {
        let s = x + y;
        assert(s[0] == x[0]);
        assert(s.subrange(0, 1) =~= seq![s[0]]);
        assert(x.subrange(0, 1) =~= seq![x[0]]);
        assert(occurs_at(s, from, 0) == occurs_at(x, from, 0));
        assert(s.skip(1) =~= x.skip(1) + y);
        assert(s.drop_first() =~= x.drop_first() + y);
        lemma_replace_concat(x.skip(1), y, from, to);
        assert(x.skip(1) =~= x.drop_first());
        if occurs_at(x, from, 0) {
            assert(to + (replace_all(x.skip(1), from, to) + replace_all(y, from, to)) =~= (to + replace_all(
                x.skip(1),
                from,
                to,
            )) + replace_all(y, from, to));
        } else {
            assert(seq![x[0]] + (replace_all(x.drop_first(), from, to) + replace_all(y, from, to)) =~= (seq![x[0]]
                + replace_all(x.drop_first(), from, to)) + replace_all(y, from, to));
        }
    }
}

proof fn lemma_replace_absent(t: Seq<char>, from: Seq<char>, to: Seq<char>)
    requires
        from.len() == 1,
        forall|i: int| 0 <= i < t.len() ==> #[trigger] t[i] != from[0],
    ensures
        replace_all(t, from, to) == t,
    decreases t.len(),
{
    if t.len() > 0 {
        assert(t.subrange(0, 1) =~= seq![t[0]]);
        assert(!occurs_at(t, from, 0));
        assert forall|i: int| 0 <= i < t.drop_first().len() implies #[trigger] t.drop_first()[i] != from[0] by {
            assert(t.drop_first()[i] == t[i + 1]);
        }
        lemma_replace_absent(t.drop_first(), from, to);
        assert(seq![t[0]] + t.drop_first() =~= t);
    }
}

proof fn lemma_cleaned_label(t: Seq<char>)
    requires
        label_chars(t),
    ensures
        cleaned_selection(t) == t,
    decreases t.len(),
{
    if t.len() > 0 {
        assert forall|i: int| 0 <= i < t.drop_last().len() implies is_digit(#[trigger] t.drop_last()[i])
            || t.drop_last()[i] == '-' by {
            assert(t.drop_last()[i] == t[i]);
        }
        lemma_cleaned_label(t.drop_last());
        assert(is_digit(t[t.len() - 1]) || t[t.len() - 1] == '-');
        assert(t.drop_last().push(t.last()) =~= t);
    }
}

/// Read with `'_'` as `','`, the joined run labels are the labels joined by
/// commas, which the selection keeps as they are and splits back into the
/// labels.
proof fn lemma_label_pieces(pieces: Seq<Seq<char>>)
    requires
        pieces.len() > 0,
        forall|k: int| 0 <= k < pieces.len() ==> label_chars(#[trigger] pieces[k]),
    ensures
        replace_all(join_underscore(pieces), "_"@, ","@) == join_comma(pieces),
        cleaned_selection(join_comma(pieces)) == join_comma(pieces),
        split_on(join_comma(pieces), ',') == pieces,
    decreases pieces.len(),
{
    reveal_strlit("_");
    reveal_strlit(",");
    let last = pieces.last();
    assert(label_chars(pieces[pieces.len() - 1]));
    assert forall|i: int| 0 <= i < last.len() implies #[trigger] last[i] != "_"@[0] by {
        assert(is_digit(last[i]) || last[i] == '-');
    }
    assert forall|i: int| 0 <= i < last.len() implies #[trigger] last[i] != ',' by {
        assert(is_digit(last[i]) || last[i] == '-');
    }
    lemma_replace_absent(last, "_"@, ","@);
    lemma_cleaned_label(last);
    lemma_no_char_split(last, ',');
    if pieces.len() > 1 {
        let rest = pieces.drop_last();
        assert forall|k: int| 0 <= k < rest.len() implies label_chars(#[trigger] rest[k]) by {
            assert(rest[k] == pieces[k]);
        }
        lemma_label_pieces(rest);
        let ju = join_underscore(rest);
        let jc = join_comma(rest);
        // replacing
        lemma_replace_concat(ju + seq!['_'], last, "_"@, ","@);
        lemma_replace_concat(ju, seq!['_'], "_"@, ","@);
        assert(seq!['_'].subrange(0, 1) =~= "_"@);
        assert(seq!['_'].skip(1) =~= Seq::<char>::empty());
        assert(occurs_at(seq!['_'], "_"@, 0));
        assert(replace_all(Seq::<char>::empty(), "_"@, ","@) =~= Seq::<char>::empty());
        assert(replace_all(seq!['_'], "_"@, ","@) == ","@ + replace_all(seq!['_'].skip(1), "_"@, ","@));
        assert(","@ =~= seq![',']);
        assert(replace_all(seq!['_'], "_"@, ","@) =~= seq![',']);
        // keeping
        lemma_cleaned_concat(jc + seq![','], last);
        lemma_cleaned_concat(jc, seq![',']);
        assert(seq![','].drop_last() =~= Seq::<char>::empty());
        assert(cleaned_selection(Seq::<char>::empty()) =~= Seq::<char>::empty());
        assert(normalize_separator(',') == ',');
        assert(kept_in_selection(','));
        assert(cleaned_selection(seq![',']) =~= Seq::<char>::empty().push(','));
        assert(cleaned_selection(seq![',']) =~= seq![',']);
        // splitting
        lemma_split_concat(jc, last, ',');
        assert(rest + seq![last] =~= pieces);
    }
}

/// `v` is one of the values of `s`.
spec fn listed(s: Seq<u16>, v: int) -> bool {
    exists|i: int| 0 <= i < s.len() && s[i] == v
}

/// `v` lies within one of the runs `rs`.
spec fn in_some_run(rs: Seq<(int, int)>, v: int) -> bool {
    exists|j: int| 0 <= j < rs.len() && (#[trigger] rs[j]).0 <= v <= rs[j].1
}

/// The runs of an increasing list: each lies within the list's values, the
/// last ends at the last value, and a value is listed exactly when it lies
/// in some run.
proof fn lemma_runs_cover(s: Seq<u16>)
    requires
        s.len() > 0,
        forall|i: int, j: int| 0 <= i < j < s.len() ==> s[i] < s[j],
    ensures
        runs(s).len() > 0,
        runs(s).last().1 == s.last(),
        forall|j: int| 0 <= j < runs(s).len() ==> 0 <= (#[trigger] runs(s)[j]).0 <= runs(s)[j].1 <= s.last(),
        forall|v: int|
            #![trigger listed(s, v)]
            #![trigger in_some_run(runs(s), v)]
            listed(s, v) <==> in_some_run(runs(s), v),
    decreases s.len(),
{
    if s.len() == 1 {
        assert forall|v: int| #[trigger] listed(s, v) <==> in_some_run(runs(s), v) by {
            if listed(s, v) {
                assert(runs(s)[0].0 <= v <= runs(s)[0].1);
            }
        }
    } else {
        let t = s.drop_last();
        assert forall|i: int, j: int| 0 <= i < j < t.len() implies t[i] < t[j] by {
            assert(t[i] == s[i] && t[j] == s[j]);
        }
        lemma_runs_cover(t);
        let r = runs(t);
        let l = s.last() as int;
        assert(t.last() == s[s.len() - 2]);
        assert(s[s.len() - 2] < s[s.len() - 1]);
        let rs = runs(s);
        if s.last() == r.last().1 + 1 {
            assert(rs == r.update(r.len() - 1, (r.last().0, l)));
        } else {
            assert(rs == r.push((l, l)));
        }
        assert forall|j: int| 0 <= j < rs.len() implies 0 <= (#[trigger] rs[j]).0 <= rs[j].1 <= s.last() by {
            if j < r.len() - 1 {
                assert(rs[j] == r[j]);
            } else if j == r.len() - 1 && s.last() != r.last().1 + 1 {
                assert(rs[j] == r[j]);
            }
        }
        assert forall|v: int| #[trigger] listed(s, v) <==> in_some_run(rs, v) by {
            if listed(s, v) {
                let i = choose|i: int| 0 <= i < s.len() && s[i] == v;
                if i == s.len() - 1 {
                    assert(rs[rs.len() - 1].0 <= v <= rs[rs.len() - 1].1);
                } else {
                    assert(t[i] == v);
                    assert(listed(t, v));
                    let j = choose|j: int| 0 <= j < r.len() && (#[trigger] r[j]).0 <= v <= r[j].1;
                    assert(rs[j].0 <= v <= rs[j].1);
                }
            }
            if in_some_run(rs, v) {
                let j = choose|j: int| 0 <= j < rs.len() && (#[trigger] rs[j]).0 <= v <= rs[j].1;
                if v == l {
                    assert(s[s.len() - 1] == v);
                } else if j < r.len() {
                    assert(r[j].0 <= v <= r[j].1);
                    assert(in_some_run(r, v));
                    let i = choose|i: int| 0 <= i < t.len() && t[i] == v;
                    assert(s[i] == v);
                }
            }
        }
    }
}

/// Two increasing lists with the same values are the same list.
proof fn lemma_increasing_unique(a: Seq<u16>, b: Seq<u16>)
    requires
        forall|i: int, j: int| 0 <= i < j < a.len() ==> a[i] < a[j],
        forall|i: int, j: int| 0 <= i < j < b.len() ==> b[i] < b[j],
        forall|v: u16| a.contains(v) <==> b.contains(v),
    ensures
        a == b,
    decreases a.len() + b.len(),
{
    if a.len() > 0 && b.len() > 0 {
        let x = a.last();
        let y = b.last();
        assert(a.contains(x) && b.contains(y));
        assert(b.contains(x) && a.contains(y));
        let i = choose|i: int| 0 <= i < b.len() && b[i] == x;
        let j = choose|j: int| 0 <= j < a.len() && a[j] == y;
        if i < b.len() - 1 {
            assert(b[i] < b[b.len() - 1]);
        }
        if j < a.len() - 1 {
            assert(a[j] < a[a.len() - 1]);
        }
        assert(x == y);
        let a2 = a.drop_last();
        let b2 = b.drop_last();
        assert forall|v: u16| a2.contains(v) <==> b2.contains(v) by {
            if a2.contains(v) {
                let k = choose|k: int| 0 <= k < a2.len() && a2[k] == v;
                assert(a[k] < x);
                assert(b.contains(v));
                let m = choose|m: int| 0 <= m < b.len() && b[m] == v;
                assert(m != b.len() - 1);
                assert(b2[m] == v);
            }
            if b2.contains(v) {
                let k = choose|k: int| 0 <= k < b2.len() && b2[k] == v;
                assert(b[k] < y);
                assert(a.contains(v));
                let m = choose|m: int| 0 <= m < a.len() && a[m] == v;
                assert(m != a.len() - 1);
                assert(a2[m] == v);
            }
        }
        lemma_increasing_unique(a2, b2);
        assert(a =~= a2.push(x));
        assert(b =~= b2.push(y));
    } else if a.len() > 0 {
        assert(a.contains(a[0]));
    } else if b.len() > 0 {
        assert(b.contains(b[0]));
    } else {
        assert(a =~= b);
    }
}

/// The label of increasing page indices, read back as a selection with
/// `'_'` taken for `','`, names exactly those pages.
pub proof fn lemma_label_reads_back(s: Seq<u16>, m: u16, index: nat)
    requires
        forall|i: int, j: int| 0 <= i < j < s.len() ==> s[i] < s[j],
        forall|i: int| 0 <= i < s.len() ==> #[trigger] s[i] < m,
    ensures
        page_selected(replace_all(range_label(s), "_"@, ","@), m as nat, index) <==> exists|i: int|
            0 <= i < s.len() && s[i] == index,
{
    let text = replace_all(range_label(s), "_"@, ","@);
    if s.len() == 0 {
        assert(runs(s) =~= Seq::<(int, int)>::empty());
        assert(run_labels(runs(s)) =~= Seq::<Seq<char>>::empty());
        assert(range_label(s) =~= Seq::<char>::empty());
        assert(text =~= Seq::<char>::empty());
        assert(cleaned_selection(text) =~= Seq::<char>::empty());
        lemma_no_char_split(Seq::<char>::empty(), ',');
    } else {
        lemma_runs_cover(s);
        let rs = runs(s);
        let pieces = run_labels(rs);
        assert(s[s.len() - 1] < m);
        assert forall|k: int| 0 <= k < pieces.len() implies label_chars(#[trigger] pieces[k]) by {
            let r = rs[k];
            lemma_dec((r.0 + 1) as nat);
            lemma_dec((r.1 + 1) as nat);
            let e = pieces[k];
            assert(e == run_label(r));
            assert forall|i: int| 0 <= i < e.len() implies is_digit(#[trigger] e[i]) || e[i] == '-' by {
                let da = dec((r.0 + 1) as nat);
                let db = dec((r.1 + 1) as nat);
                if r.0 == r.1 {
                    assert(is_digit(da[i]));
                } else if i < da.len() {
                    assert(e[i] == da[i]);
                    assert(is_digit(da[i]));
                } else if i > da.len() {
                    assert(e[i] == db[i - da.len() - 1]);
                    assert(is_digit(db[i - da.len() - 1]));
                }
            }
        }
        lemma_label_pieces(pieces);
        assert(text == join_comma(pieces));
        let p = index + 1;
        if page_selected(text, m as nat, index) {
            let k = choose|k: int| 0 <= k < pieces.len() && entry_names_page(#[trigger] pieces[k], m as nat, p);
            lemma_run_label_names(rs[k], m as nat, p);
            assert(rs[k].0 <= index <= rs[k].1);
            assert(in_some_run(rs, index as int));
        }
        if exists|i: int| 0 <= i < s.len() && s[i] == index {
            assert(listed(s, index as int));
            let j = choose|j: int| 0 <= j < rs.len() && (#[trigger] rs[j]).0 <= index <= rs[j].1;
            lemma_run_label_names(rs[j], m as nat, p);
            assert(entry_names_page(pieces[j], m as nat, p));
        }
    }
}

/// Parsing the label of increasing page indices, with `'_'` taken for `','`,
/// gives back those indices: any increasing list of exactly the pages that
/// label selects (what `parse_page_range` returns) is that list.
pub proof fn lemma_label_parses_back(s: Seq<u16>, m: u16, pages: Seq<u16>)
    requires
        forall|i: int, j: int| 0 <= i < j < s.len() ==> s[i] < s[j],
        forall|i: int| 0 <= i < s.len() ==> #[trigger] s[i] < m,
        forall|i: int, j: int| 0 <= i < j < pages.len() ==> pages[i] < pages[j],
        forall|v: u16| pages.contains(v) <==> page_selected(replace_all(range_label(s), "_"@, ","@), m as nat, v as nat),
    ensures
        pages == s,
{
    assert forall|v: u16| pages.contains(v) <==> s.contains(v) by {
        lemma_label_reads_back(s, m, v as nat);
    }
    lemma_increasing_unique(pages, s);
}

/// Two selections joined by a comma name the same pages in either order:
/// any two increasing lists of exactly the pages that `a,b` and `b,a`
/// select (what `parse_page_range` returns for each) are the same list.
pub proof fn lemma_selection_order_free(a: Seq<char>, b: Seq<char>, m: u16, ab: Seq<u16>, ba: Seq<u16>)
    requires
        forall|i: int, j: int| 0 <= i < j < ab.len() ==> ab[i] < ab[j],
        forall|i: int, j: int| 0 <= i < j < ba.len() ==> ba[i] < ba[j],
        forall|v: u16| ab.contains(v) <==> page_selected(a + ","@ + b, m as nat, v as nat),
        forall|v: u16| ba.contains(v) <==> page_selected(b + ","@ + a, m as nat, v as nat),
    ensures
        ab == ba,
{
    assert forall|v: u16| ab.contains(v) <==> ba.contains(v) by {
        lemma_selection_union(a, b, m as nat, v as nat);
        lemma_selection_union(b, a, m as nat, v as nat);
    }
    lemma_increasing_unique(ab, ba);
}

proof fn lemma_runs_nonempty(s: Seq<u16>)
    requires
        s.len() > 0,
    ensures
        runs(s).len() > 0,
    decreases s.len(),
{
    if s.len() > 1 {
        lemma_runs_nonempty(s.drop_last());
    }
}

/// Appends the label of the run `(start, end)` of 0-based indices.
fn push_run_label(out: &mut Vec<char>, start: u16, end: u16)
    ensures
        final(out)@ == old(out)@ + run_label((start as int, end as int)),
{
    push_dec(out, start as u64 + 1);
    if start != end {
        out.push('-');
        push_dec(out, end as u64 + 1);
        assert(final(out)@ =~= old(out)@ + run_label((start as int, end as int)));
    }
}

/// The label that names the pages `indices` (0-based) in a file name:
/// consecutive indices form a run written `"first-last"` (1-based), a lone
/// index is written alone, and the runs are joined by `'_'`, so that
/// `[0, 1, 2, 4]` gives `"1-3_5"`.
pub fn generate_range_string(indices: &[u16]) -> (label: String)
    requires
        forall|i: int| 0 <= i < indices@.len() ==> #[trigger] indices@[i] < 65535,
    ensures
        label@ == range_label(indices@),
{
    if indices.len() == 0 {
        let empty: Vec<char> = Vec::new();
        assert(run_labels(runs(indices@)) =~= Seq::<Seq<char>>::empty());
        return string_of(&empty);
    }
    let mut out: Vec<char> = Vec::new();
    let mut start = indices[0];
    let mut end = indices[0];
    let ghost mut closed: Seq<(int, int)> = Seq::empty();
    let mut any_closed = false;
    let mut i: usize = 1;
    assert(indices@.take(1) =~= seq![indices@[0]]);
    while i < indices.len()
        invariant
            1 <= i <= indices@.len(),
            forall|j: int| 0 <= j < indices@.len() ==> #[trigger] indices@[j] < 65535,
            runs(indices@.take(i as int)) == closed.push((start as int, end as int)),
            out@ == join_underscore(run_labels(closed)),
            any_closed == (closed.len() > 0),
            end == indices@[i - 1],
        decreases indices.len() - i,
    {
        let next = indices[i];
        assert(indices@.take(i + 1).drop_last() =~= indices@.take(i as int));
        assert(indices@.take(i + 1).last() == next);
        proof {
            lemma_runs_nonempty(indices@.take(i as int));
        }
        if next == end + 1 {
            end = next;
            assert(runs(indices@.take(i + 1)) =~= closed.push((start as int, end as int)));
        } else {
            let ghost before = closed;
            if any_closed {
                out.push('_');
            }
            push_run_label(&mut out, start, end);
            any_closed = true;
            proof {
                closed = closed.push((start as int, end as int));
                assert(run_labels(closed).drop_last() =~= run_labels(before));
                if before.len() == 0 {
                    assert(run_labels(before) =~= Seq::<Seq<char>>::empty());
                }
            }
            start = next;
            end = next;
        }
        i += 1;
    }
    let ghost before = closed;
    if any_closed {
        out.push('_');
    }
    push_run_label(&mut out, start, end);
    proof {
        closed = closed.push((start as int, end as int));
        assert(run_labels(closed).drop_last() =~= run_labels(before));
        if before.len() == 0 {
            assert(run_labels(before) =~= Seq::<Seq<char>>::empty());
        }
        assert(indices@.take(i as int) =~= indices@);
    }
    string_of(&out)
}

// ---------------------------------------------------------------------------
// Keeping a selection
// ---------------------------------------------------------------------------

/// Whether `x` occurs in `s`.
fn contains_u16(s: &[u16], x: u16) -> (b: bool)
    ensures
        b == s@.contains(x),
{
    let mut i: usize = 0;
    while i < s.len()
        invariant
            i <= s@.len(),
            forall|j: int| 0 <= j < i ==> s@[j] != x,
        decreases s.len() - i,
    {
        if s[i] == x {
            return true;
        }
        i += 1;
    }
    false
}

/// The pages of a document of `total` pages to delete so that only `keep`
/// remains, from the last to the first, so that deleting each in turn
/// leaves the indices of those still to delete unchanged.
pub fn pages_to_delete(total: u16, keep: &[u16]) -> (r: Vec<u16>)
    ensures
        forall|i: int, j: int| 0 <= i < j < r@.len() ==> r@[i] > r@[j],
        forall|p: u16| r@.contains(p) <==> (p < total && !keep@.contains(p)),
{
    let mut r: Vec<u16> = Vec::new();
    let mut i: u16 = total;
    while i > 0
        invariant
            i <= total,
            forall|a: int, b: int| 0 <= a < b < r@.len() ==> r@[a] > r@[b],
            forall|a: int| 0 <= a < r@.len() ==> r@[a] >= i,
            forall|p: u16| r@.contains(p) <==> (i <= p < total && !keep@.contains(p)),
        decreases i,
    {
        let idx = i - 1;
        let ghost before = r@;
        if !contains_u16(keep, idx) {
            r.push(idx);
        }
        proof {
            assert forall|p: u16| r@.contains(p) <==> (idx <= p < total && !keep@.contains(p)) by {
                if r@.contains(p) {
                    let a = choose|a: int| 0 <= a < r@.len() && r@[a] == p;
                    if a < before.len() {
                        assert(before[a] == p);
                        assert(before.contains(p));
                    }
                }
                if before.contains(p) {
                    let a = choose|a: int| 0 <= a < before.len() && before[a] == p;
                    assert(r@[a] == p);
                }
                if p == idx && !keep@.contains(p) {
                    assert(r@[r@.len() - 1] == p);
                }
            }
        }
        i = idx;
    }
    r
}

/// The pages `a, a + 1, ..., t - 1` that `keep` holds, in increasing order.
pub open spec fn kept_between(keep: Seq<u16>, a: int, t: int) -> Seq<int>
    decreases t - a,
{
    if t <= a {
        Seq::empty()
    } else if keep.contains((t - 1) as u16) {
        kept_between(keep, a, t - 1).push(t - 1)
    } else {
        kept_between(keep, a, t - 1)
    }
}

/// The pages `a, a + 1, ..., t - 1`.
pub open spec fn pages_between(a: int, t: int) -> Seq<int> {
    Seq::new((t - a) as nat, |i: int| a + i)
}

/// The pages left after deleting, one after the other, the page at each
/// position of `dels`.
pub open spec fn after_deletions(pages: Seq<int>, dels: Seq<u16>) -> Seq<int>
    decreases dels.len(),
{
    if dels.len() == 0 {
        pages
    } else {
        after_deletions(pages.remove(dels[0] as int), dels.drop_first())
    }
}

proof fn lemma_kept_split(keep: Seq<u16>, a: int, m: int, t: int)
    requires
        a <= m <= t,
    ensures
        kept_between(keep, a, t) == kept_between(keep, a, m) + kept_between(keep, m, t),
    decreases t - m,
{
    if t > m {
        lemma_kept_split(keep, a, m, t - 1);
        if keep.contains((t - 1) as u16) {
            assert(kept_between(keep, a, m) + kept_between(keep, m, t - 1).push(t - 1)
                =~= (kept_between(keep, a, m) + kept_between(keep, m, t - 1)).push(t - 1));
        }
    } else {
        assert(kept_between(keep, a, m) + Seq::<int>::empty() =~= kept_between(keep, a, m));
    }
}

proof fn lemma_all_kept(keep: Seq<u16>, a: int, t: int)
    requires
        a <= t <= 65536,
        0 <= a,
        forall|p: int| a <= p < t ==> #[trigger] keep.contains(p as u16),
    ensures
        kept_between(keep, a, t) == pages_between(a, t),
    decreases t - a,
{
    if t > a {
        lemma_all_kept(keep, a, t - 1);
        assert(keep.contains((t - 1) as u16));
        assert(pages_between(a, t - 1).push(t - 1) =~= pages_between(a, t));
    } else {
        assert(pages_between(a, t) =~= Seq::<int>::empty());
    }
}

/// Deleting, from the highest down, every page below `b` that `keep` lacks,
/// from the pages below `b` followed by the kept pages from `b` on, leaves
/// the kept pages.
proof fn lemma_deletions_from(total: int, keep: Seq<u16>, dels: Seq<u16>, b: int)
    requires
        0 <= b <= total <= 65535,
        forall|i: int, j: int| 0 <= i < j < dels.len() ==> dels[i] > dels[j],
        forall|i: int| 0 <= i < dels.len() ==> #[trigger] dels[i] < b,
        forall|p: int| 0 <= p < b ==> (dels.contains(p as u16) <==> !#[trigger] keep.contains(p as u16)),
    ensures
        after_deletions(pages_between(0, b) + kept_between(keep, b, total), dels) == kept_between(keep, 0, total),
    decreases dels.len(),
{
    let rest = kept_between(keep, b, total);
    if dels.len() == 0 {
        assert forall|p: int| 0 <= p < b implies #[trigger] keep.contains(p as u16) by {
            if !keep.contains(p as u16) {
                let i = choose|i: int| 0 <= i < dels.len() && dels[i] == p as u16;
            }
        }
        lemma_all_kept(keep, 0, b);
        lemma_kept_split(keep, 0, b, total);
    } else {
        let x = dels[0] as int;
        let tail = dels.drop_first();
        // Every page strictly between `x` and `b` is kept: no deletion names it.
        assert forall|p: int| x + 1 <= p < b implies #[trigger] keep.contains(p as u16) by {
            if !keep.contains(p as u16) {
                let i = choose|i: int| 0 <= i < dels.len() && dels[i] == p as u16;
                if i > 0 {
                    assert(dels[0] > dels[i]);
                }
            }
        }
        lemma_all_kept(keep, x + 1, b);
        assert(dels.contains(x as u16)) by {
            assert(dels[0] == x as u16);
        }
        assert(!keep.contains(x as u16));
        assert(((x + 1) - 1) as u16 == x as u16);
        assert(kept_between(keep, x, x) =~= Seq::<int>::empty());
        assert(kept_between(keep, x, x + 1) =~= Seq::<int>::empty());
        lemma_kept_split(keep, x, x + 1, b);
        lemma_kept_split(keep, x, b, total);
        let before = pages_between(0, b) + rest;
        assert(before.remove(x) =~= pages_between(0, x) + kept_between(keep, x, total));
        assert forall|i: int| 0 <= i < tail.len() implies #[trigger] tail[i] < x by {
            assert(dels[0] > dels[i + 1]);
        }
        assert forall|p: int| 0 <= p < x implies (tail.contains(p as u16) <==> !#[trigger] keep.contains(p as u16)) by {
            if tail.contains(p as u16) {
                let i = choose|i: int| 0 <= i < tail.len() && tail[i] == p as u16;
                assert(dels[i + 1] == p as u16);
            }
            if dels.contains(p as u16) {
                let i = choose|i: int| 0 <= i < dels.len() && dels[i] == p as u16;
                assert(i != 0);
                assert(tail[i - 1] == p as u16);
            }
        }
        lemma_deletions_from(total, keep, tail, x);
    }
}

/// Deleting the pages that `pages_to_delete` lists, one after the other in
/// its order, leaves exactly the pages of `keep`, in their order in the
/// document.
pub proof fn lemma_deleting_leaves_kept(total: u16, keep: Seq<u16>, dels: Seq<u16>)
    requires
        forall|i: int, j: int| 0 <= i < j < dels.len() ==> dels[i] > dels[j],
        forall|p: u16| dels.contains(p) <==> (p < total && !keep.contains(p)),
    ensures
        after_deletions(pages_between(0, total as int), dels) == kept_between(keep, 0, total as int),
{
    assert forall|i: int| 0 <= i < dels.len() implies #[trigger] dels[i] < total by {
        assert(dels.contains(dels[i]));
    }
    assert forall|p: int| 0 <= p < total implies (dels.contains(p as u16) <==> !#[trigger] keep.contains(p as u16)) by {
        assert(dels.contains(p as u16) <==> ((p as u16) < total && !keep.contains(p as u16)));
    }
    assert(kept_between(keep, total as int, total as int) =~= Seq::<int>::empty());
    assert(pages_between(0, total as int) + Seq::<int>::empty() =~= pages_between(0, total as int));
    lemma_deletions_from(total as int, keep, dels, total as int);
}

} // verus!
