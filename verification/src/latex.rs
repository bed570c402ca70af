//! LaTeX text handling: wrapping a formula into a compilable document,
//! picking the body of a document out for display, cleaning what OCR tools
//! print, reporting compiler errors, and jumping from the PDF to the source.
use vstd::prelude::*;
use crate::text::{
    append_chars, append_str, chars_of, contains_chars, contains_seq, find_sub, index_of_sub,
    lemma_occurs_concat, lemma_trim_ends, lemma_trim_fixed,
    join_chars, join_with, lemma_index_of_sub, lines, occurs_at, replace_all, replace_chars, rfind,
    slice_chars, split_lines, starts_with_chars, starts_with_seq, string_of, trim, trim_chars,
};

verus! {

// ---------------------------------------------------------------------------
// Wrapping a formula into a document
// ---------------------------------------------------------------------------

/// What a standalone document starts with, before the formula.
pub open spec fn preamble() -> Seq<char> {
    "\\documentclass[border=2pt, preview]{standalone}\n\\usepackage{amsmath, amsfonts, amssymb, bm,enumitem, tikz, varwidth}\n\\setenumerate[1]{itemsep=5pt,partopsep=0pt,parsep=5pt,topsep=5pt}\n\\setitemize[1]{itemsep=5pt,partopsep=0pt,parsep=5pt,topsep=5pt, leftmargin=2pc}\n\\begin{document}\n\\begin{varwidth}{\\linewidth}\n\n"@
}

/// What a standalone document ends with, after the formula.
pub open spec fn postamble() -> Seq<char> {
    "\n\n\\end{varwidth}\n\\end{document}"@
}

/// The LaTeX source to compile for `content`: nothing for blank content; a
/// text that already has a document class and a document body unchanged,
/// with `\end{document}` added when it lacks one; anything else wrapped
/// into a standalone document.
pub open spec fn normalized_latex(content: Seq<char>) -> Seq<char> {
    let t = trim(content);
    if t.len() == 0 {
        Seq::empty()
    } else if contains_seq(t, "\\documentclass"@) && contains_seq(t, "\\begin{document}"@) {
        if contains_seq(t, "\\end{document}"@) {
            t
        } else {
            t + "\n\\end{document}"@
        }
    } else {
        preamble() + t + postamble()
    }
}

/// The LaTeX source to compile for the text of the OCR panel.
pub fn normalize_latex(content: &str) -> (r: String)
    ensures
        r@ == normalized_latex(content@),
{
    let c = chars_of(content);
    let t = trim_chars(&c);
    if t.len() == 0 {
        return string_of(&t);
    }
    let has_header = contains_chars(&t, &chars_of("\\documentclass"));
    let has_begin = contains_chars(&t, &chars_of("\\begin{document}"));
    if has_header && has_begin {
        if contains_chars(&t, &chars_of("\\end{document}")) {
            string_of(&t)
        } else {
            let mut out = t;
            append_str(&mut out, "\n\\end{document}");
            string_of(&out)
        }
    } else {
        let mut out: Vec<char> = Vec::new();
        append_str(
            &mut out,
            "\\documentclass[border=2pt, preview]{standalone}\n\\usepackage{amsmath, amsfonts, amssymb, bm,enumitem, tikz, varwidth}\n\\setenumerate[1]{itemsep=5pt,partopsep=0pt,parsep=5pt,topsep=5pt}\n\\setitemize[1]{itemsep=5pt,partopsep=0pt,parsep=5pt,topsep=5pt, leftmargin=2pc}\n\\begin{document}\n\\begin{varwidth}{\\linewidth}\n\n",
        );
        append_chars(&mut out, &t);
        append_str(&mut out, "\n\n\\end{varwidth}\n\\end{document}");
        string_of(&out)
    }
}

/// What contains `p` still contains it with text added after it.
proof fn lemma_contains_prefix(s: Seq<char>, u: Seq<char>, p: Seq<char>)
    requires
        contains_seq(s, p),
    ensures
        contains_seq(s + u, p),
{
    let i = choose|i: int| occurs_at(s, p, i);
    lemma_occurs_concat(s, u, p, i);
}

/// Normalizing the source once more changes nothing: what `normalize_latex`
/// gives is already a complete document (or nothing).
pub proof fn lemma_normalize_idempotent(content: Seq<char>)
    ensures
        normalized_latex(normalized_latex(content)) == normalized_latex(content),
{
    reveal_strlit("\\documentclass");
    reveal_strlit("\\begin{document}");
    reveal_strlit("\\end{document}");
    reveal_strlit("\n\\end{document}");
    let t = trim(content);
    let r = normalized_latex(content);
    lemma_trim_ends(content);
    if t.len() == 0 {
        lemma_trim_fixed(r);
    } else if contains_seq(t, "\\documentclass"@) && contains_seq(t, "\\begin{document}"@) {
        if contains_seq(t, "\\end{document}"@) {
            lemma_trim_fixed(t);
        } else {
            let tail = "\n\\end{document}"@;
            assert(r[0] == t[0]);
            assert(r.last() == '}');
            lemma_trim_fixed(r);
            lemma_contains_prefix(t, tail, "\\documentclass"@);
            lemma_contains_prefix(t, tail, "\\begin{document}"@);
            assert(occurs_at(tail, "\\end{document}"@, 1)) by {
                assert(tail.subrange(1, 15) =~= "\\end{document}"@);
            }
            lemma_occurs_concat(t, tail, "\\end{document}"@, 1);
        }
    } else {
        reveal_strlit("\\documentclass[border=2pt, preview]{standalone}\n\\usepackage{amsmath, amsfonts, amssymb, bm,enumitem, tikz, varwidth}\n\\setenumerate[1]{itemsep=5pt,partopsep=0pt,parsep=5pt,topsep=5pt}\n\\setitemize[1]{itemsep=5pt,partopsep=0pt,parsep=5pt,topsep=5pt, leftmargin=2pc}\n\\begin{document}\n\\begin{varwidth}{\\linewidth}\n\n");
        reveal_strlit("\n\n\\end{varwidth}\n\\end{document}");
        let pre = preamble();
        let post = postamble();
        assert(r == pre + t + post);
        assert(r[0] == '\\');
        assert(r.last() == '}');
        lemma_trim_fixed(r);
        assert(occurs_at(pre, "\\documentclass"@, 0)) by {
            assert(pre.subrange(0, 14) =~= "\\documentclass"@);
        }
        assert(occurs_at(pre, "\\begin{document}"@, 263)) by {
            assert(pre.subrange(263, 279) =~= "\\begin{document}"@);
        }
        assert(occurs_at(post, "\\end{document}"@, 17)) by {
            assert(post.subrange(17, 31) =~= "\\end{document}"@);
        }
        lemma_occurs_concat(pre, t, "\\documentclass"@, 0);
        lemma_occurs_concat(pre + t, post, "\\documentclass"@, 0);
        lemma_occurs_concat(pre, t, "\\begin{document}"@, 263);
        lemma_occurs_concat(pre + t, post, "\\begin{document}"@, 263);
        lemma_occurs_concat(pre + t, post, "\\end{document}"@, 17);
    }
}

// ---------------------------------------------------------------------------
// Picking out the body of a document
// ---------------------------------------------------------------------------

/// The index of the last occurrence of `p` in `s`.
pub open spec fn last_index_of_sub(s: Seq<char>, p: Seq<char>) -> Option<int> {
    if contains_seq(s, p) {
        Some(choose|i: int| occurs_at(s, p, i) && forall|j: int| i < j ==> !#[trigger] occurs_at(s, p, j))
    } else {
        None
    }
}

/// The body between the markers `open` and `close`: after the first `open`,
/// up to the last `close`, when that `close` starts after that `open` starts.
pub open spec fn marked_body(text: Seq<char>, open: Seq<char>, close: Seq<char>) -> Option<(int, int)> {
    match (index_of_sub(text, open), last_index_of_sub(text, close)) {
        (Some(s), Some(e)) => if e > s {
            Some((s + open.len(), e))
        } else {
            None
        },
        _ => None,
    }
}

/// Where the body of a LaTeX text lies: between `\begin{varwidth}{\linewidth}`
/// and `\end{varwidth}` if those mark one, else between `\begin{document}`
/// and `\end{document}` if those do.
pub open spec fn body_bounds(text: Seq<char>) -> Option<(int, int)> {
    match marked_body(text, "\\begin{varwidth}{\\linewidth}"@, "\\end{varwidth}"@) {
        Some(b) => Some(b),
        None => marked_body(text, "\\begin{document}"@, "\\end{document}"@),
    }
}

/// No occurrence of `close` can start inside an occurrence of `open` when
/// `open` has no position at which `close` could begin.
proof fn lemma_no_overlap(text: Seq<char>, open: Seq<char>, close: Seq<char>, s: int, e: int)
    requires
        occurs_at(text, open, s),
        occurs_at(text, close, e),
        close.len() >= 2,
        s < e,
        forall|o: int|
            1 <= o < open.len() ==> !(#[trigger] open[o] == close[0] && (o + 1 == open.len() || open[o + 1]
                == close[1])),
    ensures
        e >= s + open.len(),
{
    if e < s + open.len() {
        let o = e - s;
        assert(text.subrange(s, s + open.len())[o] == open[o]);
        assert(text.subrange(e, e + close.len())[0] == close[0]);
        if o + 1 < open.len() {
            assert(text.subrange(s, s + open.len())[o + 1] == open[o + 1]);
            assert(text.subrange(e, e + close.len())[1] == close[1]);
        }
    }
}

/// The body between `open` and `close` in `text`, if they mark one.
fn find_marked(text: &Vec<char>, open: &str, close: &str) -> (r: Option<(usize, usize)>)
    requires
        close@.len() >= 2,
        forall|o: int|
            1 <= o < open@.len() ==> !(#[trigger] open@[o] == close@[0] && (o + 1 == open@.len()
                || open@[o + 1] == close@[1])),
    ensures
        match r {
            Some((a, b)) => marked_body(text@, open@, close@) == Some((a as int, b as int)) && a <= b <= text@.len(),
            None => marked_body(text@, open@, close@) is None,
        },
{
    let o = chars_of(open);
    let c = chars_of(close);
    let s = find_sub(text, &o);
    let e = rfind(text, &c);
    proof {
        lemma_index_of_sub(text@, o@);
        match e {
            Some(i) => {
                assert(contains_seq(text@, c@));
                let k = last_index_of_sub(text@, c@)->0;
                assert(occurs_at(text@, c@, k) && forall|j: int| k < j ==> !#[trigger] occurs_at(text@, c@, j));
                if k < i {
                    assert(!occurs_at(text@, c@, i as int));
                } else if k > i {
                    assert(!occurs_at(text@, c@, k));
                }
            },
            None => {},
        }
    }
    match (s, e) {
        (Some(s), Some(e)) => {
            if e > s {
                proof {
                    lemma_no_overlap(text@, o@, c@, s as int, e as int);
                }
                Some((s + o.len(), e))
            } else {
                None
            }
        },
        _ => None,
    }
}

/// The text before the body of a LaTeX text, the body, and the text after
/// it, when `body_bounds` finds one; the OCR panel shows the body brighter.
pub fn split_latex_body(text: &str) -> (r: Option<(String, String, String)>)
    ensures
        match r {
            Some((head, body, tail)) => body_bounds(text@) matches Some((a, b)) && head@ == text@.take(a)
                && body@ == text@.subrange(a, b) && tail@ == text@.skip(b) && head@ + body@ + tail@ == text@,
            None => body_bounds(text@) is None,
        },
{
    let t = chars_of(text);
    proof {
        reveal_strlit("\\begin{varwidth}{\\linewidth}");
        reveal_strlit("\\end{varwidth}");
        reveal_strlit("\\begin{document}");
        reveal_strlit("\\end{document}");
    }
    let first = find_marked(&t, "\\begin{varwidth}{\\linewidth}", "\\end{varwidth}");
    let found = match first {
        Some(b) => Some(b),
        None => find_marked(&t, "\\begin{document}", "\\end{document}"),
    };
    match found {
        Some((a, b)) => {
            let head = slice_chars(&t, 0, a);
            let body = slice_chars(&t, a, b);
            let tail = slice_chars(&t, b, t.len());
            assert(head@ =~= text@.take(a as int));
            assert(tail@ =~= text@.skip(b as int));
            assert(head@ + body@ + tail@ =~= text@);
            Some((string_of(&head), string_of(&body), string_of(&tail)))
        },
        None => None,
    }
}

// ---------------------------------------------------------------------------
// Cleaning OCR output
// ---------------------------------------------------------------------------

/// The LaTeX in a chat reply: the text of its first fenced code block (from
/// the line after the opening fence to the next fence, or to the end), or
/// the whole reply when it has no fence; trimmed either way.
pub open spec fn code_block_text(content: Seq<char>) -> Seq<char> {
    match index_of_sub(content, "```"@) {
        Some(start) => {
            let after = content.skip(start + 3);
            let nl = crate::text::first_pos(after, '\n');
            let body = if nl < after.len() { after.skip(nl + 1) } else { after };
            let piece = match index_of_sub(body, "```"@) {
                Some(q) => body.take(q),
                None => body,
            };
            trim(piece)
        },
        None => trim(content),
    }
}

/// The LaTeX in a chat reply; see `code_block_text`.
pub fn extract_code_block(content: &str) -> (r: String)
    ensures
        r@ == code_block_text(content@),
{
    let c = chars_of(content);
    let fence = chars_of("```");
    proof {
        reveal_strlit("```");
        lemma_index_of_sub(c@, fence@);
    }
    match find_sub(&c, &fence) {
        Some(start) => {
            let n = c.len();
            assert(start + 3 <= n);
            let after = slice_chars(&c, start + 3, n);
            assert(after@ =~= c@.skip(start + 3));
            let nl = crate::text::find_char_from(&after, '\n', 0);
            assert(after@.skip(0) =~= after@);
            let body = if nl < after.len() {
                let b = slice_chars(&after, nl + 1, after.len());
                assert(b@ =~= after@.skip(nl + 1));
                b
            } else {
                after
            };
            let piece = match find_sub(&body, &fence) {
                Some(q) => {
                    proof {
                        lemma_index_of_sub(body@, fence@);
                    }
                    let p = slice_chars(&body, 0, q);
                    assert(p@ =~= body@.take(q as int));
                    p
                },
                None => body,
            };
            let t = trim_chars(&piece);
            string_of(&t)
        },
        None => {
            let t = trim_chars(&c);
            string_of(&t)
        },
    }
}

/// A line a local OCR tool prints that belongs to the result: not empty,
/// and not a `llama_` log line.
pub open spec fn is_result_line(line: Seq<char>) -> bool {
    line.len() > 0 && !starts_with_seq(line, "llama_"@)
}

/// The result lines of `ls`, in order.
pub open spec fn result_lines(ls: Seq<Seq<char>>) -> Seq<Seq<char>>
    decreases ls.len(),
{
    if ls.len() == 0 {
        ls
    } else if is_result_line(ls.last()) {
        result_lines(ls.drop_last()).push(ls.last())
    } else {
        result_lines(ls.drop_last())
    }
}

/// The message shown when local OCR fails.
pub open spec fn ocr_failure_message() -> Seq<char> {
    "OCR 运行失败"@
}

/// The text a local OCR run gives: the failure message when the tool could
/// not be run or failed; else its output without empty lines and `llama_`
/// log lines, joined by newlines and trimmed.
pub open spec fn local_ocr_text(stdout: Option<Seq<char>>) -> Seq<char> {
    match stdout {
        Some(out) => trim(join_with(result_lines(lines(out)), "\n"@)),
        None => ocr_failure_message(),
    }
}

/// The text a local OCR run gives; see `local_ocr_text`.
pub fn local_ocr_result(stdout: Option<&str>) -> (r: String)
    ensures
        r@ == local_ocr_text(match stdout {
            Some(s) => Some(s@),
            None => None,
        }),
{
    match stdout {
        None => string_of(&chars_of("OCR 运行失败")),
        Some(out) => {
            let c = chars_of(out);
            let ls = split_lines(&c);
            let prefix = chars_of("llama_");
            let mut kept: Vec<Vec<char>> = Vec::new();
            let ghost all = lines(c@);
            let mut i: usize = 0;
            assert(all.take(0) =~= Seq::<Seq<char>>::empty());
            assert(kept@.map_values(|v: Vec<char>| v@) =~= Seq::<Seq<char>>::empty());
            while i < ls.len()
                invariant
                    i <= ls@.len(),
                    all == lines(c@),
                    ls@.len() == all.len(),
                    forall|j: int| 0 <= j < ls@.len() ==> #[trigger] ls@[j]@ == all[j],
                    prefix@ == "llama_"@,
                    kept@.map_values(|v: Vec<char>| v@) == result_lines(all.take(i as int)),
                decreases ls.len() - i,
            {
                assert(all.take(i + 1).drop_last() =~= all.take(i as int));
                assert(all.take(i + 1).last() == ls@[i as int]@);
                let line = &ls[i];
                if line.len() > 0 && !starts_with_chars(line, &prefix) {
                    let ghost before = kept@;
                    kept.push(line.clone());
                    assert(kept@.map_values(|v: Vec<char>| v@) =~= before.map_values(|v: Vec<char>| v@).push(ls@[i as int]@));
                }
                i += 1;
            }
            assert(all.take(i as int) =~= all);
            let joined = join_chars(&kept, &chars_of("\n"));
            let t = trim_chars(&joined);
            string_of(&t)
        },
    }
}

// ---------------------------------------------------------------------------
// Compiler errors
// ---------------------------------------------------------------------------

/// The index of the first line starting with `!`.
pub open spec fn first_error_line(ls: Seq<Seq<char>>) -> Option<int>
    decreases ls.len(),
{
    if ls.len() == 0 {
        None
    } else if ls[0].len() > 0 && ls[0][0] == '!' {
        Some(0)
    } else {
        match first_error_line(ls.drop_first()) {
            Some(k) => Some(k + 1),
            None => None,
        }
    }
}

/// The message shown when LaTeX compilation fails: the first line of the
/// log (standard output, a newline, standard error) that starts with `!`
/// and the two lines after it, joined by newlines; a generic message when no
/// line starts with `!`.
pub open spec fn latex_error_text(stdout: Seq<char>, stderr: Seq<char>) -> Seq<char> {
    let ls = lines(stdout + "\n"@ + stderr);
    match first_error_line(ls) {
        Some(i) => join_with(ls.subrange(i, if i + 3 < ls.len() { i + 3 } else { ls.len() as int }), "\n"@),
        None => "LaTeX Syntax Error (Check Log)"@,
    }
}

proof fn lemma_first_error_line(ls: Seq<Seq<char>>, k: int)
    requires
        0 <= k <= ls.len(),
        forall|j: int| 0 <= j < k ==> !(ls[j].len() > 0 && #[trigger] ls[j][0] == '!'),
        k < ls.len() ==> ls[k].len() > 0 && ls[k][0] == '!',
    ensures
        first_error_line(ls) == if k < ls.len() { Some(k) } else { None::<int> },
    decreases ls.len(),
{
    if ls.len() > 0 && !(ls[0].len() > 0 && ls[0][0] == '!') {
        assert forall|j: int| 0 <= j < k - 1 implies !(ls.drop_first()[j].len() > 0 && #[trigger] ls.drop_first()[j][0] == '!') by {
            assert(ls.drop_first()[j] == ls[j + 1]);
        }
        lemma_first_error_line(ls.drop_first(), k - 1);
    }
}

/// The message shown when LaTeX compilation fails; see `latex_error_text`.
pub fn latex_error_report(stdout: &str, stderr: &str) -> (r: String)
    ensures
        r@ == latex_error_text(stdout@, stderr@),
{
    let mut log = chars_of(stdout);
    log.push('\n');
    append_str(&mut log, stderr);
    proof {
        reveal_strlit("\n");
        assert(log@ =~= stdout@ + "\n"@ + stderr@);
    }
    let ls = split_lines(&log);
    let ghost all = lines(log@);
    let mut i: usize = 0;
    while i < ls.len() && !(ls[i].len() > 0 && ls[i][0] == '!')
        invariant
            i <= ls@.len(),
            ls@.len() == all.len(),
            forall|j: int| 0 <= j < ls@.len() ==> #[trigger] ls@[j]@ == all[j],
            forall|j: int| 0 <= j < i ==> !(all[j].len() > 0 && #[trigger] all[j][0] == '!'),
        decreases ls.len() - i,
    {
        i += 1;
    }
    proof {
        if i < ls@.len() {
            assert(ls@[i as int]@ == all[i as int]);
        }
        lemma_first_error_line(all, i as int);
    }
    if i == ls.len() {
        return string_of(&chars_of("LaTeX Syntax Error (Check Log)"));
    }
    let end = if ls.len() - i > 3 { i + 3 } else { ls.len() };
    let mut report: Vec<Vec<char>> = Vec::new();
    let mut j = i;
    while j < end
        invariant
            i <= j <= end <= ls@.len(),
            ls@.len() == all.len(),
            forall|k: int| 0 <= k < ls@.len() ==> #[trigger] ls@[k]@ == all[k],
            report@.len() == j - i,
            forall|k: int| 0 <= k < report@.len() ==> #[trigger] report@[k]@ == all[i + k],
        decreases end - j,
    {
        report.push(ls[j].clone());
        j += 1;
    }
    assert(report@.map_values(|v: Vec<char>| v@) =~= all.subrange(i as int, end as int));
    let joined = join_chars(&report, &chars_of("\n"));
    string_of(&joined)
}

// ---------------------------------------------------------------------------
// Jumping to the source
// ---------------------------------------------------------------------------

/// The value of the last line of `ls` that starts with `key`: the rest of
/// that line, trimmed; empty when no line starts with `key`.
pub open spec fn field_value(ls: Seq<Seq<char>>, key: Seq<char>) -> Seq<char>
    decreases ls.len(),
{
    if ls.len() == 0 {
        Seq::empty()
    } else if starts_with_seq(ls.last(), key) {
        trim(ls.last().skip(key.len() as int))
    } else {
        field_value(ls.drop_last(), key)
    }
}

/// The source file and line that SyncTeX reports, from its `Input:` and
/// `Line:` lines (the last of each), when both are present and not empty.
pub open spec fn synctex_target(out: Seq<char>) -> Option<(Seq<char>, Seq<char>)> {
    let file = field_value(lines(out), "Input:"@);
    let line = field_value(lines(out), "Line:"@);
    if file.len() > 0 && line.len() > 0 {
        Some((file, line))
    } else {
        None
    }
}

/// The source file and line that SyncTeX reports; see `synctex_target`.
pub fn parse_synctex_output(out: &str) -> (r: Option<(String, String)>)
    ensures
        match r {
            Some((f, l)) => synctex_target(out@) == Some((f@, l@)),
            None => synctex_target(out@) is None,
        },
{
    let c = chars_of(out);
    let ls = split_lines(&c);
    let ghost all = lines(c@);
    let input_key = chars_of("Input:");
    let line_key = chars_of("Line:");
    let mut file: Vec<char> = Vec::new();
    let mut line: Vec<char> = Vec::new();
    let mut i: usize = 0;
    assert(all.take(0) =~= Seq::<Seq<char>>::empty());
    while i < ls.len()
        invariant
            i <= ls@.len(),
            ls@.len() == all.len(),
            forall|j: int| 0 <= j < ls@.len() ==> #[trigger] ls@[j]@ == all[j],
            input_key@ == "Input:"@,
            line_key@ == "Line:"@,
            file@ == field_value(all.take(i as int), "Input:"@),
            line@ == field_value(all.take(i as int), "Line:"@),
        decreases ls.len() - i,
    {
        assert(all.take(i + 1).drop_last() =~= all.take(i as int));
        assert(all.take(i + 1).last() == ls@[i as int]@);
        let l = &ls[i];
        if starts_with_chars(l, &input_key) {
            let rest = slice_chars(l, input_key.len(), l.len());
            assert(rest@ =~= l@.skip(input_key@.len() as int));
            file = trim_chars(&rest);
        }
        if starts_with_chars(l, &line_key) {
            let rest = slice_chars(l, line_key.len(), l.len());
            assert(rest@ =~= l@.skip(line_key@.len() as int));
            line = trim_chars(&rest);
        }
        i += 1;
    }
    assert(all.take(i as int) =~= all);
    if file.len() > 0 && line.len() > 0 {
        Some((string_of(&file), string_of(&line)))
    } else {
        None
    }
}

/// The editor command for a source position: the template with `{file}`
/// replaced by the file, and then `{line}` by the line.
pub open spec fn editor_command_text(template: Seq<char>, file: Seq<char>, line: Seq<char>) -> Seq<char> {
    replace_all(replace_all(template, "{file}"@, file), "{line}"@, line)
}

/// The editor command for a source position; see `editor_command_text`.
pub fn editor_command(template: &str, file: &str, line: &str) -> (r: String)
    ensures
        r@ == editor_command_text(template@, file@, line@),
{
    proof {
        reveal_strlit("{file}");
        reveal_strlit("{line}");
    }
    let t = chars_of(template);
    let f = chars_of(file);
    let l = chars_of(line);
    let with_file = replace_chars(&t, &chars_of("{file}"), &f);
    let with_line = replace_chars(&with_file, &chars_of("{line}"), &l);
    string_of(&with_line)
}

} // verus!
