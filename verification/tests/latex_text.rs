use vectorsnap::latex::{
    editor_command, extract_code_block, latex_error_report, local_ocr_result, normalize_latex,
    parse_synctex_output, split_latex_body,
};

const PREAMBLE: &str = "\\documentclass[border=2pt, preview]{standalone}\n\\usepackage{amsmath, amsfonts, amssymb, bm,enumitem, tikz, varwidth}\n\\setenumerate[1]{itemsep=5pt,partopsep=0pt,parsep=5pt,topsep=5pt}\n\\setitemize[1]{itemsep=5pt,partopsep=0pt,parsep=5pt,topsep=5pt, leftmargin=2pc}\n\\begin{document}\n\\begin{varwidth}{\\linewidth}\n\n";
const POSTAMBLE: &str = "\n\n\\end{varwidth}\n\\end{document}";

#[test]
fn normalize_blank_is_empty() {
    assert_eq!(normalize_latex(""), "");
    assert_eq!(normalize_latex("  \n\t "), "");
}

#[test]
fn normalize_wraps_a_formula() {
    let expected = format!("{}{}{}", PREAMBLE, "x^2 + y^2", POSTAMBLE);
    assert_eq!(normalize_latex("  x^2 + y^2\n"), expected);
}

#[test]
fn normalize_keeps_a_full_document() {
    let doc = "\\documentclass{article}\n\\begin{document}\nhi\n\\end{document}";
    assert_eq!(normalize_latex(&format!("\n {} \n", doc)), doc);
}

#[test]
fn normalize_closes_an_open_document() {
    let doc = "\\documentclass{article}\n\\begin{document}\nhi";
    assert_eq!(normalize_latex(doc), format!("{}\n\\end{{document}}", doc));
}

#[test]
fn normalize_needs_both_class_and_body() {
    let text = "\\begin{document}x";
    assert_eq!(normalize_latex(text), format!("{}{}{}", PREAMBLE, text, POSTAMBLE));
}

#[test]
fn split_body_of_wrapped_formula() {
    let doc = normalize_latex("a+b");
    let (head, body, tail) = split_latex_body(&doc).unwrap();
    assert_eq!(head, &PREAMBLE[..PREAMBLE.len() - 2]);
    assert_eq!(body, "\n\na+b\n\n");
    assert_eq!(tail, "\\end{varwidth}\n\\end{document}");
    assert_eq!(format!("{}{}{}", head, body, tail), doc);
}

#[test]
fn split_body_of_plain_document() {
    let (head, body, tail) = split_latex_body("x\\begin{document}a\\end{document}y").unwrap();
    assert_eq!(head, "x\\begin{document}");
    assert_eq!(body, "a");
    assert_eq!(tail, "\\end{document}y");
}

#[test]
fn split_body_uses_last_end_marker() {
    let (_, body, tail) = split_latex_body("\\begin{document}a\\end{document}b\\end{document}").unwrap();
    assert_eq!(body, "a\\end{document}b");
    assert_eq!(tail, "\\end{document}");
}

#[test]
fn split_body_absent() {
    assert_eq!(split_latex_body("plain text"), None);
    assert_eq!(split_latex_body("\\end{document}\\begin{document}"), None);
}

#[test]
fn code_block_from_fenced_reply() {
    assert_eq!(extract_code_block("Here it is:\n```latex\n x + y \n```\nDone"), "x + y");
}

#[test]
fn code_block_without_fence_is_trimmed_reply() {
    assert_eq!(extract_code_block("  \\frac{a}{b}  "), "\\frac{a}{b}");
}

#[test]
fn code_block_unclosed_runs_to_end() {
    assert_eq!(extract_code_block("```\nabc\n"), "abc");
}

#[test]
fn code_block_fence_without_newline() {
    assert_eq!(extract_code_block("```x```"), "x");
}

#[test]
fn local_ocr_failure_message() {
    assert_eq!(local_ocr_result(None), "OCR 运行失败");
}

#[test]
fn local_ocr_drops_log_and_empty_lines() {
    let out = "llama_model_loader: x\n\n  E=mc^2 \r\nllama_done\nsecond line\n";
    assert_eq!(local_ocr_result(Some(out)), "E=mc^2 \nsecond line");
}

#[test]
fn local_ocr_only_log_gives_empty() {
    assert_eq!(local_ocr_result(Some("llama_a\nllama_b\n")), "");
}

#[test]
fn latex_error_takes_first_error_and_two_lines() {
    let stdout = "This is pdfTeX\n! Undefined control sequence.\nl.5 \\foo\n  x\n! Second error\n";
    assert_eq!(latex_error_report(stdout, ""), "! Undefined control sequence.\nl.5 \\foo\n  x");
}

#[test]
fn latex_error_near_end_of_log() {
    assert_eq!(latex_error_report("a\n! err", "tail"), "! err\ntail");
}

#[test]
fn latex_error_in_standard_error() {
    assert_eq!(latex_error_report("log", "! Emergency stop."), "! Emergency stop.");
}

#[test]
fn latex_error_without_marker() {
    assert_eq!(latex_error_report("all fine?", "no marker"), "LaTeX Syntax Error (Check Log)");
}

#[test]
fn synctex_output_gives_file_and_line() {
    let out = "SyncTeX result begin\nOutput:a.pdf\nInput:  /tmp/x.tex \nLine:12\nColumn:-1\nSyncTeX result end\n";
    assert_eq!(
        parse_synctex_output(out),
        Some(("/tmp/x.tex".to_string(), "12".to_string()))
    );
}

#[test]
fn synctex_output_last_record_wins() {
    let out = "Input:a.tex\nLine:1\nInput:b.tex\nLine:2\n";
    assert_eq!(parse_synctex_output(out), Some(("b.tex".to_string(), "2".to_string())));
}

#[test]
fn synctex_output_incomplete() {
    assert_eq!(parse_synctex_output("Input:/tmp/x.tex\n"), None);
    assert_eq!(parse_synctex_output("Input:\nLine:3\n"), None);
    assert_eq!(parse_synctex_output(""), None);
}

#[test]
fn editor_command_fills_placeholders() {
    assert_eq!(
        editor_command("gvim --remote-silent +{line} {file}", "/tmp/x.tex", "12"),
        "gvim --remote-silent +12 /tmp/x.tex"
    );
}

#[test]
fn editor_command_file_placeholder_first() {
    assert_eq!(editor_command("{file}:{line}:{line}", "{line}.tex", "3"), "3.tex:3:3");
}

#[test]
fn normalizing_twice_changes_nothing() {
    for text in ["", "  x^2 ", "\\documentclass{article}\\begin{document}a", "\\documentclass{a}\\begin{document}b\\end{document}\n"] {
        let once = normalize_latex(text);
        assert_eq!(normalize_latex(&once), once);
    }
}
