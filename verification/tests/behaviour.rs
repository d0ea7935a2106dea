//! Scenarios for the line classifiers, list handling, wrapping and the
//! document formatter, and concrete instances of the library's laws.
use org_formatter::{
    char_width, format_lines, format_list_line, format_org, get_heading_level, is_heading_line,
    is_heading_or_drawer_end, is_list_item, is_regular_paragraph_line,
    is_regular_paragraph_line_with, split_list_line, str_width, wrap_list_line, wrap_paragraph,
    FormatOptions, LineCases,
};

fn words_of(lines: &[String]) -> Vec<String> {
    lines.iter().flat_map(|l| l.split_whitespace().map(|w| w.to_string())).collect()
}

#[test]
fn heading_lines() {
    assert!(is_heading_line("* Heading"));
    assert!(is_heading_line("*"));
    assert!(is_heading_line("  ** Sub"));
    assert!(!is_heading_line(" * item"));
    assert!(!is_heading_line("*bold*"));
    assert!(!is_heading_line("text"));
    assert!(!is_heading_line(""));
}

#[test]
fn heading_levels() {
    assert_eq!(get_heading_level("** H"), Some(2));
    assert_eq!(get_heading_level("***"), Some(3));
    assert_eq!(get_heading_level("  ** H"), None);
    assert_eq!(get_heading_level("*x"), None);
    assert_eq!(get_heading_level(""), None);
}

#[test]
fn heading_or_drawer_end_lines() {
    assert!(is_heading_or_drawer_end("* H"));
    assert!(is_heading_or_drawer_end("  :END:  "));
    assert!(!is_heading_or_drawer_end(":end:"));
    assert!(!is_heading_or_drawer_end("body"));
}

#[test]
fn list_items() {
    for l in ["- a", "+", "* x", "  1. x", "10) y", "a. z", "b)", "-\tx"] {
        assert!(is_list_item(l), "{l:?}");
    }
    for l in ["-x", "1.x", "ab. x", "A. x", "", "1", "text"] {
        assert!(!is_list_item(l), "{l:?}");
    }
}

#[test]
fn list_line_formatting() {
    assert_eq!(format_list_line("-    a  "), "- a");
    assert_eq!(format_list_line("  1.x"), "  1. x");
    assert_eq!(format_list_line("b)   two"), "b) two");
    assert_eq!(format_list_line("-"), "-");
    assert_eq!(format_list_line("12)"), "12)");
    assert_eq!(format_list_line("hello"), "hello");
    assert_eq!(format_list_line("1x"), "1x");
}

#[test]
fn list_line_splitting() {
    assert_eq!(
        split_list_line("  -  item text "),
        Some(("  ".to_string(), "-  ".to_string(), "item text".to_string()))
    );
    assert_eq!(
        split_list_line("3. x"),
        Some((String::new(), "3. ".to_string(), "x".to_string()))
    );
    assert_eq!(
        split_list_line("c)"),
        Some((String::new(), "c)".to_string(), String::new()))
    );
    assert_eq!(split_list_line("plain"), None);
}

#[test]
fn list_line_wrapping() {
    assert_eq!(wrap_list_line("plain words here", 5), vec!["plain words here".to_string()]);
    assert_eq!(wrap_list_line("-    ", 5), vec!["-".to_string()]);
    assert_eq!(
        wrap_list_line("- aa bb cc", 7),
        vec!["- aa bb".to_string(), "  cc".to_string()]
    );
}

#[test]
fn widths() {
    assert_eq!(char_width('a'), 1);
    assert_eq!(char_width('\t'), 8);
    assert_eq!(char_width('가'), 2);
    assert_eq!(char_width('漢'), 2);
    assert_eq!(str_width("a\t가"), 11);
    assert_eq!(str_width(""), 0);
}

#[test]
fn paragraph_wrapping() {
    let p = vec!["  a b".to_string(), "c".to_string()];
    assert_eq!(
        wrap_paragraph(&p, 3),
        vec!["  a".to_string(), "  b".to_string(), "  c".to_string()]
    );
    assert_eq!(wrap_paragraph(&p, 80), vec!["  a b c".to_string()]);
    assert_eq!(wrap_paragraph(&[], 10), Vec::<String>::new());
    assert_eq!(wrap_paragraph(&["   ".to_string()], 10), Vec::<String>::new());
}

#[test]
fn regular_paragraph_lines() {
    assert!(is_regular_paragraph_line("some text"));
    assert!(is_regular_paragraph_line("  indented text "));
    assert!(!is_regular_paragraph_line("#+TITLE: x"));
    assert!(!is_regular_paragraph_line("# comment"));
    assert!(!is_regular_paragraph_line("| a | b |"));
    assert!(!is_regular_paragraph_line(":END:"));
    assert!(!is_regular_paragraph_line(":drawer:"));
    assert!(!is_regular_paragraph_line("#+begin_src"));
    assert!(!is_regular_paragraph_line("- item"));
    assert!(!is_regular_paragraph_line("* Heading"));
    assert!(!is_regular_paragraph_line("   "));
    // The upper-cased text decides the block and drawer-end checks.
    assert!(!is_regular_paragraph_line_with("foo", ":END:"));
    assert!(!is_regular_paragraph_line_with("foo", "#+END_X"));
    assert!(is_regular_paragraph_line_with("foo", "FOO"));
}

#[test]
fn blank_document_formats_to_nothing() {
    let o = FormatOptions::default();
    assert_eq!(format_org("", &o), "");
    assert_eq!(format_org("  \n\n\t\n", &o), "");
}

#[test]
fn formatted_text_ends_with_newline() {
    let o = FormatOptions::default();
    let out = format_org("\n\ntext", &o);
    assert_eq!(out, "text\n");
}

#[test]
fn crlf_lines() {
    let o = FormatOptions::default();
    assert_eq!(format_org("a\r\nb\r", &o), "a\nb\n");
}

#[test]
fn empty_lines_collapse() {
    let o = FormatOptions::default();
    assert_eq!(format_org("a\n\n\n\nb", &o), "a\n\nb\n");
}

#[test]
fn drawer_properties() {
    let o = FormatOptions::default();
    assert_eq!(
        format_org("* H\n:properties:\n:ID:    1\n\n:EMPTY:   \nplain\n:end:\nx", &o),
        "* H\n:PROPERTIES:\n:ID: 1\n:EMPTY:\nplain\n:END:\n\nx\n"
    );
}

#[test]
fn drawer_under_heading_aligned_past_stars() {
    let o = FormatOptions::default();
    assert_eq!(
        format_org("** H\n :PROPS:\n :A: b\n :END:", &o),
        "** H\n   :PROPS:\n   :A: b\n   :END:\n"
    );
}

#[test]
fn block_keywords_case() {
    let o = FormatOptions::default();
    assert_eq!(
        format_org("#+begin_quote\nSome  Text  \n#+end_quote", &o),
        "#+BEGIN_QUOTE\nSome  Text\n#+END_QUOTE\n"
    );
}

#[test]
fn indented_block_opening_keeps_only_keyword() {
    let o = FormatOptions::default();
    assert_eq!(
        format_org("  #+begin_src rust\nx\n#+end_src", &o),
        "  #+BEGIN_SRC\nx\n#+END_SRC\n"
    );
}

#[test]
fn block_after_heading_and_text_after_block() {
    let o = FormatOptions::default();
    assert_eq!(
        format_org("* H\n#+begin_example\n e\n#+end_example\nafter", &o),
        "* H\n\n#+BEGIN_EXAMPLE\n e\n#+END_EXAMPLE\n\nafter\n"
    );
}

#[test]
fn heading_after_text_gets_one_empty_line() {
    let o = FormatOptions::default();
    assert_eq!(format_org("text\n* H", &o), "text\n\n* H\n");
}

#[test]
fn list_wrapping_in_document() {
    let o = FormatOptions { wrap_lists: true, fill_column: 10, ..FormatOptions::default() };
    assert_eq!(format_org("- one two three", &o), "- one two\n  three\n");
}

#[test]
fn format_lines_with_given_cases() {
    let o = FormatOptions::default();
    let lines = vec!["#+begin_src x".to_string(), "y".to_string()];
    let cases = vec![
        LineCases {
            upper_trimmed: "#+BEGIN_SRC X".to_string(),
            upper_trimmed_start: "#+BEGIN_SRC X".to_string(),
            upper_first_word: "#+BEGIN_SRC".to_string(),
            lower_block_type: "x".to_string(),
        },
        LineCases {
            upper_trimmed: "Y".to_string(),
            upper_trimmed_start: "Y".to_string(),
            upper_first_word: "Y".to_string(),
            lower_block_type: String::new(),
        },
    ];
    assert_eq!(format_lines(&lines, &cases, &o), "#+BEGIN_SRC x\ny\n");
}

#[test]
fn law_wrap_keeps_words_instance() {
    let p = vec![
        "  The quick brown fox".to_string(),
        "jumps   over the".to_string(),
        "  lazy dog".to_string(),
    ];
    for fill in [1, 5, 12, 80] {
        let out = wrap_paragraph(&p, fill);
        assert_eq!(words_of(&out), words_of(&p));
    }
}

#[test]
fn law_wrap_width_instance() {
    let p = vec!["aa bbb c dddddddd e ff".to_string()];
    let out = wrap_paragraph(&p, 6);
    for l in &out {
        assert!(str_width(l) <= 6 || l.split_whitespace().count() == 1, "{l:?}");
    }
    assert_eq!(out, vec!["aa bbb", "c", "dddddddd", "e ff"]);
}

#[test]
fn law_list_format_idempotent_instance() {
    for l in ["-   x  y", "  12)z", "q.   r", "+", "plain", "*\tstar"] {
        let once = format_list_line(l);
        assert_eq!(format_list_line(&once), once);
    }
}

#[test]
fn law_split_iff_list_item_instance() {
    for l in ["- a", "x", "1) b", "c.", "-x", "  * y"] {
        assert_eq!(split_list_line(l).is_some(), is_list_item(l));
    }
}

#[test]
fn law_heading_level_instance() {
    for l in ["* a", " * a", "  ** b", "**", "*x", "text"] {
        let starts_clear = l.chars().next().map_or(false, |c| !c.is_whitespace());
        assert_eq!(get_heading_level(l).is_some(), is_heading_line(l) && starts_clear);
    }
}

#[test]
fn law_heading_to_body_spacing_instance() {
    let o = FormatOptions { heading_to_body_spacing: 3, ..FormatOptions::default() };
    assert_eq!(format_org("* H\n\nbody", &o), "* H\n\n\n\nbody\n");
}

#[test]
fn law_heading_to_heading_spacing_instance() {
    let o = FormatOptions { heading_to_heading_spacing: 2, ..FormatOptions::default() };
    assert_eq!(format_org("* A\n** B", &o), "* A\n\n\n** B\n");
}

fn plain_cases(line: &str) -> LineCases {
    LineCases {
        upper_trimmed: line.trim().to_uppercase(),
        upper_trimmed_start: line.trim_start().to_uppercase(),
        upper_first_word: String::new(),
        lower_block_type: String::new(),
    }
}

#[test]
fn law_document_heading_to_body_instance() {
    for (hb, blanks) in [(0usize, 0usize), (1, 3), (2, 1)] {
        let o = FormatOptions { heading_to_body_spacing: hb, ..FormatOptions::default() };
        let mut lines = vec!["* Heading".to_string()];
        for _ in 0..blanks {
            lines.push("  ".to_string());
        }
        lines.push("Body text.".to_string());
        let cases: Vec<LineCases> = lines.iter().map(|l| plain_cases(l)).collect();
        let expected = format!("* Heading\n{}Body text.\n", "\n".repeat(hb));
        assert_eq!(format_lines(&lines, &cases, &o), expected);
    }
}

#[test]
fn law_document_heading_to_heading_instance() {
    for (hh, blanks) in [(0usize, 2usize), (1, 0), (3, 1)] {
        let o = FormatOptions { heading_to_heading_spacing: hh, ..FormatOptions::default() };
        let mut lines = vec!["* One".to_string()];
        for _ in 0..blanks {
            lines.push(String::new());
        }
        lines.push("** Two".to_string());
        let cases: Vec<LineCases> = lines.iter().map(|l| plain_cases(l)).collect();
        let expected = format!("* One\n{}** Two\n", "\n".repeat(hh));
        assert_eq!(format_lines(&lines, &cases, &o), expected);
    }
}

#[test]
fn law_regular_paragraph_line_plain_instance() {
    for l in ["text", "# c", ":a:", "| t", "- i", "* H", "", "#+begin_src", "  word"] {
        let t = l.trim_start();
        let plain = !t.is_empty()
            && !is_heading_line(l)
            && !is_list_item(t)
            && !(t.starts_with(':') && t.ends_with(':'))
            && !t.starts_with('#')
            && !t.starts_with('|');
        assert_eq!(is_regular_paragraph_line(l), plain, "{l:?}");
    }
}

#[test]
fn law_fill_column_unused_without_wrapping_instance() {
    let input = "* H\n\nA fairly long line of body text that would wrap.\n- a list item with words\n";
    let base = format_org(input, &FormatOptions::default());
    for k in [0usize, 1, 10, 200] {
        let o = FormatOptions { fill_column: k, ..FormatOptions::default() };
        assert_eq!(format_org(input, &o), base);
    }
}

#[test]
fn law_org_heading_spacing_instance() {
    for m in 0..4 {
        let input = format!("* H\n{}text", "\n".repeat(m));
        let o = FormatOptions { heading_to_body_spacing: 2, ..FormatOptions::default() };
        assert_eq!(format_org(&input, &o), "* H\n\n\ntext\n");
        let input = format!("* A\n{}** B", "\n".repeat(m));
        let o = FormatOptions { heading_to_heading_spacing: 0, ..FormatOptions::default() };
        assert_eq!(format_org(&input, &o), "* A\n** B\n");
    }
}
