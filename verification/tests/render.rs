use scriptbin::render::{INTERP_PLACEHOLDER, PASS_PLACEHOLDER, SCRIPT_PLACEHOLDER};
use scriptbin::text::{find, find_from, strip_suffix_in, to_chars};
use scriptbin::{byte_array, generate, is_well_formed, render, PROGRAM_TEMPLATE};

const TEMPLATE: &str = "let code = { script_code };\nlet pass = \"{ pass }\";\nlet interp = \"{ interp }\";\n";

#[test]
fn placeholders_are_the_three_markers() {
    assert_eq!(SCRIPT_PLACEHOLDER, "{ script_code }");
    assert_eq!(PASS_PLACEHOLDER, "{ pass }");
    assert_eq!(INTERP_PLACEHOLDER, "{ interp }");
}

#[test]
fn byte_array_lists_the_bytes_in_order() {
    assert_eq!(byte_array(b"hi"), "vec![104, 105]\n");
    assert_eq!(byte_array(&[]), "vec![]\n");
    assert_eq!(byte_array(&[0]), "vec![0]\n");
    assert_eq!(byte_array(&[0, 9, 10, 99, 100, 101, 110, 200, 255]), "vec![0, 9, 10, 99, 100, 101, 110, 200, 255]\n");
}

#[test]
fn byte_array_is_what_debug_prints() {
    let all: Vec<u8> = (0..=255u8).collect();
    assert_eq!(byte_array(&all), format!("vec!{:?}\n", all));
}

#[test]
fn render_fills_each_placeholder() {
    let out = render(TEMPLATE, b"hi", "secret", "bash");
    assert_eq!(
        out,
        "let code = vec![104, 105]\n;\nlet pass = \"secret\";\nlet interp = \"bash\";\n"
    );
}

#[test]
fn render_leaves_no_placeholder() {
    let out = render(TEMPLATE, b"echo hello\n", "", "sh");
    assert_eq!(out.matches(SCRIPT_PLACEHOLDER).count(), 0);
    assert_eq!(out.matches(PASS_PLACEHOLDER).count(), 0);
    assert_eq!(out.matches(INTERP_PLACEHOLDER).count(), 0);
    assert!(out.contains("vec![101, 99, 104, 111, 32, 104, 101, 108, 108, 111, 10]\n"));
}

#[test]
fn render_takes_an_empty_passphrase() {
    let out = render("[{ pass }]", b"", "", "sh");
    assert_eq!(out, "[]");
}

#[test]
fn render_passes_over_a_missing_placeholder() {
    assert_eq!(render("nothing to fill", b"hi", "p", "sh"), "nothing to fill");
    assert_eq!(render("only { interp } here", b"hi", "p", "sh"), "only sh here");
    assert_eq!(render("", b"hi", "p", "sh"), "");
}

#[test]
fn render_matches_exactly() {
    assert_eq!(render("{ Pass } {pass} { pass} {  pass }", b"", "p", "sh"), "{ Pass } {pass} { pass} {  pass }");
    assert_eq!(render("{ INTERP }", b"", "p", "sh"), "{ INTERP }");
}

#[test]
fn render_replaces_one_occurrence_of_each() {
    assert_eq!(render("{ pass }{ pass }", b"", "p", "sh"), "p{ pass }");
    assert_eq!(render("{ interp } and { interp }", b"", "p", "sh"), "sh and { interp }");
    assert_eq!(render("{ script_code }{ script_code }", b"a", "p", "sh"), "vec![97]\n{ script_code }");
}

#[test]
fn render_embeds_the_bytes_as_given() {
    let out = render("{ script_code }", &[0xff, 0x00, 0x80], "", "");
    assert_eq!(out, "vec![255, 0, 128]\n");
}

#[test]
fn generate_renders_body_and_interpreter() {
    let out = generate(&"#!/bin/expect -f\nsend 1 2 3".to_string(), TEMPLATE, "pw");
    assert_eq!(
        out,
        "let code = vec![115, 101, 110, 100, 32, 49, 32, 50, 32, 51]\n;\nlet pass = \"pw\";\nlet interp = \"expect\";\n"
    );
    let out = generate(&"ls".to_string(), "{ interp }:{ pass }:{ script_code }", "");
    assert_eq!(out, "bash::vec![108, 115]\n");
}

#[test]
fn generate_embeds_the_utf8_bytes_of_the_body() {
    let out = generate(&"#!/bin/sh -e\n\u{00e9}".to_string(), "{ script_code }", "");
    assert_eq!(out, "vec![195, 169]\n");
}

#[test]
fn find_gives_the_first_position() {
    assert_eq!(find(&to_chars("hello"), &to_chars("l")), Some(2));
    assert_eq!(find(&to_chars("hello"), &to_chars("lo")), Some(3));
    assert_eq!(find(&to_chars("hello"), &to_chars("hello")), Some(0));
    assert_eq!(find(&to_chars("hello"), &to_chars("")), Some(0));
    assert_eq!(find(&to_chars("hello"), &to_chars("hello!")), None);
    assert_eq!(find(&to_chars("hello"), &to_chars("x")), None);
    assert_eq!(find(&to_chars("\u{00e9}\u{00e9}x"), &to_chars("x")), Some(2));
}

#[test]
fn to_chars_gives_the_characters() {
    assert_eq!(to_chars("a\u{00e9}\u{1f600}"), vec!['a', '\u{00e9}', '\u{1f600}']);
    assert_eq!(to_chars(""), Vec::<char>::new());
}

#[test]
fn find_from_starts_at_the_given_position() {
    assert_eq!(find_from(&to_chars("a-b-c"), &to_chars("-"), 0), Some(1));
    assert_eq!(find_from(&to_chars("a-b-c"), &to_chars("-"), 1), Some(1));
    assert_eq!(find_from(&to_chars("a-b-c"), &to_chars("-"), 2), Some(3));
    assert_eq!(find_from(&to_chars("a-b-c"), &to_chars("-"), 4), None);
    assert_eq!(find_from(&to_chars("a-b-c"), &to_chars("-"), 9), None);
    assert_eq!(find_from(&to_chars("abc"), &to_chars(""), 3), Some(3));
}

#[test]
fn strip_suffix_takes_the_end_off() {
    assert_eq!(strip_suffix_in("a.rs", ".rs"), "a");
    assert_eq!(strip_suffix_in("a.rs.rs", ".rs"), "a.rs");
    assert_eq!(strip_suffix_in("a.rsx", ".rs"), "a.rsx");
    assert_eq!(strip_suffix_in("rs", ".rs"), "rs");
    assert_eq!(strip_suffix_in("abc", ""), "abc");
    assert_eq!(strip_suffix_in("abc", "abc"), "");
    assert_eq!(strip_suffix_in("", "x"), "");
    assert_eq!(strip_suffix_in("h\u{00e9}llo", "llo"), "h\u{00e9}");
}

const PROGRAM: &str = "use std::process::Command;\n\nfn main() {\n    let script_code: Vec<u8> = { script_code };\n    let pass = \"{ pass }\";\n    let interp = \"{ interp }\";\n    if pass.is_empty() {\n        println!(\"{} {}\", interp, script_code.len());\n    }\n    let _ = Command::new(interp).status();\n}\n";

#[test]
fn rendering_a_program_leaves_no_placeholder() {
    for (script, pass, interp) in [
        (&b"echo hi\n"[..], "", "bash"),
        (&b""[..], "open sesame", "python3"),
        (&[0u8, 255, 123, 125][..], "pass", "expect"),
    ] {
        let out = render(PROGRAM, script, pass, interp);
        assert!(!out.contains(SCRIPT_PLACEHOLDER));
        assert!(!out.contains(PASS_PLACEHOLDER));
        assert!(!out.contains(INTERP_PLACEHOLDER));
        assert!(out.contains(&byte_array(script)));
        assert!(out.contains(&format!("let pass = \"{}\";", pass)));
        assert!(out.contains(&format!("let interp = \"{}\";", interp)));
        assert_eq!(
            out.len(),
            PROGRAM.len() - 15 - 8 - 10 + byte_array(script).len() + pass.len() + interp.len()
        );
    }
}

#[test]
fn values_are_not_searched() {
    assert_eq!(
        render("{ script_code }{ pass }{ interp }", b"", "{ interp }", "bash"),
        "vec![]\n{ interp }bash"
    );
    assert_eq!(render("{ pass } { interp }", b"", "{ interp }", "sh"), "{ interp } sh");
    assert_eq!(render("{ pass }|{ interp }", b"", "{ pass }", "{ script_code }"), "{ pass }|{ script_code }");
    assert_eq!(render("{ interp }{ pass }{ script_code }", b"a", "p", "i"), "ipvec![97]\n");
}

#[test]
fn value_with_an_opening_brace_can_leave_a_placeholder() {
    assert_eq!(render("{ pass }{ interp }", b"", "{ interp ", "}"), "{ interp }");
    assert_eq!(render("[{ pass }]", b"", "{ pass }", "sh"), "[{ pass }]");
}

#[test]
fn value_with_a_closing_brace_leaves_none() {
    let out = render(PROGRAM, b"ls", "}", "sh");
    assert!(!out.contains(SCRIPT_PLACEHOLDER));
    assert!(!out.contains(PASS_PLACEHOLDER));
    assert!(!out.contains(INTERP_PLACEHOLDER));
    assert!(out.contains("let pass = \"}\";"));
}

#[test]
fn template_that_begins_a_placeholder_before_one_can_leave_it() {
    assert_eq!(render("{ pa{ interp }s }", b"", "p", "s"), "{ pass }");
}

#[test]
fn different_bytes_are_written_differently() {
    assert_ne!(byte_array(&[1, 2]), byte_array(&[12]));
    assert_ne!(byte_array(&[1, 2]), byte_array(&[2, 1]));
    assert_ne!(byte_array(&[0]), byte_array(&[]));
    assert_ne!(byte_array(&[10]), byte_array(&[1, 0]));
}

#[test]
fn program_template_is_well_formed() {
    assert!(is_well_formed(PROGRAM_TEMPLATE));
    assert_eq!(PROGRAM_TEMPLATE.matches(SCRIPT_PLACEHOLDER).count(), 1);
    assert_eq!(PROGRAM_TEMPLATE.matches(PASS_PLACEHOLDER).count(), 1);
    assert_eq!(PROGRAM_TEMPLATE.matches(INTERP_PLACEHOLDER).count(), 1);
}

#[test]
fn program_template_renders_without_placeholders() {
    let out = generate(&"#!/bin/expect -f\nsend 1 2 3".to_string(), PROGRAM_TEMPLATE, "");
    assert!(!out.contains(SCRIPT_PLACEHOLDER));
    assert!(!out.contains(PASS_PLACEHOLDER));
    assert!(!out.contains(INTERP_PLACEHOLDER));
    assert!(out.contains("let script_code: &[u8] = &vec![115, 101, 110, 100, 32, 49, 32, 50, 32, 51]\n;"));
    assert!(out.contains("let pass = \"\";"));
    assert!(out.contains("let interp = \"expect\";"));
    assert_eq!(out.len(), PROGRAM_TEMPLATE.len() - 33 + 49 + 6);
}

#[test]
fn well_formed_templates_hold_each_placeholder_once() {
    assert!(is_well_formed(TEMPLATE));
    assert!(is_well_formed(PROGRAM));
    assert!(is_well_formed("{ interp }{ pass }{ script_code }"));
    assert!(is_well_formed("}{ pass }}{ script_code }}{ interp }{"));
    assert!(!is_well_formed(""));
    assert!(!is_well_formed("{ pass }{ interp }"));
    assert!(!is_well_formed("{ script_code }{ pass }"));
    assert!(!is_well_formed("{ script_code }{ interp }"));
    assert!(!is_well_formed("{ script_code }{ pass }{ interp }{ pass }"));
    assert!(!is_well_formed("{ script_code }{ script_code }{ pass }{ interp }"));
}

#[test]
fn well_formed_templates_begin_nothing_before_a_placeholder() {
    assert!(!is_well_formed("{ script_code } { pass } { pa{ interp }"));
    assert!(!is_well_formed("{{ script_code } { pass } { interp }"));
    assert!(!is_well_formed("{ script_code } { interp{ pass } { interp }"));
    assert!(!is_well_formed("{ script_code } { pas{ pass } { interp }"));
    assert!(is_well_formed("{ script_code } {x{ pass } { interp }"));
    assert!(is_well_formed("{ script_code } }{ pass } { interp }"));
}

#[test]
fn program_template_fences_its_placeholders() {
    for (pass, interp) in [("a{b", "sh"), ("{ interp ", "}"), ("{ pass", "}"), ("}", "{"), ("{ script_code", " }")] {
        let out = render(PROGRAM_TEMPLATE, b"ls", pass, interp);
        assert!(!out.contains(SCRIPT_PLACEHOLDER));
        assert!(!out.contains(PASS_PLACEHOLDER));
        assert!(!out.contains(INTERP_PLACEHOLDER));
        assert!(out.contains(&format!("let pass = \"{}\";", pass)));
        assert!(out.contains(&format!("let interp = \"{}\";", interp)));
    }
    assert!(PROGRAM_TEMPLATE.contains("&{ script_code };"));
    assert!(PROGRAM_TEMPLATE.contains("\"{ pass }\";"));
    assert!(PROGRAM_TEMPLATE.contains("\"{ interp }\";"));
}

#[test]
fn detected_interpreter_holds_no_white_space() {
    for text in ["#!/bin/a\u{00a0}b -x\nls", "#!/usr/bin/env  python3\t-u\nx", "#! { pass } x\nls", "ls"] {
        let (interp, _) = scriptbin::find_interp(&text.to_string());
        assert!(!interp.chars().any(char::is_whitespace), "{:?}", interp);
        assert!(!interp.contains(PASS_PLACEHOLDER));
    }
}
