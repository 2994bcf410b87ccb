use scriptbin::detect::is_space;
use scriptbin::{find_interp, DEFAULT_INTERPRETER};

#[test]
fn test_find_interp() {
    let text = String::from("#!/bin/expect -f\nsend 1 2 3");
    let (interp, _) = find_interp(&text);
    println!("interp: {}", interp);
    assert!(interp == "expect");

    let text = String::from("#!/bin/bash -f\nsend 1 2 3");
    let (interp, _) = find_interp(&text);
    println!("interp: {}", interp);
    assert!(interp == "bash");

    let text = String::from("#!/bash -f\nsend 1 2 3");
    let (interp, _) = find_interp(&text);
    println!("interp: {}", interp);
    assert!(interp == "bash");

    let text = String::from("send 1 2 3");
    let (interp, _) = find_interp(&text);
    println!("interp: {}", interp);
    assert!(interp == "bash");
}

fn detect(text: &str) -> (String, String) {
    find_interp(&text.to_string())
}

fn pair(interp: &str, body: &str) -> (String, String) {
    (interp.to_string(), body.to_string())
}

#[test]
fn directive_line_is_taken_off_the_body() {
    assert_eq!(detect("#!/bin/expect -f\nsend 1 2 3"), pair("expect", "send 1 2 3"));
    assert_eq!(detect("#!/bin/bash -f\nsend 1 2 3"), pair("bash", "send 1 2 3"));
    assert_eq!(detect("#!/bash -f\nsend 1 2 3"), pair("bash", "send 1 2 3"));
}

#[test]
fn text_without_marker_is_unchanged() {
    assert_eq!(detect("send 1 2 3"), pair("bash", "send 1 2 3"));
    assert_eq!(detect("echo hi\n#!/bin/sh -e\n"), pair("bash", "echo hi\n#!/bin/sh -e\n"));
    assert_eq!(detect(" #!/bin/sh -e\nls"), pair("bash", " #!/bin/sh -e\nls"));
    assert_eq!(detect("#"), pair("bash", "#"));
    assert_eq!(detect("!#/bin/sh -e\nls"), pair("bash", "!#/bin/sh -e\nls"));
}

#[test]
fn empty_text_names_the_default() {
    assert_eq!(detect(""), pair("bash", ""));
    assert_eq!(DEFAULT_INTERPRETER, "bash");
}

#[test]
fn short_directive_falls_back_and_keeps_the_text() {
    assert_eq!(detect("#!/bin/bash\necho hi"), pair("bash", "#!/bin/bash\necho hi"));
    assert_eq!(detect("#!/usr/bin/python3\nprint(1)"), pair("bash", "#!/usr/bin/python3\nprint(1)"));
    assert_eq!(detect("#!"), pair("bash", "#!"));
    assert_eq!(detect("#!\n/bin/sh -e"), pair("bash", "#!\n/bin/sh -e"));
    assert_eq!(detect("#!   \nls"), pair("bash", "#!   \nls"));
}

#[test]
fn second_to_last_word_names_the_interpreter() {
    assert_eq!(detect("#!/usr/bin/env python3 -u\nprint(1)\n"), pair("python3", "print(1)\n"));
    assert_eq!(detect("#!/usr/bin/env python3\nprint(1)"), pair("env", "print(1)"));
    assert_eq!(detect("#!/a/b/c/tool -x -y -z\nrest"), pair("-y", "rest"));
    assert_eq!(detect("#! /bin/sh\nls"), pair("#!", "ls"));
}

#[test]
fn directories_are_stripped() {
    assert_eq!(detect("#!/usr/local/bin/perl -w\n1;"), pair("perl", "1;"));
    assert_eq!(detect("#!perl -w\n1;"), pair("#!perl", "1;"));
    assert_eq!(detect("#!/usr/bin/ -w\n1;"), pair("", "1;"));
    assert_eq!(detect("#!./tools//run -w\n1;"), pair("run", "1;"));
}

#[test]
fn any_white_space_separates_words() {
    assert_eq!(detect("#!/bin/bash\t-f\nls"), pair("bash", "ls"));
    assert_eq!(detect("#!/bin/bash   -f\nls"), pair("bash", "ls"));
    assert_eq!(detect("#!/bin/bash -f  \nls"), pair("bash", "ls"));
    assert_eq!(detect("#!/bin/bash -f\r\nls\r\n"), pair("bash", "ls\r\n"));
    assert_eq!(detect("#!/bin/bash\u{00a0}-f\nls"), pair("bash", "ls"));
    assert_eq!(detect("#!/bin/bash\u{3000}-f\nls"), pair("bash", "ls"));
    assert_eq!(detect("#!/bin/bash\u{200b}-f\nls"), pair("bash", "#!/bin/bash\u{200b}-f\nls"));
}

#[test]
fn body_is_what_follows_the_first_line_break() {
    assert_eq!(detect("#!/bin/sh -e"), pair("sh", ""));
    assert_eq!(detect("#!/bin/sh -e\n"), pair("sh", ""));
    assert_eq!(detect("#!/bin/sh -e\n\n"), pair("sh", "\n"));
    assert_eq!(detect("#!/bin/sh -e\na\nb\nc\n"), pair("sh", "a\nb\nc\n"));
    assert_eq!(detect("#!/bin/sh -e\n#!/bin/zsh -x\nls"), pair("sh", "#!/bin/zsh -x\nls"));
}

#[test]
fn text_beyond_ascii_is_kept() {
    assert_eq!(
        detect("#!/opt/\u{00e9}t\u{00e9}/interpr\u{00e8}te -v\n\u{4f60}\u{597d} \u{1f600}\n"),
        pair("interpr\u{00e8}te", "\u{4f60}\u{597d} \u{1f600}\n")
    );
    assert_eq!(detect("\u{4f60}\u{597d}"), pair("bash", "\u{4f60}\u{597d}"));
}

#[test]
fn white_space_is_what_unicode_marks() {
    let mut c = 0u32;
    while c <= 0x10FFFF {
        if let Some(ch) = char::from_u32(c) {
            assert_eq!(is_space(ch), ch.is_whitespace(), "U+{:04X}", c);
        }
        c += 1;
    }
}
