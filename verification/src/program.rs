//! The text of the program that carries a script, and the proof that
//! rendering it leaves no placeholder behind.

use crate::codec::bytes_of;
use crate::detect::{detect, has_no_whitespace, lemma_interpreter_has_no_whitespace};
use crate::render::{rendered, INTERP_PLACEHOLDER, PASS_PLACEHOLDER, SCRIPT_PLACEHOLDER};
use crate::template::{
    fenced, fenced_at, holds_no_placeholder, is_foreign, lemma_fenced_is_well_formed,
    lemma_occurs_at_chars, lemma_placeholders_apart, lemma_render_of_fenced_leaves_no_placeholder,
    occurs_once, placeholder, well_formed,
};
use crate::text::occurs_at;
use vstd::prelude::*;

verus! {

/// The template of the program that carries a script. The program writes
/// the script's bytes to a temporary file and runs the interpreter on it,
/// with the arguments it was given itself; where a passphrase is set, it
/// asks for it first.
pub const PROGRAM_TEMPLATE: &'static str = r##"use std::io::Write;
use std::{env, fs, io, process};

fn main() {
    let script_code: &[u8] = &{ script_code };
    let pass = "{ pass }";
    let interp = "{ interp }";

    if !pass.is_empty() {
        print!("passphrase: ");
        io::stdout().flush().unwrap();
        let mut line = String::new();
        io::stdin().read_line(&mut line).unwrap();
        if line.trim_end_matches(&['\r', '\n'][..]) != pass {
            eprintln!("wrong passphrase");
            process::exit(1);
        }
    }

    let path = env::temp_dir().join(format!("script-{}", process::id()));
    fs::write(&path, script_code).expect("failed to write the script");
    let status = process::Command::new(interp).arg(&path).args(env::args().skip(1)).status();
    let _ = fs::remove_file(&path);
    process::exit(status.ok().and_then(|status| status.code()).unwrap_or(1));
}
"##;

/// Whether a placeholder could begin in `text` at `i`: an opening brace
/// stands there, and a space behind it.
spec fn opens_at(text: Seq<char>, i: int) -> bool {
    0 <= i && i + 1 < text.len() && text[i] == '{' && text[i + 1] == ' '
}

/// Whether no placeholder could begin in `text` from `from` up to `to`.
spec fn none_open_between(text: Seq<char>, from: int, to: int) -> bool
    decreases to - from,
{
    if from >= to {
        true
    } else {
        !opens_at(text, from) && none_open_between(text, from + 1, to)
    }
}

/// Where none could begin over a stretch, none begins at a position in it.
proof fn lemma_none_open(text: Seq<char>, from: int, to: int, i: int)
    requires
        none_open_between(text, from, to),
        from <= i < to,
    ensures
        !opens_at(text, i),
    decreases to - from,
{
    if from < i {
        lemma_none_open(text, from + 1, to, i);
    }
}

/// Where the placeholders stand in the template, what stands next to them,
/// and that nowhere else a placeholder could begin.
#[verifier::rlimit(100)]
proof fn lemma_program_template_read()
    ensures
        PROGRAM_TEMPLATE@.len() == 866,
        forall|i: int| opens_at(PROGRAM_TEMPLATE@, i) ==> i == 96 || i == 129 || i == 158,
        occurs_at(PROGRAM_TEMPLATE@, placeholder(0), 96),
        occurs_at(PROGRAM_TEMPLATE@, placeholder(1), 129),
        occurs_at(PROGRAM_TEMPLATE@, placeholder(2), 158),
        PROGRAM_TEMPLATE@[95] == '&',
        PROGRAM_TEMPLATE@[111] == ';',
        PROGRAM_TEMPLATE@[128] == '"',
        PROGRAM_TEMPLATE@[137] == '"',
        PROGRAM_TEMPLATE@[157] == '"',
        PROGRAM_TEMPLATE@[168] == '"',
{
    reveal_strlit(r##"use std::io::Write;
use std::{env, fs, io, process};

fn main() {
    let script_code: &[u8] = &{ script_code };
    let pass = "{ pass }";
    let interp = "{ interp }";

    if !pass.is_empty() {
        print!("passphrase: ");
        io::stdout().flush().unwrap();
        let mut line = String::new();
        io::stdin().read_line(&mut line).unwrap();
        if line.trim_end_matches(&['\r', '\n'][..]) != pass {
            eprintln!("wrong passphrase");
            process::exit(1);
        }
    }

    let path = env::temp_dir().join(format!("script-{}", process::id()));
    fs::write(&path, script_code).expect("failed to write the script");
    let status = process::Command::new(interp).arg(&path).args(env::args().skip(1)).status();
    let _ = fs::remove_file(&path);
    process::exit(status.ok().and_then(|status| status.code()).unwrap_or(1));
}
"##);
    reveal_strlit("{ script_code }");
    reveal_strlit("{ pass }");
    reveal_strlit("{ interp }");
    let text = PROGRAM_TEMPLATE@;
    assert(none_open_between(text, 0, 90)) by {
        reveal_with_fuel(none_open_between, 92);
    }
    assert(none_open_between(text, 90, 96)) by {
        reveal_with_fuel(none_open_between, 8);
    }
    assert(none_open_between(text, 97, 129)) by {
        reveal_with_fuel(none_open_between, 34);
    }
    assert(none_open_between(text, 130, 158)) by {
        reveal_with_fuel(none_open_between, 30);
    }
    assert(none_open_between(text, 159, 249)) by {
        reveal_with_fuel(none_open_between, 92);
    }
    assert(none_open_between(text, 249, 339)) by {
        reveal_with_fuel(none_open_between, 92);
    }
    assert(none_open_between(text, 339, 429)) by {
        reveal_with_fuel(none_open_between, 92);
    }
    assert(none_open_between(text, 429, 519)) by {
        reveal_with_fuel(none_open_between, 92);
    }
    assert(none_open_between(text, 519, 609)) by {
        reveal_with_fuel(none_open_between, 92);
    }
    assert(none_open_between(text, 609, 699)) by {
        reveal_with_fuel(none_open_between, 92);
    }
    assert(none_open_between(text, 699, 789)) by {
        reveal_with_fuel(none_open_between, 92);
    }
    assert(none_open_between(text, 789, 866)) by {
        reveal_with_fuel(none_open_between, 79);
    }
    assert forall|i: int| opens_at(text, i) implies i == 96 || i == 129 || i == 158 by {
        if i != 96 && i != 129 && i != 158 {
            if 0 <= i < 90 {
                lemma_none_open(text, 0, 90, i);
            }             else if 90 <= i < 96 {
                lemma_none_open(text, 90, 96, i);
            }             else if 97 <= i < 129 {
                lemma_none_open(text, 97, 129, i);
            }             else if 130 <= i < 158 {
                lemma_none_open(text, 130, 158, i);
            }             else if 159 <= i < 249 {
                lemma_none_open(text, 159, 249, i);
            }             else if 249 <= i < 339 {
                lemma_none_open(text, 249, 339, i);
            }             else if 339 <= i < 429 {
                lemma_none_open(text, 339, 429, i);
            }             else if 429 <= i < 519 {
                lemma_none_open(text, 429, 519, i);
            }             else if 519 <= i < 609 {
                lemma_none_open(text, 519, 609, i);
            }             else if 609 <= i < 699 {
                lemma_none_open(text, 609, 699, i);
            }             else if 699 <= i < 789 {
                lemma_none_open(text, 699, 789, i);
            }             else if 789 <= i < 866 {
                lemma_none_open(text, 789, 866, i);
            }
        }
    }
    assert(text.subrange(96, 111) =~= placeholder(0));
    assert(text.subrange(129, 137) =~= placeholder(1));
    assert(text.subrange(158, 168) =~= placeholder(2));
}

/// A placeholder stands in the template only where it is meant to.
proof fn lemma_program_template_slots(k: int, b: int)
    requires
        0 <= k < 3,
        occurs_at(PROGRAM_TEMPLATE@, placeholder(k), b),
    ensures
        b == if k == 0 {
            96int
        } else if k == 1 {
            129int
        } else {
            158int
        },
{
    let text = PROGRAM_TEMPLATE@;
    lemma_program_template_read();
    reveal_strlit("{ script_code }");
    reveal_strlit("{ pass }");
    reveal_strlit("{ interp }");
    lemma_occurs_at_chars(text, placeholder(k), b);
    assert(text[b + 0] == placeholder(k)[0]);
    assert(text[b + 1] == placeholder(k)[1]);
    assert(opens_at(text, b));
    let j = if b == 96 {
        0int
    } else if b == 129 {
        1int
    } else {
        2int
    };
    lemma_placeholders_apart(text, k, b, j, b);
}

/// The template is fenced: each placeholder stands in it once, between
/// characters that no placeholder holds.
pub proof fn lemma_program_template_is_fenced()
    ensures
        fenced(PROGRAM_TEMPLATE@),
{
    let text = PROGRAM_TEMPLATE@;
    lemma_program_template_read();
    reveal_strlit("{ script_code }");
    reveal_strlit("{ pass }");
    reveal_strlit("{ interp }");
    assert(is_foreign('&') && is_foreign(';') && is_foreign('"'));
    assert forall|k: int, b: int|
        0 <= k < 3 && #[trigger] occurs_at(text, placeholder(k), b) implies fenced_at(
        text,
        k,
        b,
    ) by {
        lemma_program_template_slots(k, b);
    }
    assert(occurs_once(text, placeholder(0))) by {
        assert forall|b: int| occurs_at(text, placeholder(0), b) implies b == 96 by {
            lemma_program_template_slots(0, b);
        }
    }
    assert(occurs_once(text, placeholder(1))) by {
        assert forall|b: int| occurs_at(text, placeholder(1), b) implies b == 129 by {
            lemma_program_template_slots(1, b);
        }
    }
    assert(occurs_once(text, placeholder(2))) by {
        assert forall|b: int| occurs_at(text, placeholder(2), b) implies b == 158 by {
            lemma_program_template_slots(2, b);
        }
    }
}

/// The template is well formed.
pub proof fn lemma_program_template_is_well_formed()
    ensures
        well_formed(PROGRAM_TEMPLATE@),
{
    lemma_program_template_is_fenced();
    lemma_fenced_is_well_formed(PROGRAM_TEMPLATE@);
}

/// A text without white space holds no placeholder: each placeholder has a
/// space.
proof fn lemma_no_whitespace_holds_no_placeholder(text: Seq<char>)
    requires
        has_no_whitespace(text),
    ensures
        holds_no_placeholder(text),
{
    reveal_strlit("{ script_code }");
    reveal_strlit("{ pass }");
    reveal_strlit("{ interp }");
    assert forall|k: int, b: int| 0 <= k < 3 implies !occurs_at(text, placeholder(k), b) by {
        if occurs_at(text, placeholder(k), b) {
            lemma_occurs_at_chars(text, placeholder(k), b);
            assert(text[b + 1] == placeholder(k)[1]);
        }
    }
    assert(placeholder(0) == SCRIPT_PLACEHOLDER@);
    assert(placeholder(1) == PASS_PLACEHOLDER@);
    assert(placeholder(2) == INTERP_PLACEHOLDER@);
}

/// The program text generated for a script from the template holds none of
/// the three placeholders, whatever the script, as long as the passphrase
/// holds none.
pub proof fn lemma_generated_program_holds_no_placeholder(content: Seq<char>, pass: Seq<char>)
    requires
        holds_no_placeholder(pass),
    ensures
        holds_no_placeholder(
            rendered(PROGRAM_TEMPLATE@, bytes_of(detect(content).1), pass, detect(content).0),
        ),
{
    lemma_program_template_is_fenced();
    lemma_interpreter_has_no_whitespace(content);
    lemma_no_whitespace_holds_no_placeholder(detect(content).0);
    lemma_render_of_fenced_leaves_no_placeholder(
        PROGRAM_TEMPLATE@,
        bytes_of(detect(content).1),
        pass,
        detect(content).0,
    );
}

} // verus!
