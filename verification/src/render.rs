//! The template renderer: the program text that carries a script, made from
//! a template by putting the script's bytes, a passphrase and the
//! interpreter's name in the place of three placeholders.

use crate::codec::bytes_of;
use crate::detect::{detect, find_interp};
use crate::text::{find, first_occurrence, lemma_first_occurrence, to_chars};
use vstd::prelude::*;
use vstd::string::StrSliceExecFns;
use vstd::string::StringExecFns;

verus! {

/// Stands in a template where the script's bytes go.
pub const SCRIPT_PLACEHOLDER: &'static str = "{ script_code }";

/// Stands in a template where the passphrase goes.
pub const PASS_PLACEHOLDER: &'static str = "{ pass }";

/// Stands in a template where the interpreter's name goes.
pub const INTERP_PLACEHOLDER: &'static str = "{ interp }";

/// The character that writes the digit `d`.
pub open spec fn digit(d: int) -> char {
    (0x30 + d) as char
}

/// The decimal numeral of `b`, without leading zeros.
pub open spec fn decimal(b: u8) -> Seq<char> {
    let n = b as int;
    if n < 10 {
        seq![digit(n)]
    } else if n < 100 {
        seq![digit(n / 10), digit(n % 10)]
    } else {
        seq![digit(n / 100), digit(n / 10 % 10), digit(n % 10)]
    }
}

/// The decimal numerals of `bytes` in order, separated by a comma and a
/// space.
pub open spec fn byte_list(bytes: Seq<u8>) -> Seq<char>
    decreases bytes.len(),
{
    if bytes.len() == 0 {
        Seq::empty()
    } else if bytes.len() == 1 {
        decimal(bytes[0])
    } else {
        byte_list(bytes.drop_last()) + ", "@ + decimal(bytes.last())
    }
}

/// The expression that stands for `bytes` in the program text: their list
/// in square brackets behind `vec!`, and a line break after it.
pub open spec fn byte_array_text(bytes: Seq<u8>) -> Seq<char> {
    "vec!["@ + byte_list(bytes) + "]\n"@
}

/// What rendering makes of `template` from position `from` on. At the
/// first occurrence in the template of a placeholder stands its value: the
/// expression for the script's bytes, the passphrase, or the interpreter's
/// name. Every other character of the template stands as it is.
pub open spec fn filled(
    template: Seq<char>,
    from: int,
    script: Seq<u8>,
    pass: Seq<char>,
    interp: Seq<char>,
) -> Seq<char>
    decreases template.len() - from,
    via filled_decreases
{
    if from < 0 || from >= template.len() {
        Seq::empty()
    } else if first_occurrence(template, SCRIPT_PLACEHOLDER@) == Some(from) {
        byte_array_text(script) + filled(
            template,
            from + SCRIPT_PLACEHOLDER@.len(),
            script,
            pass,
            interp,
        )
    } else if first_occurrence(template, PASS_PLACEHOLDER@) == Some(from) {
        pass + filled(template, from + PASS_PLACEHOLDER@.len(), script, pass, interp)
    } else if first_occurrence(template, INTERP_PLACEHOLDER@) == Some(from) {
        interp + filled(template, from + INTERP_PLACEHOLDER@.len(), script, pass, interp)
    } else {
        seq![template[from]] + filled(template, from + 1, script, pass, interp)
    }
}

#[via_fn]
proof fn filled_decreases(
    template: Seq<char>,
    from: int,
    script: Seq<u8>,
    pass: Seq<char>,
    interp: Seq<char>,
) {
    reveal_strlit("{ script_code }");
    reveal_strlit("{ pass }");
    reveal_strlit("{ interp }");
    lemma_first_occurrence(template, SCRIPT_PLACEHOLDER@);
    lemma_first_occurrence(template, PASS_PLACEHOLDER@);
    lemma_first_occurrence(template, INTERP_PLACEHOLDER@);
}

/// The program text made from `template`: the first occurrence in the
/// template of each placeholder replaced by its value, and nothing else
/// changed. The values are not searched, and a placeholder that the
/// template does not hold changes nothing.
pub open spec fn rendered(
    template: Seq<char>,
    script: Seq<u8>,
    pass: Seq<char>,
    interp: Seq<char>,
) -> Seq<char> {
    filled(template, 0, script, pass, interp)
}

/// Whether a placeholder has its first occurrence in `template` at `at`.
pub open spec fn is_slot(template: Seq<char>, at: int) -> bool {
    ||| first_occurrence(template, SCRIPT_PLACEHOLDER@) == Some(at)
    ||| first_occurrence(template, PASS_PLACEHOLDER@) == Some(at)
    ||| first_occurrence(template, INTERP_PLACEHOLDER@) == Some(at)
}

/// A stretch of the template in which no placeholder has its first
/// occurrence is rendered as it is.
pub proof fn lemma_filled_plain(
    template: Seq<char>,
    from: int,
    to: int,
    script: Seq<u8>,
    pass: Seq<char>,
    interp: Seq<char>,
)
    requires
        0 <= from <= to <= template.len(),
        forall|i: int| from <= i < to ==> !is_slot(template, i),
    ensures
        filled(template, from, script, pass, interp) == template.subrange(from, to) + filled(
            template,
            to,
            script,
            pass,
            interp,
        ),
    decreases to - from,
{
    if from < to {
        assert(!is_slot(template, from));
        lemma_filled_plain(template, from + 1, to, script, pass, interp);
        assert(seq![template[from]] + template.subrange(from + 1, to) =~= template.subrange(
            from,
            to,
        ));
    } else {
        assert(template.subrange(from, to) =~= Seq::<char>::empty());
    }
}

/// The text of one digit.
fn digit_text(d: u8) -> (text: &'static str)
    requires
        d < 10,
    ensures
        text@ == seq![digit(d as int)],
{
    proof {
        reveal_strlit("0");
        reveal_strlit("1");
        reveal_strlit("2");
        reveal_strlit("3");
        reveal_strlit("4");
        reveal_strlit("5");
        reveal_strlit("6");
        reveal_strlit("7");
        reveal_strlit("8");
        reveal_strlit("9");
    }
    let text = match d {
        0 => "0",
        1 => "1",
        2 => "2",
        3 => "3",
        4 => "4",
        5 => "5",
        6 => "6",
        7 => "7",
        8 => "8",
        _ => "9",
    };
    assert(text@ =~= seq![digit(d as int)]);
    text
}

/// Writes the decimal numeral of `b` at the end of `out`.
fn append_decimal(out: &mut String, b: u8)
    ensures
        final(out)@ == old(out)@ + decimal(b),
{
    if b >= 100 {
        out.append(digit_text(b / 100));
    }
    if b >= 10 {
        out.append(digit_text(b / 10 % 10));
    }
    out.append(digit_text(b % 10));
    assert(out@ =~= old(out)@ + decimal(b));
}

/// Writes `bytes` as the expression that stands for them in the program
/// text.
pub fn byte_array(bytes: &[u8]) -> (out: String)
    ensures
        out@ == byte_array_text(bytes@),
{
    let mut out = "vec![".to_owned();
    let mut i: usize = 0;
    assert(out@ =~= "vec!["@ + byte_list(bytes@.take(0)));
    while i < bytes.len()
        invariant
            i <= bytes.len(),
            out@ == "vec!["@ + byte_list(bytes@.take(i as int)),
        decreases bytes.len() - i,
    {
        let ghost before = bytes@.take(i as int);
        let ghost now = bytes@.take(i + 1);
        assert(now.drop_last() =~= before);
        assert(now.last() == bytes@[i as int]);
        if i > 0 {
            out.append(", ");
        }
        append_decimal(&mut out, bytes[i]);
        assert(out@ =~= "vec!["@ + byte_list(now));
        i += 1;
    }
    assert(bytes@.take(bytes.len() as int) =~= bytes@);
    out.append("]\n");
    out
}

/// Whether `found` is the position `at`.
fn is_at(found: Option<usize>, at: usize) -> (b: bool)
    ensures
        b == (found == Some(at)),
{
    match found {
        Some(x) => x == at,
        None => false,
    }
}

/// The nearer to `from` of `best` and `found`, counting only positions at
/// or after `from`.
fn nearer(from: usize, best: Option<usize>, found: Option<usize>) -> (r: Option<usize>)
    requires
        best matches Some(m) ==> m >= from,
    ensures
        r matches Some(m) ==> m >= from && (best == Some(m) || found == Some(m)),
        r matches Some(m) ==> (best matches Some(x) ==> m <= x),
        r matches Some(m) ==> (found matches Some(x) ==> x < from || m <= x),
        r is None ==> best is None && (found matches Some(x) ==> x < from),
{
    match found {
        Some(x) => {
            if x < from {
                best
            } else {
                match best {
                    Some(m) => if m <= x {
                        best
                    } else {
                        found
                    },
                    None => found,
                }
            }
        },
        None => best,
    }
}

/// Renders the program text from `template`.
///
/// Where [`SCRIPT_PLACEHOLDER`] first stands in the template, the bytes of
/// `script` are written as [`byte_array`] writes them; where
/// [`PASS_PLACEHOLDER`] first stands, `pass`; where [`INTERP_PLACEHOLDER`]
/// first stands, `interp`. Everything else in the template is kept, the
/// values are not searched, and a placeholder that the template does not
/// hold is passed over.
pub fn render(template: &str, script: &[u8], pass: &str, interp: &str) -> (out: String)
    ensures
        out@ == rendered(template@, script@, pass@, interp@),
{
    let chars = to_chars(template);
    let script_mark = to_chars(SCRIPT_PLACEHOLDER);
    let pass_mark = to_chars(PASS_PLACEHOLDER);
    let interp_mark = to_chars(INTERP_PLACEHOLDER);
    let at_script = find(&chars, &script_mark);
    let at_pass = find(&chars, &pass_mark);
    let at_interp = find(&chars, &interp_mark);
    let payload = byte_array(script);
    let mut out = String::new();
    let mut from: usize = 0;
    proof {
        reveal_strlit("{ script_code }");
        reveal_strlit("{ pass }");
        reveal_strlit("{ interp }");
    }
    loop
        invariant
            from <= chars.len(),
            chars@ == template@,
            payload@ == byte_array_text(script@),
            script_mark@ == SCRIPT_PLACEHOLDER@,
            pass_mark@ == PASS_PLACEHOLDER@,
            interp_mark@ == INTERP_PLACEHOLDER@,
            script_mark.len() > 0 && pass_mark.len() > 0 && interp_mark.len() > 0,
            at_script matches Some(at) ==> at + script_mark.len() <= chars.len(),
            at_pass matches Some(at) ==> at + pass_mark.len() <= chars.len(),
            at_interp matches Some(at) ==> at + interp_mark.len() <= chars.len(),
            forall|at: usize|
                (at_script == Some(at)) == (first_occurrence(template@, SCRIPT_PLACEHOLDER@)
                    == Some(at as int)),
            forall|at: usize|
                (at_pass == Some(at)) == (first_occurrence(template@, PASS_PLACEHOLDER@) == Some(
                    at as int,
                )),
            forall|at: usize|
                (at_interp == Some(at)) == (first_occurrence(template@, INTERP_PLACEHOLDER@)
                    == Some(at as int)),
            rendered(template@, script@, pass@, interp@) == out@ + filled(
                template@,
                from as int,
                script@,
                pass@,
                interp@,
            ),
        decreases chars.len() - from,
    {
        let next = nearer(from, nearer(from, nearer(from, None, at_script), at_pass), at_interp);
        let ghost before = out@;
        let ghost rest = filled(template@, from as int, script@, pass@, interp@);
        match next {
            None => {
                proof {
                    assert forall|i: int| from <= i < chars.len() implies !is_slot(
                        template@,
                        i,
                    ) by {
                        let at = i as usize;
                        assert(at_script != Some(at) && at_pass != Some(at) && at_interp != Some(
                            at,
                        ));
                    }
                    lemma_filled_plain(
                        template@,
                        from as int,
                        chars.len() as int,
                        script@,
                        pass@,
                        interp@,
                    );
                }
                out.append(template.substring_char(from, chars.len()));
                assert(out@ =~= before + rest);
                return out;
            },
            Some(at) => {
                proof {
                    assert forall|i: int| from <= i < at implies !is_slot(template@, i) by {
                        let x = i as usize;
                        assert(at_script != Some(x) && at_pass != Some(x) && at_interp != Some(x));
                    }
                    lemma_filled_plain(template@, from as int, at as int, script@, pass@, interp@);
                }
                out.append(template.substring_char(from, at));
                let ghost kept = template@.subrange(from as int, at as int);
                let ghost here = filled(template@, at as int, script@, pass@, interp@);
                assert(rest == kept + here);
                if is_at(at_script, at) {
                    out.append(payload.as_str());
                    from = at + script_mark.len();
                } else if is_at(at_pass, at) {
                    out.append(pass);
                    from = at + pass_mark.len();
                } else {
                    out.append(interp);
                    from = at + interp_mark.len();
                }
                assert(out@ + filled(template@, from as int, script@, pass@, interp@) =~= before
                    + rest);
            },
        }
    }
}

/// Generates the program text for the script `content`: finds its
/// interpreter, and renders `template` with the bytes of the script's body,
/// `pass` and the interpreter's name.
pub fn generate(content: &String, template: &str, pass: &str) -> (out: String)
    ensures
        out@ == rendered(
            template@,
            bytes_of(detect(content@).1),
            pass@,
            detect(content@).0,
        ),
{
    let (interp, body) = find_interp(content);
    render(template, body.as_str().as_bytes(), pass, interp.as_str())
}

/// Whether `c` writes a digit.
spec fn is_digit(c: char) -> bool {
    0x30 <= c as u32 <= 0x39
}

/// A numeral has one to three characters, all of them digits.
proof fn lemma_decimal_digits(b: u8)
    ensures
        1 <= decimal(b).len() <= 3,
        forall|i: int| 0 <= i < decimal(b).len() ==> is_digit(#[trigger] decimal(b)[i]),
{
}

/// Two bytes with one numeral are one byte.
proof fn lemma_decimal_determines_byte(a: u8, b: u8)
    requires
        decimal(a) == decimal(b),
    ensures
        a == b,
{
    let x = a as int;
    let y = b as int;
    let d = decimal(a);
    let e = decimal(b);
    assert(d.len() == if x < 10 { 1nat } else if x < 100 { 2nat } else { 3nat });
    assert(e.len() == if y < 10 { 1nat } else if y < 100 { 2nat } else { 3nat });
    if x < 10 {
        assert(y < 10);
        assert(d[0] == digit(x) && e[0] == digit(y));
    } else if x < 100 {
        assert(10 <= y < 100);
        assert(d[0] == digit(x / 10) && e[0] == digit(y / 10));
        assert(d[1] == digit(x % 10) && e[1] == digit(y % 10));
    } else {
        assert(100 <= y);
        assert(d[0] == digit(x / 100) && e[0] == digit(y / 100));
        assert(d[1] == digit(x / 10 % 10) && e[1] == digit(y / 10 % 10));
        assert(d[2] == digit(x % 10) && e[2] == digit(y % 10));
    }
}

/// How a list of one byte or more ends: with the numeral of its last byte,
/// which a longer list sets off from the bytes before by a comma and a
/// space.
proof fn lemma_byte_list_end(bytes: Seq<u8>)
    requires
        bytes.len() >= 1,
    ensures
        ({
            let text = byte_list(bytes);
            let last = decimal(bytes.last());
            let cut = text.len() - last.len();
            &&& cut >= 0
            &&& text.skip(cut) == last
            &&& bytes.len() == 1 ==> cut == 0
            &&& bytes.len() >= 2 ==> cut >= 2 && text[cut - 1] == ' ' && text.take(cut)
                == byte_list(bytes.drop_last()) + ", "@
        }),
{
    reveal_strlit(", ");
    let text = byte_list(bytes);
    let last = decimal(bytes.last());
    let cut = text.len() - last.len();
    if bytes.len() == 1 {
        assert(text.skip(cut) =~= last);
    } else {
        let front = byte_list(bytes.drop_last()) + ", "@;
        assert(text == front + last);
        assert(text.skip(cut) =~= last);
        assert(text.take(cut) =~= front);
        assert(text[cut - 1] == front[front.len() - 1]);
    }
}

/// Two lists of bytes that are written alike are one list.
proof fn lemma_byte_list_determines_bytes(a: Seq<u8>, b: Seq<u8>)
    requires
        byte_list(a) == byte_list(b),
    ensures
        a == b,
    decreases a.len(),
{
    reveal_strlit(", ");
    let text = byte_list(a);
    if a.len() == 0 || b.len() == 0 {
        if a.len() > 0 {
            lemma_byte_list_end(a);
            lemma_decimal_digits(a.last());
        }
        if b.len() > 0 {
            lemma_byte_list_end(b);
            lemma_decimal_digits(b.last());
        }
        assert(a =~= b);
    } else {
        lemma_byte_list_end(a);
        lemma_byte_list_end(b);
        lemma_decimal_digits(a.last());
        lemma_decimal_digits(b.last());
        let da = decimal(a.last());
        let db = decimal(b.last());
        let cut_a = text.len() - da.len();
        let cut_b = text.len() - db.len();
        if cut_a < cut_b {
            // The space that ends the front of `b` would stand in the numeral of `a`.
            assert(text.skip(cut_a)[cut_b - 1 - cut_a] == text[cut_b - 1]);
            assert(is_digit(da[cut_b - 1 - cut_a]));
        } else if cut_b < cut_a {
            assert(text.skip(cut_b)[cut_a - 1 - cut_b] == text[cut_a - 1]);
            assert(is_digit(db[cut_a - 1 - cut_b]));
        }
        assert(cut_a == cut_b);
        lemma_decimal_determines_byte(a.last(), b.last());
        if a.len() >= 2 && b.len() >= 2 {
            let fa = byte_list(a.drop_last());
            let fb = byte_list(b.drop_last());
            assert(fa + ", "@ == fb + ", "@);
            assert(fa =~= (fa + ", "@).take(fa.len() as int));
            assert(fb =~= (fb + ", "@).take(fb.len() as int));
            assert((fa + ", "@).len() == fa.len() + 2);
            assert((fb + ", "@).len() == fb.len() + 2);
            lemma_byte_list_determines_bytes(a.drop_last(), b.drop_last());
        }
        assert(a.len() == b.len());
        assert(a =~= a.drop_last().push(a.last()));
        assert(b =~= b.drop_last().push(b.last()));
    }
}

/// The expression written for a script determines its bytes, their values
/// and their order: two scripts with one expression are one script.
pub proof fn lemma_byte_array_text_determines_bytes(a: Seq<u8>, b: Seq<u8>)
    requires
        byte_array_text(a) == byte_array_text(b),
    ensures
        a == b,
{
    reveal_strlit("vec![");
    reveal_strlit("]\n");
    let la = byte_list(a);
    let lb = byte_list(b);
    let ta = byte_array_text(a);
    let tb = byte_array_text(b);
    assert(ta.len() == 5 + la.len() + 2);
    assert(tb.len() == 5 + lb.len() + 2);
    assert(la =~= ta.subrange(5, 5 + la.len() as int));
    assert(lb =~= tb.subrange(5, 5 + lb.len() as int));
    lemma_byte_list_determines_bytes(a, b);
}

} // verus!
