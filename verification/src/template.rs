//! Templates: when one is well formed or fenced, how to tell, and what
//! rendering then leaves of its placeholders and makes of the script's
//! bytes.

use crate::render::{
    byte_array_text, byte_list, decimal, filled, is_slot, lemma_filled_plain, rendered,
    INTERP_PLACEHOLDER, PASS_PLACEHOLDER, SCRIPT_PLACEHOLDER,
};
use crate::text::{
    find, find_from, first_occurrence, lemma_first_occurrence, lemma_search_from, occurs,
    occurs_at, to_chars,
};
use vstd::prelude::*;

verus! {

/// The placeholders in the order in which they are replaced: the script's,
/// the passphrase's, the interpreter's.
pub open spec fn placeholder(k: int) -> Seq<char> {
    if k == 0 {
        SCRIPT_PLACEHOLDER@
    } else if k == 1 {
        PASS_PLACEHOLDER@
    } else {
        INTERP_PLACEHOLDER@
    }
}

/// The value that stands for placeholder `k` in the program text: the
/// expression for the script's bytes, the passphrase, the interpreter's
/// name.
pub open spec fn value(k: int, script: Seq<u8>, pass: Seq<char>, interp: Seq<char>) -> Seq<char> {
    if k == 0 {
        byte_array_text(script)
    } else if k == 1 {
        pass
    } else {
        interp
    }
}

/// Whether `text` holds no opening brace, the character that every
/// placeholder begins with.
pub open spec fn opens_nothing(text: Seq<char>) -> bool {
    forall|i: int| 0 <= i < text.len() ==> #[trigger] text[i] != '{'
}

/// Whether `pattern` stands in `text` at one position and at no other.
pub open spec fn occurs_once(text: Seq<char>, pattern: Seq<char>) -> bool {
    exists|at: int|
        #[trigger] occurs_at(text, pattern, at) && forall|b: int|
            occurs_at(text, pattern, b) ==> b == at
}

/// Whether the `n` characters of `text` right before position `at` are the
/// first `n` of a placeholder, and not all of it: a placeholder was begun
/// there and not ended.
pub open spec fn begun_before(text: Seq<char>, at: int, k: int, n: int) -> bool {
    &&& 0 <= k < 3
    &&& 0 < n < placeholder(k).len()
    &&& n <= at <= text.len()
    &&& text.subrange(at - n, at) == placeholder(k).take(n)
}

/// Whether no placeholder was begun and not ended right before position `at`
/// of `text`.
pub open spec fn clean_before(text: Seq<char>, at: int) -> bool {
    forall|k: int, n: int| !#[trigger] begun_before(text, at, k, n)
}

/// A template is well formed when each of the three placeholders stands in
/// it exactly once, and none of them directly follows the beginning of a
/// placeholder.
pub open spec fn well_formed(template: Seq<char>) -> bool {
    &&& occurs_once(template, SCRIPT_PLACEHOLDER@)
    &&& occurs_once(template, PASS_PLACEHOLDER@)
    &&& occurs_once(template, INTERP_PLACEHOLDER@)
    &&& forall|k: int, at: int|
        0 <= k < 3 && #[trigger] occurs_at(template, placeholder(k), at) ==> clean_before(
            template,
            at,
        )
}

/// Whether `c` stands in none of the placeholders.
pub open spec fn is_foreign(c: char) -> bool {
    !placeholder(0).contains(c) && !placeholder(1).contains(c) && !placeholder(2).contains(c)
}

/// Whether placeholder `k`, standing in `template` at `at`, is fenced in: a
/// character that no placeholder holds stands right before it, unless it
/// begins the template, and one right after it, unless it ends the
/// template.
pub open spec fn fenced_at(template: Seq<char>, k: int, at: int) -> bool {
    &&& at == 0 || is_foreign(template[at - 1])
    &&& at + placeholder(k).len() == template.len() || is_foreign(
        template[at + placeholder(k).len()],
    )
}

/// A template is fenced when each of the three placeholders stands in it
/// exactly once, fenced in on both sides. A fenced template is well formed.
pub open spec fn fenced(template: Seq<char>) -> bool {
    &&& occurs_once(template, SCRIPT_PLACEHOLDER@)
    &&& occurs_once(template, PASS_PLACEHOLDER@)
    &&& occurs_once(template, INTERP_PLACEHOLDER@)
    &&& forall|k: int, at: int|
        0 <= k < 3 && #[trigger] occurs_at(template, placeholder(k), at) ==> fenced_at(
            template,
            k,
            at,
        )
}

/// Whether none of the placeholders stands in `text`.
pub open spec fn holds_no_placeholder(text: Seq<char>) -> bool {
    &&& !occurs(text, SCRIPT_PLACEHOLDER@)
    &&& !occurs(text, PASS_PLACEHOLDER@)
    &&& !occurs(text, INTERP_PLACEHOLDER@)
}

/// A text shaped as the placeholders are: it begins with an opening brace
/// and holds no other.
spec fn is_marker(p: Seq<char>) -> bool {
    &&& p.len() >= 2
    &&& p[0] == '{'
    &&& forall|i: int| 0 < i < p.len() ==> #[trigger] p[i] != '{'
}

proof fn lemma_placeholder_shapes()
    ensures
        forall|k: int| 0 <= k < 3 ==> is_marker(#[trigger] placeholder(k)),
        placeholder(0).len() == 15,
        placeholder(1).len() == 8,
        placeholder(2).len() == 10,
{
    reveal_strlit("{ script_code }");
    reveal_strlit("{ pass }");
    reveal_strlit("{ interp }");
    assert(is_marker(placeholder(0)));
    assert(is_marker(placeholder(1)));
    assert(is_marker(placeholder(2)));
}

/// A pattern stands at a position exactly when each of its characters does.
pub proof fn lemma_occurs_at_chars(text: Seq<char>, pattern: Seq<char>, at: int)
    ensures
        occurs_at(text, pattern, at) <==> (0 <= at && at + pattern.len() <= text.len()
            && forall|i: int| 0 <= i < pattern.len() ==> text[at + i] == #[trigger] pattern[i]),
{
    if 0 <= at && at + pattern.len() <= text.len() {
        let window = text.subrange(at, at + pattern.len());
        if window == pattern {
            assert forall|i: int| 0 <= i < pattern.len() implies text[at + i]
                == #[trigger] pattern[i] by {
                assert(window[i] == text[at + i]);
            }
        }
        if forall|i: int| 0 <= i < pattern.len() ==> text[at + i] == #[trigger] pattern[i] {
            assert(window =~= pattern);
        }
    }
}

/// Two placeholders that stand in one text stand clear of each other, or
/// are one placeholder at one position.
pub proof fn lemma_placeholders_apart(text: Seq<char>, j: int, c: int, k: int, a: int)
    requires
        0 <= j < 3,
        0 <= k < 3,
        occurs_at(text, placeholder(j), c),
        occurs_at(text, placeholder(k), a),
    ensures
        c + placeholder(j).len() <= a || c >= a + placeholder(k).len() || (c == a && j == k),
{
    let t = placeholder(j);
    let s = placeholder(k);
    reveal_strlit("{ script_code }");
    reveal_strlit("{ pass }");
    reveal_strlit("{ interp }");
    lemma_placeholder_shapes();
    lemma_occurs_at_chars(text, t, c);
    lemma_occurs_at_chars(text, s, a);
    assert(text[c + 0] == t[0]);
    assert(text[a + 0] == s[0]);
    if c < a && a < c + t.len() {
        assert(text[c + (a - c)] == t[a - c]);
    } else if a < c && c < a + s.len() {
        assert(text[a + (c - a)] == s[c - a]);
    } else if c == a && j != k {
        // Of two placeholders of different lengths the shorter ends with a
        // closing brace where the longer has none.
        if t.len() < s.len() {
            assert(text[c + (t.len() - 1)] == t[t.len() - 1]);
            assert(text[a + (t.len() - 1)] == s[t.len() - 1]);
        } else {
            assert(text[a + (s.len() - 1)] == s[s.len() - 1]);
            assert(text[c + (s.len() - 1)] == t[s.len() - 1]);
        }
    }
}

/// Where a placeholder has its first occurrence, it stands.
proof fn lemma_slot_occurs(template: Seq<char>, k: int, at: int)
    requires
        0 <= k < 3,
        first_occurrence(template, placeholder(k)) == Some(at),
    ensures
        occurs_at(template, placeholder(k), at),
        is_slot(template, at),
{
    lemma_first_occurrence(template, placeholder(k));
}

/// No numeral holds an opening brace.
proof fn lemma_decimal_opens_nothing(b: u8)
    ensures
        opens_nothing(decimal(b)),
{
}

/// The list of the bytes holds no opening brace.
proof fn lemma_byte_list_opens_nothing(bytes: Seq<u8>)
    ensures
        opens_nothing(byte_list(bytes)),
    decreases bytes.len(),
{
    reveal_strlit(", ");
    if bytes.len() >= 2 {
        lemma_byte_list_opens_nothing(bytes.drop_last());
        lemma_decimal_opens_nothing(bytes.last());
    } else if bytes.len() == 1 {
        lemma_decimal_opens_nothing(bytes[0]);
    }
}

/// The expression that stands for the bytes holds no opening brace.
proof fn lemma_byte_array_text_opens_nothing(bytes: Seq<u8>)
    ensures
        opens_nothing(byte_array_text(bytes)),
{
    reveal_strlit("vec![");
    reveal_strlit("]\n");
    lemma_byte_list_opens_nothing(bytes);
}

/// A placeholder that stands in a text behind a value without opening
/// brace stands in what follows the value.
proof fn lemma_occurrence_behind_value(v: Seq<char>, rest: Seq<char>, k: int, b: int)
    requires
        opens_nothing(v),
        0 <= k < 3,
        occurs_at(v + rest, placeholder(k), b),
    ensures
        b >= v.len(),
        occurs_at(rest, placeholder(k), b - v.len()),
{
    let p = placeholder(k);
    let text = v + rest;
    lemma_placeholder_shapes();
    lemma_occurs_at_chars(text, p, b);
    assert(text[b + 0] == p[0]);
    if b < v.len() {
        assert(v[b] == '{');
    }
    assert forall|i: int| 0 <= i < p.len() implies rest[b - v.len() + i] == #[trigger] p[i] by {
        assert(text[b + i] == p[i]);
    }
    lemma_occurs_at_chars(rest, p, b - v.len());
}

/// In a well-formed template nothing was begun before a placeholder that
/// is replaced.
proof fn lemma_slot_is_clean(template: Seq<char>, at: int)
    requires
        well_formed(template),
        is_slot(template, at),
    ensures
        clean_before(template, at),
{
    let j = if first_occurrence(template, placeholder(0)) == Some(at) {
        0int
    } else if first_occurrence(template, placeholder(1)) == Some(at) {
        1int
    } else {
        2int
    };
    lemma_slot_occurs(template, j, at);
}

/// Where the rendering of a well-formed template begins, at a position
/// that is no placeholder's, with the first `n` characters of a
/// placeholder, the template holds those characters there, and none of
/// them begins a placeholder that is replaced.
proof fn lemma_beginning_is_the_templates(
    template: Seq<char>,
    from: int,
    k: int,
    n: int,
    script: Seq<u8>,
    pass: Seq<char>,
    interp: Seq<char>,
)
    requires
        well_formed(template),
        0 <= k < 3,
        0 <= from,
        1 <= n <= placeholder(k).len(),
        !is_slot(template, from),
        filled(template, from, script, pass, interp).len() >= n,
        forall|i: int|
            0 <= i < n ==> filled(template, from, script, pass, interp)[i]
                == #[trigger] placeholder(k)[i],
    ensures
        from + n <= template.len(),
        forall|i: int| 0 <= i < n ==> template[from + i] == #[trigger] placeholder(k)[i],
        forall|i: int| from <= i < from + n ==> !is_slot(template, i),
    decreases n,
{
    let p = placeholder(k);
    let out = filled(template, from, script, pass, interp);
    if n == 1 {
        assert(out[0] == p[0]);
    } else {
        lemma_beginning_is_the_templates(template, from, k, n - 1, script, pass, interp);
        let last = from + n - 1;
        let kept = template.subrange(from, last);
        let tail = filled(template, last, script, pass, interp);
        lemma_filled_plain(template, from, last, script, pass, interp);
        assert(out == kept + tail);
        assert(tail.len() >= 1);
        assert(out[n - 1] == tail[0]);
        assert(out[n - 1] == p[n - 1]);
        if is_slot(template, last) {
            lemma_slot_is_clean(template, last);
            assert(template.subrange(last - (n - 1), last) =~= p.take(n - 1)) by {
                assert forall|i: int| 0 <= i < n - 1 implies template[from + i]
                    == #[trigger] p.take(n - 1)[i] by {
                    assert(template[from + i] == p[i]);
                }
            }
            assert(begun_before(template, last, k, n - 1));
        }
    }
}

/// From no position on does the rendering of a well-formed template hold a
/// placeholder, as long as neither the passphrase nor the interpreter's
/// name holds an opening brace.
proof fn lemma_filled_holds_no_placeholder(
    template: Seq<char>,
    from: int,
    script: Seq<u8>,
    pass: Seq<char>,
    interp: Seq<char>,
    k: int,
    b: int,
)
    requires
        well_formed(template),
        opens_nothing(pass),
        opens_nothing(interp),
        0 <= k < 3,
        0 <= from,
    ensures
        !occurs_at(filled(template, from, script, pass, interp), placeholder(k), b),
    decreases template.len() - from,
{
    let p = placeholder(k);
    let out = filled(template, from, script, pass, interp);
    lemma_placeholder_shapes();
    lemma_byte_array_text_opens_nothing(script);
    if from < template.len() && occurs_at(out, p, b) {
        if first_occurrence(template, placeholder(0)) == Some(from) {
            lemma_slot_occurs(template, 0, from);
            let rest = filled(template, from + placeholder(0).len(), script, pass, interp);
            lemma_occurrence_behind_value(byte_array_text(script), rest, k, b);
            lemma_filled_holds_no_placeholder(
                template,
                from + placeholder(0).len(),
                script,
                pass,
                interp,
                k,
                b - byte_array_text(script).len(),
            );
        } else if first_occurrence(template, placeholder(1)) == Some(from) {
            lemma_slot_occurs(template, 1, from);
            let rest = filled(template, from + placeholder(1).len(), script, pass, interp);
            lemma_occurrence_behind_value(pass, rest, k, b);
            lemma_filled_holds_no_placeholder(
                template,
                from + placeholder(1).len(),
                script,
                pass,
                interp,
                k,
                b - pass.len(),
            );
        } else if first_occurrence(template, placeholder(2)) == Some(from) {
            lemma_slot_occurs(template, 2, from);
            let rest = filled(template, from + placeholder(2).len(), script, pass, interp);
            lemma_occurrence_behind_value(interp, rest, k, b);
            lemma_filled_holds_no_placeholder(
                template,
                from + placeholder(2).len(),
                script,
                pass,
                interp,
                k,
                b - interp.len(),
            );
        } else {
            let rest = filled(template, from + 1, script, pass, interp);
            assert(out == seq![template[from]] + rest);
            if b >= 1 {
                lemma_occurs_at_chars(out, p, b);
                assert forall|i: int| 0 <= i < p.len() implies rest[b - 1 + i]
                    == #[trigger] p[i] by {
                    assert(out[b + i] == p[i]);
                }
                lemma_occurs_at_chars(rest, p, b - 1);
                lemma_filled_holds_no_placeholder(template, from + 1, script, pass, interp, k, b - 1);
            } else {
                // The placeholder would stand in the template here, where it
                // has no occurrence: its only one is replaced.
                let n = p.len() as int;
                lemma_occurs_at_chars(out, p, 0);
                assert forall|i: int| 0 <= i < n implies out[i] == #[trigger] p[i] by {
                    assert(out[0 + i] == p[i]);
                }
                lemma_beginning_is_the_templates(template, from, k, n, script, pass, interp);
                lemma_occurs_at_chars(template, p, from);
                assert(occurs_at(template, p, from));
                lemma_first_occurrence(template, p);
                assert(occurs_once(template, p));
                assert(first_occurrence(template, p) == Some(from));
            }
        }
    }
}

/// Rendering a well-formed template leaves none of the three placeholders
/// in the program text, whatever the script, as long as neither the
/// passphrase nor the interpreter's name holds an opening brace.
pub proof fn lemma_render_leaves_no_placeholder(
    template: Seq<char>,
    script: Seq<u8>,
    pass: Seq<char>,
    interp: Seq<char>,
)
    requires
        well_formed(template),
        opens_nothing(pass),
        opens_nothing(interp),
    ensures
        !occurs(rendered(template, script, pass, interp), SCRIPT_PLACEHOLDER@),
        !occurs(rendered(template, script, pass, interp), PASS_PLACEHOLDER@),
        !occurs(rendered(template, script, pass, interp), INTERP_PLACEHOLDER@),
{
    let out = rendered(template, script, pass, interp);
    assert forall|k: int, b: int| 0 <= k < 3 implies !occurs_at(out, placeholder(k), b) by {
        lemma_filled_holds_no_placeholder(template, 0, script, pass, interp, k, b);
    }
    assert(placeholder(0) == SCRIPT_PLACEHOLDER@);
    assert(placeholder(1) == PASS_PLACEHOLDER@);
    assert(placeholder(2) == INTERP_PLACEHOLDER@);
}

/// Whether placeholder `j` has its first occurrence in `template` at `a`.
spec fn slot_of(template: Seq<char>, j: int, a: int) -> bool {
    0 <= j < 3 && first_occurrence(template, placeholder(j)) == Some(a)
}

/// No character of a placeholder that stands in a text is foreign.
proof fn lemma_occurrence_is_not_foreign(text: Seq<char>, k: int, b: int, i: int)
    requires
        0 <= k < 3,
        occurs_at(text, placeholder(k), b),
        b <= i < b + placeholder(k).len(),
    ensures
        !is_foreign(text[i]),
{
    let p = placeholder(k);
    lemma_occurs_at_chars(text, p, b);
    assert(text[b + (i - b)] == p[i - b]);
    assert(p.contains(p[i - b]));
}

/// A text without opening brace holds no placeholder.
proof fn lemma_opens_nothing_holds_no_placeholder(text: Seq<char>)
    requires
        opens_nothing(text),
    ensures
        holds_no_placeholder(text),
{
    lemma_placeholder_shapes();
    assert forall|k: int, b: int| 0 <= k < 3 implies !occurs_at(text, placeholder(k), b) by {
        if occurs_at(text, placeholder(k), b) {
            lemma_occurs_at_chars(text, placeholder(k), b);
            assert(text[b + 0] == placeholder(k)[0]);
        }
    }
    assert(placeholder(0) == SCRIPT_PLACEHOLDER@);
    assert(placeholder(1) == PASS_PLACEHOLDER@);
    assert(placeholder(2) == INTERP_PLACEHOLDER@);
}

/// A fenced template is well formed: what stands before a fenced
/// placeholder begins none.
pub proof fn lemma_fenced_is_well_formed(template: Seq<char>)
    requires
        fenced(template),
    ensures
        well_formed(template),
{
    assert forall|k: int, at: int|
        0 <= k < 3 && #[trigger] occurs_at(template, placeholder(k), at) implies clean_before(
        template,
        at,
    ) by {
        assert(fenced_at(template, k, at));
        assert forall|j: int, n: int| !#[trigger] begun_before(template, at, j, n) by {
            if begun_before(template, at, j, n) {
                let p = placeholder(j);
                assert(template.subrange(at - n, at)[n - 1] == p.take(n)[n - 1]);
                assert(p.contains(p[n - 1]));
            }
        }
    }
}

/// A placeholder that stands in a text behind a value that holds none, and
/// before a foreign character, stands in what follows the value.
proof fn lemma_occurrence_behind_fence(v: Seq<char>, rest: Seq<char>, k: int, b: int)
    requires
        holds_no_placeholder(v),
        rest.len() > 0 ==> is_foreign(rest[0]),
        0 <= k < 3,
        occurs_at(v + rest, placeholder(k), b),
    ensures
        b >= v.len(),
        occurs_at(rest, placeholder(k), b - v.len()),
{
    let p = placeholder(k);
    let text = v + rest;
    lemma_occurs_at_chars(text, p, b);
    if b < v.len() {
        if b + p.len() <= v.len() {
            assert forall|i: int| 0 <= i < p.len() implies v[b + i] == #[trigger] p[i] by {
                assert(text[b + i] == p[i]);
            }
            lemma_occurs_at_chars(v, p, b);
            assert(occurs(v, p));
        } else {
            lemma_occurrence_is_not_foreign(text, k, b, v.len() as int);
            assert(text[v.len() as int] == rest[0]);
        }
    }
    assert forall|i: int| 0 <= i < p.len() implies rest[b - v.len() + i] == #[trigger] p[i] by {
        assert(text[b + i] == p[i]);
    }
    lemma_occurs_at_chars(rest, p, b - v.len());
}

/// What the rendering of a fenced template holds right behind the value
/// that stands for placeholder `j`: nothing, or a foreign character.
proof fn lemma_fence_behind_slot(
    template: Seq<char>,
    j: int,
    from: int,
    script: Seq<u8>,
    pass: Seq<char>,
    interp: Seq<char>,
)
    requires
        fenced(template),
        slot_of(template, j, from),
    ensures
        ({
            let rest = filled(template, from + placeholder(j).len(), script, pass, interp);
            rest.len() > 0 ==> is_foreign(rest[0])
        }),
{
    let next = from + placeholder(j).len();
    lemma_placeholder_shapes();
    lemma_slot_occurs(template, j, from);
    assert(fenced_at(template, j, from));
    if next < template.len() {
        if is_slot(template, next) {
            let i = if first_occurrence(template, placeholder(0)) == Some(next) {
                0int
            } else if first_occurrence(template, placeholder(1)) == Some(next) {
                1int
            } else {
                2int
            };
            lemma_slot_occurs(template, i, next);
            lemma_occurrence_is_not_foreign(template, i, next, next);
        }
    }
}

/// From no position on does the rendering of a fenced template hold a
/// placeholder, as long as neither the passphrase nor the interpreter's
/// name holds one.
proof fn lemma_filled_of_fenced_holds_no_placeholder(
    template: Seq<char>,
    from: int,
    script: Seq<u8>,
    pass: Seq<char>,
    interp: Seq<char>,
    k: int,
    b: int,
)
    requires
        fenced(template),
        holds_no_placeholder(pass),
        holds_no_placeholder(interp),
        0 <= k < 3,
        0 <= from,
    ensures
        !occurs_at(filled(template, from, script, pass, interp), placeholder(k), b),
    decreases template.len() - from,
{
    let p = placeholder(k);
    let out = filled(template, from, script, pass, interp);
    lemma_placeholder_shapes();
    if from < template.len() && occurs_at(out, p, b) {
        if is_slot(template, from) {
            let j = if first_occurrence(template, placeholder(0)) == Some(from) {
                0int
            } else if first_occurrence(template, placeholder(1)) == Some(from) {
                1int
            } else {
                2int
            };
            let v = value(j, script, pass, interp);
            let next = from + placeholder(j).len();
            let rest = filled(template, next, script, pass, interp);
            lemma_slot_occurs(template, j, from);
            lemma_byte_array_text_opens_nothing(script);
            lemma_opens_nothing_holds_no_placeholder(byte_array_text(script));
            lemma_fence_behind_slot(template, j, from, script, pass, interp);
            assert(out == v + rest);
            lemma_occurrence_behind_fence(v, rest, k, b);
            lemma_filled_of_fenced_holds_no_placeholder(
                template,
                next,
                script,
                pass,
                interp,
                k,
                b - v.len(),
            );
        } else {
            let rest = filled(template, from + 1, script, pass, interp);
            assert(out == seq![template[from]] + rest);
            if b >= 1 {
                lemma_occurs_at_chars(out, p, b);
                assert forall|i: int| 0 <= i < p.len() implies rest[b - 1 + i]
                    == #[trigger] p[i] by {
                    assert(out[b + i] == p[i]);
                }
                lemma_occurs_at_chars(rest, p, b - 1);
                lemma_filled_of_fenced_holds_no_placeholder(
                    template,
                    from + 1,
                    script,
                    pass,
                    interp,
                    k,
                    b - 1,
                );
            } else {
                let n = p.len() as int;
                lemma_fenced_is_well_formed(template);
                lemma_occurs_at_chars(out, p, 0);
                assert forall|i: int| 0 <= i < n implies out[i] == #[trigger] p[i] by {
                    assert(out[0 + i] == p[i]);
                }
                lemma_beginning_is_the_templates(template, from, k, n, script, pass, interp);
                lemma_occurs_at_chars(template, p, from);
                assert(occurs_at(template, p, from));
                lemma_first_occurrence(template, p);
                assert(occurs_once(template, p));
                assert(first_occurrence(template, p) == Some(from));
            }
        }
    }
}

/// Rendering a fenced template leaves none of the three placeholders in
/// the program text, whatever the script, as long as neither the passphrase
/// nor the interpreter's name holds a placeholder.
pub proof fn lemma_render_of_fenced_leaves_no_placeholder(
    template: Seq<char>,
    script: Seq<u8>,
    pass: Seq<char>,
    interp: Seq<char>,
)
    requires
        fenced(template),
        holds_no_placeholder(pass),
        holds_no_placeholder(interp),
    ensures
        holds_no_placeholder(rendered(template, script, pass, interp)),
{
    let out = rendered(template, script, pass, interp);
    assert forall|k: int, b: int| 0 <= k < 3 implies !occurs_at(out, placeholder(k), b) by {
        lemma_filled_of_fenced_holds_no_placeholder(template, 0, script, pass, interp, k, b);
    }
    assert(placeholder(0) == SCRIPT_PLACEHOLDER@);
    assert(placeholder(1) == PASS_PLACEHOLDER@);
    assert(placeholder(2) == INTERP_PLACEHOLDER@);
}

/// Whether every placeholder that is replaced in `template` stands at or
/// after `from`, or ends at or before it.
spec fn between_slots(template: Seq<char>, from: int) -> bool {
    forall|j: int, a: int| #[trigger]
        slot_of(template, j, a) ==> a >= from || a + placeholder(j).len() <= from
}

/// From every position up to the script's placeholder that lies between
/// the placeholders, the rendering holds the expression for the bytes.
proof fn lemma_filled_holds_the_bytes(
    template: Seq<char>,
    from: int,
    at: int,
    script: Seq<u8>,
    pass: Seq<char>,
    interp: Seq<char>,
)
    requires
        0 <= from <= at,
        first_occurrence(template, placeholder(0)) == Some(at),
        between_slots(template, from),
    ensures
        occurs(filled(template, from, script, pass, interp), byte_array_text(script)),
    decreases at - from,
{
    let q = byte_array_text(script);
    let out = filled(template, from, script, pass, interp);
    lemma_placeholder_shapes();
    lemma_slot_occurs(template, 0, at);
    if from == at {
        let rest = filled(template, from + placeholder(0).len(), script, pass, interp);
        assert(out == q + rest);
        assert(out.subrange(0, q.len() as int) =~= q);
        assert(occurs_at(out, q, 0));
    } else {
        let j = if first_occurrence(template, placeholder(1)) == Some(from) {
            1int
        } else if first_occurrence(template, placeholder(2)) == Some(from) {
            2int
        } else {
            -1int
        };
        let step = if j >= 0 {
            placeholder(j).len() as int
        } else {
            1int
        };
        let v = if j >= 0 {
            value(j, script, pass, interp)
        } else {
            seq![template[from]]
        };
        let next = from + step;
        if j >= 0 {
            lemma_slot_occurs(template, j, from);
            lemma_placeholders_apart(template, j, from, 0, at);
        }
        assert(next <= at);
        assert(between_slots(template, next)) by {
            assert forall|i: int, a: int| #[trigger] slot_of(template, i, a) implies a >= next
                || a + placeholder(i).len() <= next by {
                lemma_slot_occurs(template, i, a);
                if j >= 0 {
                    lemma_placeholders_apart(template, i, a, j, from);
                }
            }
        }
        let rest = filled(template, next, script, pass, interp);
        assert(out == v + rest);
        lemma_filled_holds_the_bytes(template, next, at, script, pass, interp);
        let s = choose|s: int| occurs_at(rest, q, s);
        assert(out.subrange(v.len() + s, v.len() + s + q.len()) =~= rest.subrange(
            s,
            s + q.len(),
        ));
        assert(occurs_at(out, q, v.len() + s));
    }
}

/// Rendering a template that holds the script's placeholder gives a program
/// text that holds the expression for the script's bytes: each byte's
/// decimal numeral, in the order of the bytes.
pub proof fn lemma_render_holds_the_bytes(
    template: Seq<char>,
    script: Seq<u8>,
    pass: Seq<char>,
    interp: Seq<char>,
)
    requires
        occurs(template, SCRIPT_PLACEHOLDER@),
    ensures
        occurs(rendered(template, script, pass, interp), byte_array_text(script)),
{
    lemma_first_occurrence(template, placeholder(0));
    let at = first_occurrence(template, placeholder(0))->Some_0;
    assert(between_slots(template, 0)) by {
        assert forall|j: int, a: int| #[trigger] slot_of(template, j, a) implies a >= 0 || a
            + placeholder(j).len() <= 0 by {
            lemma_slot_occurs(template, j, a);
        }
    }
    lemma_filled_holds_the_bytes(template, 0, at, script, pass, interp);
}

/// Where `mark` stands in `text`, if it stands there exactly once.
fn stands_once(text: &Vec<char>, mark: &Vec<char>) -> (r: Option<usize>)
    requires
        mark.len() > 0,
    ensures
        r is Some <==> occurs_once(text@, mark@),
        r matches Some(at) ==> first_occurrence(text@, mark@) == Some(at as int),
{
    proof {
        lemma_first_occurrence(text@, mark@);
    }
    match find(text, mark) {
        None => None,
        Some(at) => {
            proof {
                lemma_search_from(text@, mark@, at + 1);
            }
            match find_from(text, mark, at + 1) {
                None => {
                    assert(occurs_at(text@, mark@, at as int));
                    Some(at)
                },
                Some(_) => None,
            }
        },
    }
}

/// Whether placeholder `k`, whose characters `mark` holds, was not begun
/// and left unended right before position `at` of `text`.
fn not_begun_before(text: &Vec<char>, at: usize, mark: &Vec<char>, k: usize) -> (b: bool)
    requires
        at <= text.len(),
        k < 3,
        mark@ == placeholder(k as int),
    ensures
        b == forall|n: int| !begun_before(text@, at as int, k as int, n),
{
    let mut n: usize = 1;
    while n < mark.len() && n <= at
        invariant
            1 <= n,
            at <= text.len(),
            k < 3,
            mark@ == placeholder(k as int),
            forall|m: int| 0 < m < n ==> !begun_before(text@, at as int, k as int, m),
        decreases mark.len() - n,
    {
        let from: usize = at - n;
        let mut i: usize = 0;
        while i < n && text[from + i] == mark[i]
            invariant
                i <= n < mark.len(),
                from + n == at,
                at <= text.len(),
                forall|j: int| 0 <= j < i ==> text@[from + j] == #[trigger] mark@[j],
            decreases n - i,
        {
            i += 1;
        }
        let ghost window = text@.subrange(at - n, at as int);
        let ghost start = mark@.take(n as int);
        if i == n {
            assert(window =~= start);
            assert(begun_before(text@, at as int, k as int, n as int));
            return false;
        }
        assert(window[i as int] != start[i as int]);
        n += 1;
    }
    true
}

/// Whether nothing was begun and left unended right before position `at`
/// of `text`.
fn nothing_begun_before(
    text: &Vec<char>,
    at: usize,
    script_mark: &Vec<char>,
    pass_mark: &Vec<char>,
    interp_mark: &Vec<char>,
) -> (b: bool)
    requires
        at <= text.len(),
        script_mark@ == placeholder(0),
        pass_mark@ == placeholder(1),
        interp_mark@ == placeholder(2),
    ensures
        b == clean_before(text@, at as int),
{
    not_begun_before(text, at, script_mark, 0) && not_begun_before(text, at, pass_mark, 1)
        && not_begun_before(text, at, interp_mark, 2)
}

/// Tells whether `template` is well formed.
pub fn is_well_formed(template: &str) -> (b: bool)
    ensures
        b == well_formed(template@),
{
    let chars = to_chars(template);
    let script_mark = to_chars(SCRIPT_PLACEHOLDER);
    let pass_mark = to_chars(PASS_PLACEHOLDER);
    let interp_mark = to_chars(INTERP_PLACEHOLDER);
    proof {
        lemma_placeholder_shapes();
        lemma_first_occurrence(template@, placeholder(0));
        lemma_first_occurrence(template@, placeholder(1));
        lemma_first_occurrence(template@, placeholder(2));
    }
    let at_script = match stands_once(&chars, &script_mark) {
        Some(at) => at,
        None => {
            return false;
        },
    };
    let at_pass = match stands_once(&chars, &pass_mark) {
        Some(at) => at,
        None => {
            return false;
        },
    };
    let at_interp = match stands_once(&chars, &interp_mark) {
        Some(at) => at,
        None => {
            return false;
        },
    };
    let clean = nothing_begun_before(&chars, at_script, &script_mark, &pass_mark, &interp_mark)
        && nothing_begun_before(&chars, at_pass, &script_mark, &pass_mark, &interp_mark)
        && nothing_begun_before(&chars, at_interp, &script_mark, &pass_mark, &interp_mark);
    proof {
        assert(occurs_at(template@, placeholder(0), at_script as int));
        assert(occurs_at(template@, placeholder(1), at_pass as int));
        assert(occurs_at(template@, placeholder(2), at_interp as int));
        if clean {
            assert forall|k: int, at: int|
                0 <= k < 3 && #[trigger] occurs_at(template@, placeholder(k), at) implies clean_before(
                template@,
                at,
            ) by {
                assert(occurs_once(template@, placeholder(k)));
            }
        }
    }
    clean
}

} // verus!
