//! The interpreter detector: which program a script asks for on its first
//! line, and what is left of the script once that line is taken off.

use crate::text::to_chars;
use vstd::prelude::*;
use vstd::string::StrSliceExecFns;

verus! {

/// The interpreter assumed for a script that names none.
pub const DEFAULT_INTERPRETER: &'static str = "bash";

/// The characters of [`DEFAULT_INTERPRETER`].
pub open spec fn default_interpreter() -> Seq<char> {
    seq!['b', 'a', 's', 'h']
}

/// Whether `c` separates the words of a line: the characters that Unicode
/// marks as white space.
pub open spec fn is_whitespace(c: char) -> bool {
    let n = c as u32;
    ||| 0x09 <= n <= 0x0D
    ||| n == 0x20
    ||| n == 0x85
    ||| n == 0xA0
    ||| n == 0x1680
    ||| 0x2000 <= n <= 0x200A
    ||| n == 0x2028
    ||| n == 0x2029
    ||| n == 0x202F
    ||| n == 0x205F
    ||| n == 0x3000
}

/// Whether `text` opens with the two characters `#!`.
pub open spec fn has_marker(text: Seq<char>) -> bool {
    text.len() >= 2 && text[0] == '#' && text[1] == '!'
}

/// How many characters stand before the first line break of `text`; its
/// whole length where it has none.
pub open spec fn line_len(text: Seq<char>) -> nat
    decreases text.len(),
{
    if text.len() == 0 || text[0] == '\n' {
        0
    } else {
        1 + line_len(text.skip(1))
    }
}

/// The first line of `text`, without its line break.
pub open spec fn first_line(text: Seq<char>) -> Seq<char> {
    text.take(line_len(text) as int)
}

/// What follows the first line break of `text`; nothing where it has none.
pub open spec fn after_first_line(text: Seq<char>) -> Seq<char> {
    if line_len(text) < text.len() {
        text.skip(line_len(text) as int + 1)
    } else {
        Seq::empty()
    }
}

/// How many characters of `s` stand before its first white space.
pub open spec fn word_len(s: Seq<char>) -> nat
    decreases s.len(),
{
    if s.len() == 0 || is_whitespace(s[0]) {
        0
    } else {
        1 + word_len(s.skip(1))
    }
}

/// The words of `line`: its longest runs of characters without white space,
/// from left to right.
pub open spec fn tokens(line: Seq<char>) -> Seq<Seq<char>>
    decreases line.len(),
    via tokens_decreases
{
    if line.len() == 0 {
        Seq::empty()
    } else if is_whitespace(line[0]) {
        tokens(line.skip(1))
    } else {
        seq![line.take(word_len(line) as int)] + tokens(line.skip(word_len(line) as int))
    }
}

#[via_fn]
proof fn tokens_decreases(line: Seq<char>) {
    lemma_word_len_bounds(line);
}

/// What is left of `path` after its last `/`; all of it where it has none.
pub open spec fn base_name(path: Seq<char>) -> Seq<char>
    decreases path.len(),
{
    if path.len() == 0 || path.last() == '/' {
        Seq::empty()
    } else {
        base_name(path.drop_last()).push(path.last())
    }
}

/// The interpreter that `text` names, and the script without the line that
/// names it.
///
/// A text that opens with `#!` and has at least two words on its first line
/// names the second-to-last of them, taken without its directories; the
/// script is then what follows the first line. Any other text names the
/// default interpreter and is itself the script.
pub open spec fn detect(text: Seq<char>) -> (Seq<char>, Seq<char>) {
    let words = tokens(first_line(text));
    if has_marker(text) && words.len() >= 2 {
        (base_name(words[words.len() - 2]), after_first_line(text))
    } else {
        (default_interpreter(), text)
    }
}

proof fn lemma_word_len_bounds(s: Seq<char>)
    ensures
        word_len(s) <= s.len(),
        s.len() > 0 && !is_whitespace(s[0]) ==> word_len(s) >= 1,
    decreases s.len(),
{
    if s.len() > 0 && !is_whitespace(s[0]) {
        lemma_word_len_bounds(s.skip(1));
    }
}

/// A stretch without white space that ends at white space, or at the end, is
/// the first word.
proof fn lemma_word_len_is(s: Seq<char>, m: int)
    requires
        0 <= m <= s.len(),
        forall|j: int| 0 <= j < m ==> !is_whitespace(#[trigger] s[j]),
        m == s.len() || is_whitespace(s[m]),
    ensures
        word_len(s) == m,
    decreases m,
{
    if m > 0 {
        let rest = s.skip(1);
        assert forall|j: int| 0 <= j < m - 1 implies !is_whitespace(#[trigger] rest[j]) by {
            assert(rest[j] == s[j + 1]);
        }
        lemma_word_len_is(rest, m - 1);
    }
}

/// A stretch without line break that ends at a line break, or at the end, is
/// the first line.
proof fn lemma_line_len_is(text: Seq<char>, m: int)
    requires
        0 <= m <= text.len(),
        forall|j: int| 0 <= j < m ==> #[trigger] text[j] != '\n',
        m == text.len() || text[m] == '\n',
    ensures
        line_len(text) == m,
    decreases m,
{
    if m > 0 {
        let rest = text.skip(1);
        assert forall|j: int| 0 <= j < m - 1 implies #[trigger] rest[j] != '\n' by {
            assert(rest[j] == text[j + 1]);
        }
        lemma_line_len_is(rest, m - 1);
    }
}

/// A tail without `/` that follows a `/`, or starts the path, is the base
/// name.
proof fn lemma_base_name_is(path: Seq<char>, k: int)
    requires
        0 <= k <= path.len(),
        forall|j: int| k <= j < path.len() ==> #[trigger] path[j] != '/',
        k == 0 || path[k - 1] == '/',
    ensures
        base_name(path) == path.skip(k),
    decreases path.len() - k,
{
    if k < path.len() {
        let front = path.drop_last();
        assert forall|j: int| k <= j < front.len() implies #[trigger] front[j] != '/' by {
            assert(front[j] == path[j]);
        }
        lemma_base_name_is(front, k);
        assert(front.skip(k).push(path.last()) =~= path.skip(k));
    } else {
        assert(path.skip(k) =~= Seq::<char>::empty());
    }
}

/// Whether `c` is white space.
pub fn is_space(c: char) -> (b: bool)
    ensures
        b == is_whitespace(c),
{
    let n: u32 = c as u32;
    (0x09 <= n && n <= 0x0D) || n == 0x20 || n == 0x85 || n == 0xA0 || n == 0x1680 || (0x2000 <= n
        && n <= 0x200A) || n == 0x2028 || n == 0x2029 || n == 0x202F || n == 0x205F || n == 0x3000
}

/// Where the first line of `chars` ends.
fn first_line_end(chars: &Vec<char>) -> (end: usize)
    ensures
        end == line_len(chars@),
        end <= chars.len(),
{
    let mut end: usize = 0;
    while end < chars.len() && chars[end] != '\n'
        invariant
            end <= chars.len(),
            forall|j: int| 0 <= j < end ==> #[trigger] chars@[j] != '\n',
        decreases chars.len() - end,
    {
        end += 1;
    }
    proof {
        lemma_line_len_is(chars@, end as int);
    }
    end
}

/// Where the second-to-last word of the first `end` characters of `chars`
/// stands, if they hold two words or more.
fn second_to_last_word(chars: &Vec<char>, end: usize) -> (r: Option<(usize, usize)>)
    requires
        end <= chars.len(),
    ensures
        r is Some <==> tokens(chars@.take(end as int)).len() >= 2,
        r matches Some((from, to)) ==> {
            let words = tokens(chars@.take(end as int));
            from <= to <= end && words[words.len() - 2] == chars@.subrange(from as int, to as int)
        },
{
    let ghost line = chars@.take(end as int);
    let ghost mut done: Seq<Seq<char>> = Seq::empty();
    let mut count: usize = 0;
    let mut prev: (usize, usize) = (0, 0);
    let mut last: (usize, usize) = (0, 0);
    let mut i: usize = 0;
    assert(line.skip(0) =~= line);
    while i < end
        invariant
            i <= end <= chars.len(),
            line == chars@.take(end as int),
            tokens(line) == done + tokens(line.skip(i as int)),
            count == done.len(),
            count <= i,
            count >= 1 ==> last.0 <= last.1 <= end && done[count - 1] == chars@.subrange(
                last.0 as int,
                last.1 as int,
            ),
            count >= 2 ==> prev.0 <= prev.1 <= end && done[count - 2] == chars@.subrange(
                prev.0 as int,
                prev.1 as int,
            ),
        decreases end - i,
    {
        let ghost rest = line.skip(i as int);
        assert(rest.len() > 0 && rest[0] == chars@[i as int]);
        if is_space(chars[i]) {
            assert(rest.skip(1) =~= line.skip(i + 1));
            i += 1;
        } else {
            let from = i;
            let mut to = i + 1;
            while to < end && !is_space(chars[to])
                invariant
                    from < to <= end <= chars.len(),
                    forall|j: int| from <= j < to ==> !is_whitespace(#[trigger] chars@[j]),
                decreases end - to,
            {
                to += 1;
            }
            proof {
                let m = to - from;
                assert forall|j: int| 0 <= j < m implies !is_whitespace(#[trigger] rest[j]) by {
                    assert(rest[j] == chars@[from + j]);
                }
                assert(m == rest.len() || is_whitespace(rest[m])) by {
                    if to < end {
                        assert(rest[m] == chars@[to as int]);
                    }
                }
                lemma_word_len_is(rest, m);
                let word = rest.take(m);
                assert(word =~= chars@.subrange(from as int, to as int));
                assert(rest.skip(m) =~= line.skip(to as int));
                assert(tokens(rest) == seq![word] + tokens(line.skip(to as int)));
                assert(done + (seq![word] + tokens(line.skip(to as int))) =~= done.push(word)
                    + tokens(line.skip(to as int)));
                done = done.push(word);
            }
            prev = last;
            last = (from, to);
            count += 1;
            i = to;
        }
    }
    proof {
        assert(line.skip(end as int) =~= Seq::<char>::empty());
        assert(tokens(line) =~= done);
    }
    if count >= 2 {
        Some(prev)
    } else {
        None
    }
}

/// Where the base name of the path held in `chars` from `from` up to `to`
/// starts.
fn base_name_start(chars: &Vec<char>, from: usize, to: usize) -> (start: usize)
    requires
        from <= to <= chars.len(),
    ensures
        from <= start <= to,
        chars@.subrange(start as int, to as int) == base_name(
            chars@.subrange(from as int, to as int),
        ),
{
    let mut start: usize = to;
    while start > from && chars[start - 1] != '/'
        invariant
            from <= start <= to <= chars.len(),
            forall|j: int| start <= j < to ==> #[trigger] chars@[j] != '/',
        decreases start,
    {
        start -= 1;
    }
    proof {
        let path = chars@.subrange(from as int, to as int);
        let k = start - from;
        assert forall|j: int| k <= j < path.len() implies #[trigger] path[j] != '/' by {
            assert(path[j] == chars@[from + j]);
        }
        lemma_base_name_is(path, k);
        assert(path.skip(k) =~= chars@.subrange(start as int, to as int));
    }
    start
}

/// The default interpreter's name, as a text of its own.
fn default_interpreter_name() -> (name: String)
    ensures
        name@ == default_interpreter(),
{
    proof {
        reveal_strlit("bash");
    }
    let name = DEFAULT_INTERPRETER.to_owned();
    assert(name@ =~= default_interpreter());
    name
}

/// Finds the interpreter that the script `content` names, and the script
/// that is left for it to run.
///
/// Returns the interpreter's name and the script's body, as [`detect`] gives
/// them: for a script that opens with `#!` and has two words or more on its
/// first line, the second-to-last word without its directories and the text
/// after the first line; for any other, [`DEFAULT_INTERPRETER`] and the
/// script unchanged.
pub fn find_interp(content: &String) -> (r: (String, String))
    ensures
        r.0@ == detect(content@).0,
        r.1@ == detect(content@).1,
{
    let text = content.as_str();
    let chars = to_chars(text);
    let n = chars.len();
    if !(n >= 2 && chars[0] == '#' && chars[1] == '!') {
        return (default_interpreter_name(), content.clone());
    }
    let end = first_line_end(&chars);
    match second_to_last_word(&chars, end) {
        None => (default_interpreter_name(), content.clone()),
        Some((from, to)) => {
            let start = base_name_start(&chars, from, to);
            let name = text.substring_char(start, to).to_owned();
            let body = if end < n {
                text.substring_char(end + 1, n).to_owned()
            } else {
                String::new()
            };
            proof {
                assert(chars@.subrange(end + 1, n as int) =~= chars@.skip(end + 1));
            }
            (name, body)
        },
    }
}

/// Whether `s` holds no white space.
pub open spec fn has_no_whitespace(s: Seq<char>) -> bool {
    forall|i: int| 0 <= i < s.len() ==> !is_whitespace(#[trigger] s[i])
}

/// The first word of a text holds no white space.
proof fn lemma_word_has_no_whitespace(s: Seq<char>)
    ensures
        word_len(s) <= s.len(),
        has_no_whitespace(s.take(word_len(s) as int)),
    decreases s.len(),
{
    if s.len() > 0 && !is_whitespace(s[0]) {
        let rest = s.skip(1);
        lemma_word_has_no_whitespace(rest);
        let word = s.take(word_len(s) as int);
        assert forall|i: int| 0 <= i < word.len() implies !is_whitespace(#[trigger] word[i]) by {
            if i > 0 {
                assert(word[i] == rest.take(word_len(rest) as int)[i - 1]);
            }
        }
    }
}

/// No word of a line holds white space.
proof fn lemma_tokens_have_no_whitespace(line: Seq<char>)
    ensures
        forall|j: int|
            0 <= j < tokens(line).len() ==> has_no_whitespace(#[trigger] tokens(line)[j]),
    decreases line.len(),
{
    if line.len() == 0 {
        assert(tokens(line).len() == 0);
    } else {
        if is_whitespace(line[0]) {
            lemma_tokens_have_no_whitespace(line.skip(1));
            assert(tokens(line) == tokens(line.skip(1)));
        } else {
            lemma_word_len_bounds(line);
            lemma_word_has_no_whitespace(line);
            let word = line.take(word_len(line) as int);
            let rest = tokens(line.skip(word_len(line) as int));
            lemma_tokens_have_no_whitespace(line.skip(word_len(line) as int));
            assert(tokens(line) == seq![word] + rest);
            assert forall|j: int| 0 <= j < tokens(line).len() implies has_no_whitespace(
                #[trigger] tokens(line)[j],
            ) by {
                if j > 0 {
                    assert(tokens(line)[j] == rest[j - 1]);
                }
            }
        }
    }
}

/// The base name of a path without white space holds none.
proof fn lemma_base_name_has_no_whitespace(path: Seq<char>)
    requires
        has_no_whitespace(path),
    ensures
        has_no_whitespace(base_name(path)),
    decreases path.len(),
{
    if path.len() > 0 && path.last() != '/' {
        let front = path.drop_last();
        assert forall|i: int| 0 <= i < front.len() implies !is_whitespace(#[trigger] front[i]) by {
            assert(front[i] == path[i]);
        }
        lemma_base_name_has_no_whitespace(front);
        assert(!is_whitespace(path[path.len() - 1]));
    }
}

/// The name of the interpreter that a script names holds no white space.
pub proof fn lemma_interpreter_has_no_whitespace(text: Seq<char>)
    ensures
        has_no_whitespace(detect(text).0),
{
    let words = tokens(first_line(text));
    if has_marker(text) && words.len() >= 2 {
        lemma_tokens_have_no_whitespace(first_line(text));
        lemma_base_name_has_no_whitespace(words[words.len() - 2]);
    }
}

} // verus!
