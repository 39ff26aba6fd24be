//! The store encoding: a task list is persisted as a JSON array of objects
//! `{"description": <string>, "done": <bool>}`, in list order, with the two
//! fields in that order.
//!
//! The encoder emits the compact form with no whitespace, escaping `"`, `\`
//! and control characters in descriptions. The decoder accepts the same
//! grammar with optional whitespace between tokens and the usual short
//! string escapes, and accepts `\u00XX` escapes for control characters.

use vstd::prelude::*;
use vstd::string::StrSliceExecFns;

use crate::tasks::Task;
use crate::tasks::TaskView;
use crate::tasks::views;
use crate::text::chars_to_string;
use crate::text::str_to_chars;

verus! {

/// `lit` occurs in `s` starting at position `i`.
pub open spec fn matches_at(s: Seq<char>, i: int, lit: Seq<char>) -> bool {
    &&& 0 <= i
    &&& i + lit.len() <= s.len()
    &&& forall|k: int| 0 <= k < lit.len() ==> s[i + k] == lit[k]
}

/// The lowercase hexadecimal digit characters.
pub open spec fn hex_char(d: int) -> char
    recommends
        0 <= d < 16,
{
    if d == 0 {
        '0'
    } else if d == 1 {
        '1'
    } else if d == 2 {
        '2'
    } else if d == 3 {
        '3'
    } else if d == 4 {
        '4'
    } else if d == 5 {
        '5'
    } else if d == 6 {
        '6'
    } else if d == 7 {
        '7'
    } else if d == 8 {
        '8'
    } else if d == 9 {
        '9'
    } else if d == 10 {
        'a'
    } else if d == 11 {
        'b'
    } else if d == 12 {
        'c'
    } else if d == 13 {
        'd'
    } else if d == 14 {
        'e'
    } else {
        'f'
    }
}

/// How one description character is written inside a JSON string: quote and
/// backslash get a backslash escape, control characters a `\u00XX` escape,
/// and every other character stands for itself.
pub open spec fn escape_char(c: char) -> Seq<char> {
    if c == '"' {
        seq!['\\', '"']
    } else if c == '\\' {
        seq!['\\', '\\']
    } else if (c as u32) < 0x20 {
        seq!['\\', 'u', '0', '0', hex_char((c as u32) as int / 16), hex_char(
            (c as u32) as int % 16,
        )]
    } else {
        seq![c]
    }
}

/// How a whole description is written inside a JSON string.
pub open spec fn escape_seq(s: Seq<char>) -> Seq<char>
    decreases s.len(),
{
    if s.len() == 0 {
        Seq::empty()
    } else {
        escape_char(s[0]) + escape_seq(s.drop_first())
    }
}

/// The characters of `true` or `false`.
pub open spec fn encode_bool(b: bool) -> Seq<char> {
    if b {
        seq!['t', 'r', 'u', 'e']
    } else {
        seq!['f', 'a', 'l', 's', 'e']
    }
}

/// The characters of the literal `true`.
pub open spec fn true_lit() -> Seq<char> {
    seq!['t', 'r', 'u', 'e']
}

/// The characters of the literal `false`.
pub open spec fn false_lit() -> Seq<char> {
    seq!['f', 'a', 'l', 's', 'e']
}

/// The quoted key `"description"`.
pub open spec fn key_description() -> Seq<char> {
    seq!['"', 'd', 'e', 's', 'c', 'r', 'i', 'p', 't', 'i', 'o', 'n', '"']
}

/// The quoted key `"done"`.
pub open spec fn key_done() -> Seq<char> {
    seq!['"', 'd', 'o', 'n', 'e', '"']
}

/// The opening of a task object, through the quote that starts the
/// description string: `{"description":"`.
pub open spec fn obj_open() -> Seq<char> {
    seq!['{'] + key_description() + seq![':', '"']
}

/// The middle of a task object, from the quote that ends the description
/// string through the colon before the flag: `","done":`.
pub open spec fn obj_mid() -> Seq<char> {
    seq!['"', ','] + key_done() + seq![':']
}

/// The encoding of one task object.
pub open spec fn encode_task(t: TaskView) -> Seq<char> {
    obj_open() + escape_seq(t.description) + obj_mid() + encode_bool(t.done) + seq!['}']
}

/// The encoding of the comma-separated task objects of a non-empty list.
pub open spec fn encode_items(ts: Seq<TaskView>) -> Seq<char>
    decreases ts.len(),
{
    if ts.len() <= 1 {
        if ts.len() == 0 {
            Seq::empty()
        } else {
            encode_task(ts[0])
        }
    } else {
        encode_task(ts[0]) + seq![','] + encode_items(ts.drop_first())
    }
}

/// The encoding of a whole task list: the bracketed, comma-separated task
/// objects, `[]` for an empty list.
pub open spec fn encode_list(ts: Seq<TaskView>) -> Seq<char> {
    seq!['['] + encode_items(ts) + seq![']']
}

/// Appending one task to a list extends the encoded items by a comma (when
/// the list was non-empty) and the task's object.
proof fn lemma_encode_items_push(ts: Seq<TaskView>, t: TaskView)
    ensures
        ts.len() == 0 ==> encode_items(ts.push(t)) == encode_task(t),
        ts.len() > 0 ==> encode_items(ts.push(t)) == encode_items(ts) + seq![','] + encode_task(
            t,
        ),
    decreases ts.len(),
{
    if ts.len() == 0 {
        assert(ts.push(t)[0] == t);
    } else {
        lemma_encode_items_push(ts.drop_first(), t);
        assert(ts.push(t).drop_first() =~= ts.drop_first().push(t));
        if ts.len() == 1 {
            assert(encode_items(ts.push(t)) == encode_task(ts.push(t)[0]) + seq![',']
                + encode_items(ts.push(t).drop_first()));
            assert(ts.push(t)[0] == ts[0]);
        } else {
            assert(ts.push(t)[0] == ts[0]);
            assert(encode_items(ts) + seq![','] + encode_task(t) =~= encode_task(ts[0])
                + seq![','] + (encode_items(ts.drop_first()) + seq![','] + encode_task(t)));
        }
    }
}

fn hex_digit(d: u32) -> (c: char)
    requires
        d < 16,
    ensures
        c == hex_char(d as int),
{
    if d == 0 {
        '0'
    } else if d == 1 {
        '1'
    } else if d == 2 {
        '2'
    } else if d == 3 {
        '3'
    } else if d == 4 {
        '4'
    } else if d == 5 {
        '5'
    } else if d == 6 {
        '6'
    } else if d == 7 {
        '7'
    } else if d == 8 {
        '8'
    } else if d == 9 {
        '9'
    } else if d == 10 {
        'a'
    } else if d == 11 {
        'b'
    } else if d == 12 {
        'c'
    } else if d == 13 {
        'd'
    } else if d == 14 {
        'e'
    } else {
        'f'
    }
}

/// Appends the escaped form of one description character.
fn push_escaped(out: &mut Vec<char>, c: char)
    ensures
        final(out)@ == old(out)@ + escape_char(c),
{
    if c == '"' {
        out.push('\\');
        out.push('"');
    } else if c == '\\' {
        out.push('\\');
        out.push('\\');
    } else {
        let u = c as u32;
        if u < 0x20 {
            out.push('\\');
            out.push('u');
            out.push('0');
            out.push('0');
            out.push(hex_digit(u / 16));
            out.push(hex_digit(u % 16));
        } else {
            out.push(c);
        }
    }
    proof {
        assert(out@ =~= old(out)@ + escape_char(c));
    }
}

/// A one-character description escapes to that character's escape.
proof fn lemma_escape_seq_singleton(c: char)
    ensures
        escape_seq(seq![c]) == escape_char(c),
{
    let s1 = seq![c];
    assert(s1.len() == 1);
    assert(s1[0] == c);
    assert(s1.drop_first().len() == 0);
    assert(escape_seq(s1.drop_first()) == Seq::<char>::empty());
    assert(escape_seq(s1) == escape_char(c) + Seq::<char>::empty());
    assert(escape_char(c) + Seq::<char>::empty() =~= escape_char(c));
}

/// Splitting a description splits its escaped form.
proof fn lemma_escape_seq_append(a: Seq<char>, b: Seq<char>)
    ensures
        escape_seq(a + b) == escape_seq(a) + escape_seq(b),
    decreases a.len(),
{
    if a.len() == 0 {
        assert(a + b =~= b);
        assert(escape_seq(a) + escape_seq(b) =~= escape_seq(b));
    } else {
        lemma_escape_seq_append(a.drop_first(), b);
        assert((a + b).drop_first() =~= a.drop_first() + b);
        assert((a + b)[0] == a[0]);
        assert(escape_char(a[0]) + (escape_seq(a.drop_first()) + escape_seq(b)) =~= (escape_char(
            a[0],
        ) + escape_seq(a.drop_first())) + escape_seq(b));
    }
}

/// Appends the encoding of one task object.
#[verifier::rlimit(50)]
fn encode_task_into(out: &mut Vec<char>, t: &Task)
    ensures
        final(out)@ == old(out)@ + encode_task(t@),
{
    out.push('{');
    out.push('"');
    out.push('d');
    out.push('e');
    out.push('s');
    out.push('c');
    out.push('r');
    out.push('i');
    out.push('p');
    out.push('t');
    out.push('i');
    out.push('o');
    out.push('n');
    out.push('"');
    out.push(':');
    out.push('"');
    proof {
        assert(out@ =~= old(out)@ + obj_open());
    }
    let d = &t.description;
    let n = d.as_str().unicode_len();
    let mut k: usize = 0;
    while k < n
        invariant
            n == t@.description.len(),
            k <= n,
            d == &t.description,
            out@ == old(out)@ + obj_open() + escape_seq(t@.description.take(k as int)),
        decreases n - k,
    {
        let c = d.as_str().get_char(k);
        push_escaped(out, c);
        proof {
            let desc = t@.description;
            assert(desc.take(k as int + 1) =~= desc.take(k as int) + seq![desc[k as int]]);
            lemma_escape_seq_append(desc.take(k as int), seq![desc[k as int]]);
            lemma_escape_seq_singleton(desc[k as int]);
            assert(out@ =~= old(out)@ + obj_open() + escape_seq(desc.take(k as int + 1)));
        }
        k = k + 1;
    }
    proof {
        assert(t@.description.take(n as int) =~= t@.description);
    }
    out.push('"');
    out.push(',');
    out.push('"');
    out.push('d');
    out.push('o');
    out.push('n');
    out.push('e');
    out.push('"');
    out.push(':');
    proof {
        assert(out@ =~= old(out)@ + obj_open() + escape_seq(t@.description) + obj_mid());
    }
    if t.done {
        out.push('t');
        out.push('r');
        out.push('u');
        out.push('e');
    } else {
        out.push('f');
        out.push('a');
        out.push('l');
        out.push('s');
        out.push('e');
    }
    proof {
        assert(out@ =~= old(out)@ + obj_open() + escape_seq(t@.description) + obj_mid()
            + encode_bool(t@.done));
    }
    out.push('}');
    proof {
        assert(out@ =~= old(out)@ + encode_task(t@));
    }
}

/// JSON insignificant whitespace.
pub open spec fn is_ws(c: char) -> bool {
    c == ' ' || c == '\t' || c == '\n' || c == '\r'
}

/// The first position at or after `i` holding no whitespace.
pub open spec fn skip_ws(s: Seq<char>, i: int) -> int
    decreases s.len() - i,
    when 0 <= i <= s.len()
{
    if i < s.len() && is_ws(s[i]) {
        skip_ws(s, i + 1)
    } else {
        i
    }
}

proof fn lemma_skip_ws_bounds(s: Seq<char>, i: int)
    requires
        0 <= i <= s.len(),
    ensures
        i <= skip_ws(s, i) <= s.len(),
    decreases s.len() - i,
{
    if i < s.len() && is_ws(s[i]) {
        lemma_skip_ws_bounds(s, i + 1);
    }
}

/// The value of a hexadecimal digit character, upper or lower case.
pub open spec fn hex_value(c: char) -> Option<int> {
    if c == '0' {
        Some(0)
    } else if c == '1' {
        Some(1)
    } else if c == '2' {
        Some(2)
    } else if c == '3' {
        Some(3)
    } else if c == '4' {
        Some(4)
    } else if c == '5' {
        Some(5)
    } else if c == '6' {
        Some(6)
    } else if c == '7' {
        Some(7)
    } else if c == '8' {
        Some(8)
    } else if c == '9' {
        Some(9)
    } else if c == 'a' || c == 'A' {
        Some(10)
    } else if c == 'b' || c == 'B' {
        Some(11)
    } else if c == 'c' || c == 'C' {
        Some(12)
    } else if c == 'd' || c == 'D' {
        Some(13)
    } else if c == 'e' || c == 'E' {
        Some(14)
    } else if c == 'f' || c == 'F' {
        Some(15)
    } else {
        None
    }
}

/// The character written by a one-letter string escape.
pub open spec fn short_escape(e: char) -> Option<char> {
    if e == '"' {
        Some('"')
    } else if e == '\\' {
        Some('\\')
    } else if e == '/' {
        Some('/')
    } else if e == 'b' {
        Some('\u{8}')
    } else if e == 'f' {
        Some('\u{c}')
    } else if e == 'n' {
        Some('\n')
    } else if e == 'r' {
        Some('\r')
    } else if e == 't' {
        Some('\t')
    } else {
        None
    }
}

/// Reads a JSON string from position `i`, just past the opening quote, to
/// its closing quote: the decoded characters and the position after the
/// closing quote. Accepts the one-letter escapes and `\u00XX` escapes for
/// control characters; a bare control character or a lone backslash is
/// rejected.
pub open spec fn parse_string_body(s: Seq<char>, i: int) -> Option<(Seq<char>, int)>
    decreases s.len() - i,
    when 0 <= i <= s.len()
{
    if i >= s.len() {
        None
    } else if s[i] == '"' {
        Some((Seq::empty(), i + 1))
    } else if s[i] == '\\' {
        if i + 1 >= s.len() {
            None
        } else if s[i + 1] == 'u' {
            if i + 6 <= s.len() && s[i + 2] == '0' && s[i + 3] == '0' && hex_value(s[i + 4]) is Some
                && hex_value(s[i + 5]) is Some && 16 * hex_value(s[i + 4])->Some_0 + hex_value(
                s[i + 5],
            )->Some_0 < 0x20 {
                match parse_string_body(s, i + 6) {
                    Some(r) => Some(
                        (
                            seq![
                                ((16 * hex_value(s[i + 4])->Some_0 + hex_value(
                                    s[i + 5],
                                )->Some_0) as u8) as char,
                            ] + r.0,
                            r.1,
                        ),
                    ),
                    None => None,
                }
            } else {
                None
            }
        } else {
            match short_escape(s[i + 1]) {
                Some(c) => match parse_string_body(s, i + 2) {
                    Some(r) => Some((seq![c] + r.0, r.1)),
                    None => None,
                },
                None => None,
            }
        }
    } else if (s[i] as u32) < 0x20 {
        None
    } else {
        match parse_string_body(s, i + 1) {
            Some(r) => Some((seq![s[i]] + r.0, r.1)),
            None => None,
        }
    }
}

proof fn lemma_parse_string_body_bounds(s: Seq<char>, i: int)
    requires
        0 <= i <= s.len(),
    ensures
        parse_string_body(s, i) matches Some(r) ==> i < r.1 <= s.len(),
    decreases s.len() - i,
{
    if i < s.len() && s[i] == '\\' && i + 1 < s.len() {
        if s[i + 1] == 'u' {
            if i + 6 <= s.len() {
                lemma_parse_string_body_bounds(s, i + 6);
            }
        } else {
            lemma_parse_string_body_bounds(s, i + 2);
        }
    } else if i < s.len() {
        lemma_parse_string_body_bounds(s, i + 1);
    }
}

/// Reads `true` or `false` at position `i`.
pub open spec fn parse_bool(s: Seq<char>, i: int) -> Option<(bool, int)> {
    if matches_at(s, i, true_lit()) {
        Some((true, i + 4))
    } else if matches_at(s, i, false_lit()) {
        Some((false, i + 5))
    } else {
        None
    }
}

/// Reads the rest of a task object whose `"description"` key stands first,
/// from the position `j` of that key: a colon, a string, a comma, the
/// `"done"` key, a colon, a boolean, and a closing brace, with whitespace
/// allowed between tokens.
pub open spec fn parse_after_description_key(s: Seq<char>, j: int) -> Option<(TaskView, int)>
    recommends
        0 <= j,
        matches_at(s, j, key_description()),
{
    let j2 = skip_ws(s, j + 13);
    if j2 < s.len() && s[j2] == ':' {
        let j3 = skip_ws(s, j2 + 1);
        if j3 < s.len() && s[j3] == '"' {
            match parse_string_body(s, j3 + 1) {
                Some(r) => {
                    let j4 = skip_ws(s, r.1);
                    if j4 < s.len() && s[j4] == ',' {
                        let j5 = skip_ws(s, j4 + 1);
                        if matches_at(s, j5, key_done()) {
                            let j6 = skip_ws(s, j5 + 6);
                            if j6 < s.len() && s[j6] == ':' {
                                let j7 = skip_ws(s, j6 + 1);
                                match parse_bool(s, j7) {
                                    Some(rb) => {
                                        let j8 = skip_ws(s, rb.1);
                                        if j8 < s.len() && s[j8] == '}' {
                                            Some(
                                                (TaskView { description: r.0, done: rb.0 }, j8 + 1),
                                            )
                                        } else {
                                            None
                                        }
                                    },
                                    None => None,
                                }
                            } else {
                                None
                            }
                        } else {
                            None
                        }
                    } else {
                        None
                    }
                },
                None => None,
            }
        } else {
            None
        }
    } else {
        None
    }
}

/// Reads the rest of a task object whose `"done"` key stands first, from
/// the position `j` of that key: a colon, a boolean, a comma, the
/// `"description"` key, a colon, a string, and a closing brace, with
/// whitespace allowed between tokens.
pub open spec fn parse_after_done_key(s: Seq<char>, j: int) -> Option<(TaskView, int)>
    recommends
        0 <= j,
        matches_at(s, j, key_done()),
{
    let j2 = skip_ws(s, j + 6);
    if j2 < s.len() && s[j2] == ':' {
        let j3 = skip_ws(s, j2 + 1);
        match parse_bool(s, j3) {
            Some(rb) => {
                let j4 = skip_ws(s, rb.1);
                if j4 < s.len() && s[j4] == ',' {
                    let j5 = skip_ws(s, j4 + 1);
                    if matches_at(s, j5, key_description()) {
                        let j6 = skip_ws(s, j5 + 13);
                        if j6 < s.len() && s[j6] == ':' {
                            let j7 = skip_ws(s, j6 + 1);
                            if j7 < s.len() && s[j7] == '"' {
                                match parse_string_body(s, j7 + 1) {
                                    Some(r) => {
                                        let j8 = skip_ws(s, r.1);
                                        if j8 < s.len() && s[j8] == '}' {
                                            Some(
                                                (TaskView { description: r.0, done: rb.0 }, j8 + 1),
                                            )
                                        } else {
                                            None
                                        }
                                    },
                                    None => None,
                                }
                            } else {
                                None
                            }
                        } else {
                            None
                        }
                    } else {
                        None
                    }
                } else {
                    None
                }
            },
            None => None,
        }
    } else {
        None
    }
}

/// Reads one task object at position `i`: an opening brace, then the two
/// keys `"description"` and `"done"` in either order, each followed by a
/// colon and its value, separated by a comma, then a closing brace, with
/// whitespace allowed between tokens. Returns the task and the position
/// after the closing brace.
pub open spec fn parse_task(s: Seq<char>, i: int) -> Option<(TaskView, int)>
    recommends
        0 <= i <= s.len(),
{
    if i < s.len() && s[i] == '{' {
        let j = skip_ws(s, i + 1);
        if matches_at(s, j, key_description()) {
            parse_after_description_key(s, j)
        } else if matches_at(s, j, key_done()) {
            parse_after_done_key(s, j)
        } else {
            None
        }
    } else {
        None
    }
}

proof fn lemma_parse_after_description_key_bounds(s: Seq<char>, j: int)
    requires
        0 <= j,
        matches_at(s, j, key_description()),
    ensures
        parse_after_description_key(s, j) matches Some(r) ==> j < r.1 <= s.len(),
{
    lemma_skip_ws_bounds(s, j + 13);
    let j2 = skip_ws(s, j + 13);
    if j2 < s.len() && s[j2] == ':' {
        lemma_skip_ws_bounds(s, j2 + 1);
        let j3 = skip_ws(s, j2 + 1);
        if j3 < s.len() && s[j3] == '"' {
            lemma_parse_string_body_bounds(s, j3 + 1);
            match parse_string_body(s, j3 + 1) {
                Some(r) => {
                    lemma_skip_ws_bounds(s, r.1);
                    let j4 = skip_ws(s, r.1);
                    if j4 < s.len() && s[j4] == ',' {
                        lemma_skip_ws_bounds(s, j4 + 1);
                        let j5 = skip_ws(s, j4 + 1);
                        if matches_at(s, j5, key_done()) {
                            lemma_skip_ws_bounds(s, j5 + 6);
                            let j6 = skip_ws(s, j5 + 6);
                            if j6 < s.len() && s[j6] == ':' {
                                lemma_skip_ws_bounds(s, j6 + 1);
                                let j7 = skip_ws(s, j6 + 1);
                                match parse_bool(s, j7) {
                                    Some(rb) => {
                                        lemma_skip_ws_bounds(s, rb.1);
                                    },
                                    None => {},
                                }
                            }
                        }
                    }
                },
                None => {},
            }
        }
    }
}

proof fn lemma_parse_after_done_key_bounds(s: Seq<char>, j: int)
    requires
        0 <= j,
        matches_at(s, j, key_done()),
    ensures
        parse_after_done_key(s, j) matches Some(r) ==> j < r.1 <= s.len(),
{
    lemma_skip_ws_bounds(s, j + 6);
    let j2 = skip_ws(s, j + 6);
    if j2 < s.len() && s[j2] == ':' {
        lemma_skip_ws_bounds(s, j2 + 1);
        let j3 = skip_ws(s, j2 + 1);
        match parse_bool(s, j3) {
            Some(rb) => {
                lemma_skip_ws_bounds(s, rb.1);
                let j4 = skip_ws(s, rb.1);
                if j4 < s.len() && s[j4] == ',' {
                    lemma_skip_ws_bounds(s, j4 + 1);
                    let j5 = skip_ws(s, j4 + 1);
                    if matches_at(s, j5, key_description()) {
                        lemma_skip_ws_bounds(s, j5 + 13);
                        let j6 = skip_ws(s, j5 + 13);
                        if j6 < s.len() && s[j6] == ':' {
                            lemma_skip_ws_bounds(s, j6 + 1);
                            let j7 = skip_ws(s, j6 + 1);
                            if j7 < s.len() && s[j7] == '"' {
                                lemma_parse_string_body_bounds(s, j7 + 1);
                                match parse_string_body(s, j7 + 1) {
                                    Some(r) => {
                                        lemma_skip_ws_bounds(s, r.1);
                                    },
                                    None => {},
                                }
                            }
                        }
                    }
                }
            },
            None => {},
        }
    }
}

proof fn lemma_parse_task_bounds(s: Seq<char>, i: int)
    requires
        0 <= i <= s.len(),
    ensures
        parse_task(s, i) matches Some(r) ==> i < r.1 <= s.len(),
{
    if i < s.len() && s[i] == '{' {
        lemma_skip_ws_bounds(s, i + 1);
        let j = skip_ws(s, i + 1);
        if matches_at(s, j, key_description()) {
            lemma_parse_after_description_key_bounds(s, j);
        } else if matches_at(s, j, key_done()) {
            lemma_parse_after_done_key_bounds(s, j);
        }
    }
}

/// Reads one or more comma-separated task objects starting at position `i`:
/// the tasks in order and the position after the last object.
pub open spec fn parse_items(s: Seq<char>, i: int) -> Option<(Seq<TaskView>, int)>
    decreases s.len() - i,
    when 0 <= i <= s.len() via parse_items_decreases
{
    match parse_task(s, i) {
        Some(r) => {
            let k = skip_ws(s, r.1);
            if k < s.len() && s[k] == ',' {
                let k2 = skip_ws(s, k + 1);
                match parse_items(s, k2) {
                    Some(rs) => Some((seq![r.0] + rs.0, rs.1)),
                    None => None,
                }
            } else {
                Some((seq![r.0], r.1))
            }
        },
        None => None,
    }
}

#[via_fn]
proof fn parse_items_decreases(s: Seq<char>, i: int) {
    lemma_parse_task_bounds(s, i);
    match parse_task(s, i) {
        Some(r) => {
            lemma_skip_ws_bounds(s, r.1);
            let k = skip_ws(s, r.1);
            if k < s.len() && s[k] == ',' {
                lemma_skip_ws_bounds(s, k + 1);
            }
        },
        None => {},
    }
}

proof fn lemma_parse_items_bounds(s: Seq<char>, i: int)
    requires
        0 <= i <= s.len(),
    ensures
        parse_items(s, i) matches Some(r) ==> i < r.1 <= s.len(),
    decreases s.len() - i,
{
    lemma_parse_task_bounds(s, i);
    match parse_task(s, i) {
        Some(r) => {
            lemma_skip_ws_bounds(s, r.1);
            let k = skip_ws(s, r.1);
            if k < s.len() && s[k] == ',' {
                lemma_skip_ws_bounds(s, k + 1);
                let k2 = skip_ws(s, k + 1);
                lemma_parse_items_bounds(s, k2);
            }
        },
        None => {},
    }
}

/// Reads a whole stored task list: a bracketed, comma-separated sequence of
/// task objects, with whitespace allowed between tokens and around the
/// document, and nothing after the closing bracket. `None` on any other
/// content.
pub open spec fn parse_tasks_spec(s: Seq<char>) -> Option<Seq<TaskView>> {
    let i0 = skip_ws(s, 0);
    if i0 < s.len() && s[i0] == '[' {
        let i1 = skip_ws(s, i0 + 1);
        if i1 < s.len() && s[i1] == ']' {
            if skip_ws(s, i1 + 1) == s.len() {
                Some(Seq::empty())
            } else {
                None
            }
        } else {
            match parse_items(s, i1) {
                Some(r) => {
                    let k = skip_ws(s, r.1);
                    if k < s.len() && s[k] == ']' && skip_ws(s, k + 1) == s.len() {
                        Some(r.0)
                    } else {
                        None
                    }
                },
                None => None,
            }
        }
    } else {
        None
    }
}

/// What loading stored content yields: an empty store is an empty list, and
/// any other content must parse as a task list.
pub open spec fn decode_store_spec(s: Seq<char>) -> Option<Seq<TaskView>> {
    if s.len() == 0 {
        Some(Seq::empty())
    } else {
        parse_tasks_spec(s)
    }
}

/// Encodes a whole task list for the store: the JSON array of its task
/// objects, in order, in compact form.
pub fn encode_tasks(tasks: &Vec<Task>) -> (s: String)
    ensures
        s@ == encode_list(views(tasks@)),
{
    let mut out: Vec<char> = Vec::new();
    out.push('[');
    let mut i: usize = 0;
    while i < tasks.len()
        invariant
            i <= tasks@.len(),
            out@ == seq!['['] + encode_items(views(tasks@).take(i as int)),
        decreases tasks@.len() - i,
    {
        if i > 0 {
            out.push(',');
        }
        encode_task_into(&mut out, &tasks[i]);
        proof {
            let vs = views(tasks@);
            assert(vs.take(i as int + 1) =~= vs.take(i as int).push(vs[i as int]));
            lemma_encode_items_push(vs.take(i as int), vs[i as int]);
            assert(vs[i as int] == tasks@[i as int]@);
            assert(out@ =~= seq!['['] + encode_items(vs.take(i as int + 1)));
        }
        i = i + 1;
    }
    out.push(']');
    proof {
        assert(views(tasks@).take(tasks@.len() as int) =~= views(tasks@));
        assert(out@ =~= encode_list(views(tasks@)));
    }
    chars_to_string(&out)
}

fn skip_ws_exec(s: &Vec<char>, i: usize) -> (j: usize)
    requires
        i <= s@.len(),
    ensures
        j as int == skip_ws(s@, i as int),
        i <= j <= s@.len(),
    decreases s@.len() - i,
{
    proof {
        lemma_skip_ws_bounds(s@, i as int);
    }
    if i < s.len() {
        let c = s[i];
        if c == ' ' || c == '\t' || c == '\n' || c == '\r' {
            return skip_ws_exec(s, i + 1);
        }
    }
    i
}

fn hex_value_exec(c: char) -> (r: Option<u32>)
    ensures
        r is Some <==> hex_value(c) is Some,
        r matches Some(v) ==> hex_value(c) == Some(v as int) && v < 16,
{
    if c == '0' {
        Some(0)
    } else if c == '1' {
        Some(1)
    } else if c == '2' {
        Some(2)
    } else if c == '3' {
        Some(3)
    } else if c == '4' {
        Some(4)
    } else if c == '5' {
        Some(5)
    } else if c == '6' {
        Some(6)
    } else if c == '7' {
        Some(7)
    } else if c == '8' {
        Some(8)
    } else if c == '9' {
        Some(9)
    } else if c == 'a' || c == 'A' {
        Some(10)
    } else if c == 'b' || c == 'B' {
        Some(11)
    } else if c == 'c' || c == 'C' {
        Some(12)
    } else if c == 'd' || c == 'D' {
        Some(13)
    } else if c == 'e' || c == 'E' {
        Some(14)
    } else if c == 'f' || c == 'F' {
        Some(15)
    } else {
        None
    }
}

fn matches_at_exec(s: &Vec<char>, i: usize, lit: &Vec<char>) -> (r: bool)
    requires
        i <= s@.len(),
    ensures
        r == matches_at(s@, i as int, lit@),
{
    let n = s.len();
    if n - i < lit.len() {
        return false;
    }
    let mut k: usize = 0;
    while k < lit.len()
        invariant
            n == s@.len(),
            i + lit@.len() <= n,
            k <= lit@.len(),
            forall|m: int| 0 <= m < k ==> s@[i + m] == lit@[m],
        decreases lit@.len() - k,
    {
        if s[i + k] != lit[k] {
            proof {
                assert(s@[i as int + k as int] != lit@[k as int]);
            }
            return false;
        }
        k = k + 1;
    }
    true
}

fn true_lit_exec() -> (v: Vec<char>)
    ensures
        v@ == true_lit(),
{
    let mut v: Vec<char> = Vec::new();
    v.push('t');
    v.push('r');
    v.push('u');
    v.push('e');
    proof {
        assert(v@ =~= true_lit());
    }
    v
}

fn false_lit_exec() -> (v: Vec<char>)
    ensures
        v@ == false_lit(),
{
    let mut v: Vec<char> = Vec::new();
    v.push('f');
    v.push('a');
    v.push('l');
    v.push('s');
    v.push('e');
    proof {
        assert(v@ =~= false_lit());
    }
    v
}

fn key_description_exec() -> (v: Vec<char>)
    ensures
        v@ == key_description(),
{
    let mut v: Vec<char> = Vec::new();
    v.push('"');
    v.push('d');
    v.push('e');
    v.push('s');
    v.push('c');
    v.push('r');
    v.push('i');
    v.push('p');
    v.push('t');
    v.push('i');
    v.push('o');
    v.push('n');
    v.push('"');
    proof {
        assert(v@ =~= key_description());
    }
    v
}

fn key_done_exec() -> (v: Vec<char>)
    ensures
        v@ == key_done(),
{
    let mut v: Vec<char> = Vec::new();
    v.push('"');
    v.push('d');
    v.push('o');
    v.push('n');
    v.push('e');
    v.push('"');
    proof {
        assert(v@ =~= key_done());
    }
    v
}

fn parse_bool_exec(s: &Vec<char>, i: usize) -> (r: Option<(bool, usize)>)
    requires
        i <= s@.len(),
    ensures
        r is Some <==> parse_bool(s@, i as int) is Some,
        r matches Some(p) ==> parse_bool(s@, i as int) == Some((p.0, p.1 as int)),
{
    let n = s.len();
    let t = true_lit_exec();
    if matches_at_exec(s, i, &t) {
        proof {
            assert(i + 4 <= n);
        }
        return Some((true, i + 4));
    }
    let f = false_lit_exec();
    if matches_at_exec(s, i, &f) {
        proof {
            assert(i + 5 <= n);
        }
        return Some((false, i + 5));
    }
    None
}

#[verifier::rlimit(50)]
fn parse_string_body_exec(s: &Vec<char>, i: usize) -> (r: Option<(Vec<char>, usize)>)
    requires
        i <= s@.len(),
    ensures
        r is Some <==> parse_string_body(s@, i as int) is Some,
        r matches Some(p) ==> parse_string_body(s@, i as int) == Some((p.0@, p.1 as int)),
    decreases s@.len() - i,
{
    if i >= s.len() {
        return None;
    }
    let c = s[i];
    if c == '"' {
        let empty: Vec<char> = Vec::new();
        proof {
            assert(empty@ =~= Seq::<char>::empty());
        }
        return Some((empty, i + 1));
    }
    if c == '\\' {
        if i + 1 >= s.len() {
            return None;
        }
        let e = s[i + 1];
        if e == 'u' {
            if s.len() - i >= 6 && s[i + 2] == '0' && s[i + 3] == '0' {
                let h1 = hex_value_exec(s[i + 4]);
                let h2 = hex_value_exec(s[i + 5]);
                if h1.is_some() && h2.is_some() {
                    let v = 16 * h1.unwrap() + h2.unwrap();
                    if v < 0x20 {
                        match parse_string_body_exec(s, i + 6) {
                            Some(p) => {
                                let (mut cs, j) = p;
                                let dc = (v as u8) as char;
                                cs.insert(0, dc);
                                proof {
                                    let sp = parse_string_body(s@, i as int + 6)->Some_0;
                                    assert(cs@ =~= seq![dc] + sp.0);
                                }
                                Some((cs, j))
                            },
                            None => None,
                        }
                    } else {
                        None
                    }
                } else {
                    None
                }
            } else {
                None
            }
        } else {
            let dec: Option<char> = if e == '"' {
                Some('"')
            } else if e == '\\' {
                Some('\\')
            } else if e == '/' {
                Some('/')
            } else if e == 'b' {
                Some('\u{8}')
            } else if e == 'f' {
                Some('\u{c}')
            } else if e == 'n' {
                Some('\n')
            } else if e == 'r' {
                Some('\r')
            } else if e == 't' {
                Some('\t')
            } else {
                None
            };
            proof {
                assert(dec == short_escape(s@[i as int + 1]));
            }
            match dec {
                Some(dc) => {
                    match parse_string_body_exec(s, i + 2) {
                        Some(p) => {
                            let (mut cs, j) = p;
                            cs.insert(0, dc);
                            proof {
                                let sp = parse_string_body(s@, i as int + 2)->Some_0;
                                assert(cs@ =~= seq![dc] + sp.0);
                            }
                            Some((cs, j))
                        },
                        None => None,
                    }
                },
                None => None,
            }
        }
    } else {
        let u = c as u32;
        if u < 0x20 {
            return None;
        }
        match parse_string_body_exec(s, i + 1) {
            Some(p) => {
                let (mut cs, j) = p;
                cs.insert(0, c);
                proof {
                    let sp = parse_string_body(s@, i as int + 1)->Some_0;
                    assert(cs@ =~= seq![c] + sp.0);
                }
                Some((cs, j))
            },
            None => None,
        }
    }
}

#[verifier::rlimit(50)]
fn parse_after_description_key_exec(s: &Vec<char>, j: usize) -> (r: Option<(Task, usize)>)
    requires
        j <= s@.len(),
        matches_at(s@, j as int, key_description()),
    ensures
        r is Some <==> parse_after_description_key(s@, j as int) is Some,
        r matches Some(p) ==> parse_after_description_key(s@, j as int) == Some(
            (p.0@, p.1 as int),
        ),
{
    let n = s.len();
    proof {
        assert(j + key_description().len() <= n);
    }
    let j2 = skip_ws_exec(s, j + 13);
    if j2 >= s.len() {
        return None;
    }
    if s[j2] != ':' {
        return None;
    }
    let j3 = skip_ws_exec(s, j2 + 1);
    if j3 >= s.len() {
        return None;
    }
    if s[j3] != '"' {
        return None;
    }
    match parse_string_body_exec(s, j3 + 1) {
        None => None,
        Some(p) => {
            let (cs, jb) = p;
            proof {
                lemma_parse_string_body_bounds(s@, j3 as int + 1);
            }
            let j4 = skip_ws_exec(s, jb);
            if j4 >= s.len() {
                return None;
            }
            if s[j4] != ',' {
                return None;
            }
            let j5 = skip_ws_exec(s, j4 + 1);
            let kn = key_done_exec();
            if !matches_at_exec(s, j5, &kn) {
                return None;
            }
            let j6 = skip_ws_exec(s, j5 + 6);
            if j6 >= s.len() {
                return None;
            }
            if s[j6] != ':' {
                return None;
            }
            let j7 = skip_ws_exec(s, j6 + 1);
            match parse_bool_exec(s, j7) {
                None => None,
                Some(pb) => {
                    let (b, jb2) = pb;
                    let j8 = skip_ws_exec(s, jb2);
                    if j8 >= s.len() {
                        return None;
                    }
                    if s[j8] != '}' {
                        return None;
                    }
                    let description = chars_to_string(&cs);
                    Some((Task { description, done: b }, j8 + 1))
                },
            }
        },
    }
}

#[verifier::rlimit(50)]
fn parse_after_done_key_exec(s: &Vec<char>, j: usize) -> (r: Option<(Task, usize)>)
    requires
        j <= s@.len(),
        matches_at(s@, j as int, key_done()),
    ensures
        r is Some <==> parse_after_done_key(s@, j as int) is Some,
        r matches Some(p) ==> parse_after_done_key(s@, j as int) == Some((p.0@, p.1 as int)),
{
    let n = s.len();
    proof {
        assert(j + key_done().len() <= n);
    }
    let j2 = skip_ws_exec(s, j + 6);
    if j2 >= s.len() {
        return None;
    }
    if s[j2] != ':' {
        return None;
    }
    let j3 = skip_ws_exec(s, j2 + 1);
    match parse_bool_exec(s, j3) {
        None => None,
        Some(pb) => {
            let (b, jb2) = pb;
            let j4 = skip_ws_exec(s, jb2);
            if j4 >= s.len() {
                return None;
            }
            if s[j4] != ',' {
                return None;
            }
            let j5 = skip_ws_exec(s, j4 + 1);
            let kd = key_description_exec();
            if !matches_at_exec(s, j5, &kd) {
                return None;
            }
            let j6 = skip_ws_exec(s, j5 + 13);
            if j6 >= s.len() {
                return None;
            }
            if s[j6] != ':' {
                return None;
            }
            let j7 = skip_ws_exec(s, j6 + 1);
            if j7 >= s.len() {
                return None;
            }
            if s[j7] != '"' {
                return None;
            }
            match parse_string_body_exec(s, j7 + 1) {
                None => None,
                Some(p) => {
                    let (cs, jb) = p;
                    proof {
                        lemma_parse_string_body_bounds(s@, j7 as int + 1);
                    }
                    let j8 = skip_ws_exec(s, jb);
                    if j8 >= s.len() {
                        return None;
                    }
                    if s[j8] != '}' {
                        return None;
                    }
                    let description = chars_to_string(&cs);
                    Some((Task { description, done: b }, j8 + 1))
                },
            }
        },
    }
}

fn parse_task_exec(s: &Vec<char>, i: usize) -> (r: Option<(Task, usize)>)
    requires
        i <= s@.len(),
    ensures
        r is Some <==> parse_task(s@, i as int) is Some,
        r matches Some(p) ==> parse_task(s@, i as int) == Some((p.0@, p.1 as int)),
{
    if i >= s.len() {
        return None;
    }
    if s[i] != '{' {
        return None;
    }
    let j = skip_ws_exec(s, i + 1);
    let kd = key_description_exec();
    if matches_at_exec(s, j, &kd) {
        parse_after_description_key_exec(s, j)
    } else {
        let kn = key_done_exec();
        if matches_at_exec(s, j, &kn) {
            parse_after_done_key_exec(s, j)
        } else {
            None
        }
    }
}

fn parse_items_exec(s: &Vec<char>, i: usize) -> (r: Option<(Vec<Task>, usize)>)
    requires
        i <= s@.len(),
    ensures
        r is Some <==> parse_items(s@, i as int) is Some,
        r matches Some(p) ==> parse_items(s@, i as int) == Some((views(p.0@), p.1 as int)),
    decreases s@.len() - i,
{
    proof {
        lemma_parse_task_bounds(s@, i as int);
    }
    match parse_task_exec(s, i) {
        None => None,
        Some(p) => {
            let (t, j) = p;
            let k = skip_ws_exec(s, j);
            if k < s.len() {
                let ck = s[k];
                if ck == ',' {
                    let k2 = skip_ws_exec(s, k + 1);
                    match parse_items_exec(s, k2) {
                        None => None,
                        Some(ps) => {
                            let (mut ts, m) = ps;
                            let ghost tv = t@;
                            ts.insert(0, t);
                            proof {
                                let sps = parse_items(s@, k2 as int)->Some_0;
                                assert(views(ts@) =~= seq![tv] + sps.0);
                            }
                            return Some((ts, m));
                        },
                    }
                } else {
                    let mut ts: Vec<Task> = Vec::new();
                    let ghost tv = t@;
                    ts.push(t);
                    proof {
                        assert(views(ts@) =~= seq![tv]);
                    }
                    return Some((ts, j));
                }
            } else {
                let mut ts: Vec<Task> = Vec::new();
                let ghost tv = t@;
                ts.push(t);
                proof {
                    assert(views(ts@) =~= seq![tv]);
                }
                return Some((ts, j));
            }
        },
    }
}

/// Decodes stored content as a task list: a JSON array of task objects with
/// nothing else around it. Returns `None` on malformed content.
pub fn parse_tasks(s: &str) -> (r: Option<Vec<Task>>)
    ensures
        r is Some <==> parse_tasks_spec(s@) is Some,
        r matches Some(v) ==> parse_tasks_spec(s@) == Some(views(v@)),
{
    let cs = str_to_chars(s);
    let i0 = skip_ws_exec(&cs, 0);
    if i0 >= cs.len() {
        return None;
    }
    if cs[i0] != '[' {
        return None;
    }
    let i1 = skip_ws_exec(&cs, i0 + 1);
    if i1 < cs.len() && cs[i1] == ']' {
        let e = skip_ws_exec(&cs, i1 + 1);
        if e == cs.len() {
            let empty: Vec<Task> = Vec::new();
            proof {
                assert(views(empty@) =~= Seq::<TaskView>::empty());
            }
            Some(empty)
        } else {
            None
        }
    } else {
        proof {
            lemma_parse_items_bounds(cs@, i1 as int);
        }
        match parse_items_exec(&cs, i1) {
            None => None,
            Some(p) => {
                let (ts, j) = p;
                let k = skip_ws_exec(&cs, j);
                if k < cs.len() {
                    let ck = cs[k];
                    if ck == ']' {
                        let e = skip_ws_exec(&cs, k + 1);
                        if e == cs.len() {
                            Some(ts)
                        } else {
                            None
                        }
                    } else {
                        None
                    }
                } else {
                    None
                }
            },
        }
    }
}

/// Decodes the full contents of the store: empty content is an empty task
/// list, and anything else must be a valid encoded task list.
pub fn decode_store(s: &str) -> (r: Option<Vec<Task>>)
    ensures
        r is Some <==> decode_store_spec(s@) is Some,
        r matches Some(v) ==> decode_store_spec(s@) == Some(views(v@)),
{
    if s.is_empty() {
        let empty: Vec<Task> = Vec::new();
        proof {
            assert(views(empty@) =~= Seq::<TaskView>::empty());
        }
        Some(empty)
    } else {
        parse_tasks(s)
    }
}

proof fn lemma_matches_at_concat(s: Seq<char>, i: int, a: Seq<char>, b: Seq<char>)
    requires
        0 <= i,
    ensures
        matches_at(s, i, a + b) <==> (matches_at(s, i, a) && matches_at(s, i + a.len(), b)),
{
    if matches_at(s, i, a + b) {
        assert forall|k: int| 0 <= k < a.len() implies s[i + k] == a[k] by {
            assert(s[i + k] == (a + b)[k]);
        }
        assert forall|k: int| 0 <= k < b.len() implies s[i + a.len() + k] == b[k] by {
            assert(s[i + (a.len() + k)] == (a + b)[a.len() + k]);
        }
    }
    if matches_at(s, i, a) && matches_at(s, i + a.len(), b) {
        assert forall|k: int| 0 <= k < (a + b).len() implies s[i + k] == (a + b)[k] by {
            if k < a.len() {
            } else {
                assert(s[i + a.len() + (k - a.len())] == b[k - a.len()]);
            }
        }
    }
}

proof fn lemma_skip_ws_no_ws(s: Seq<char>, i: int)
    requires
        0 <= i <= s.len(),
        i == s.len() || !is_ws(s[i]),
    ensures
        skip_ws(s, i) == i,
{
}

proof fn lemma_hex_value_of_hex_char(d: int)
    requires
        0 <= d < 16,
    ensures
        hex_value(hex_char(d)) == Some(d),
{
}

/// A JSON string holding the escaped form of `d` followed by its closing
/// quote reads back as exactly `d`.
#[verifier::rlimit(100)]
proof fn lemma_parse_string_body_of_escape(s: Seq<char>, i: int, d: Seq<char>)
    requires
        0 <= i,
        matches_at(s, i, escape_seq(d) + seq!['"']),
    ensures
        parse_string_body(s, i) == Some((d, i + escape_seq(d).len() + 1)),
    decreases d.len(),
{
    if d.len() == 0 {
        assert(s[i] == (escape_seq(d) + seq!['"'])[0]);
        assert(s[i] == '"');
        assert(parse_string_body(s, i) == Some((Seq::<char>::empty(), i + 1)));
        assert(d =~= Seq::<char>::empty());
    } else {
        let c = d[0];
        let e = escape_char(c);
        let rest = escape_seq(d.drop_first());
        assert(escape_seq(d) == e + rest);
        assert(escape_seq(d) + seq!['"'] =~= e + (rest + seq!['"']));
        lemma_matches_at_concat(s, i, e, rest + seq!['"']);
        let i2 = i + e.len();
        lemma_parse_string_body_of_escape(s, i2, d.drop_first());
        let endpos = i2 + rest.len() + 1;
        assert(parse_string_body(s, i2) == Some((d.drop_first(), endpos)));
        if c == '"' {
            assert(e =~= seq!['\\', '"']);
            assert(s[i] == e[0] && s[i + 1] == e[1]);
            assert(s[i] == '\\' && s[i + 1] == '"');
            assert(short_escape(s[i + 1]) == Some('"'));
            assert(parse_string_body(s, i) == Some((seq![c] + d.drop_first(), endpos)));
            assert(seq![c] + d.drop_first() =~= d);
        } else if c == '\\' {
            assert(e =~= seq!['\\', '\\']);
            assert(s[i] == '\\' && s[i + 1] == '\\');
            assert(short_escape(s[i + 1]) == Some('\\'));
            assert(parse_string_body(s, i) == Some((seq![c] + d.drop_first(), endpos)));
            assert(seq![c] + d.drop_first() =~= d);
        } else if (c as u32) < 0x20 {
            let u = (c as u32) as int;
            assert(e == seq!['\\', 'u', '0', '0', hex_char(u / 16), hex_char(u % 16)]);
            assert(s[i] == e[0] && s[i + 1] == e[1] && s[i + 2] == e[2] && s[i + 3] == e[3] && s[i
                + 4] == e[4] && s[i + 5] == e[5]);
            assert(s[i] == '\\' && s[i + 1] == 'u' && s[i + 2] == '0' && s[i + 3] == '0');
            lemma_hex_value_of_hex_char(u / 16);
            lemma_hex_value_of_hex_char(u % 16);
            assert(hex_value(s[i + 4]) == Some(u / 16));
            assert(hex_value(s[i + 5]) == Some(u % 16));
            assert(16 * (u / 16) + u % 16 == u);
            assert(((u as u8) as char) == c) by {
                vstd::utf8::char_u32_cast(c, c as u32);
            }
            assert(parse_string_body(s, i) == Some((seq![c] + d.drop_first(), endpos)));
            assert(seq![c] + d.drop_first() =~= d);
        } else {
            assert(e =~= seq![c]);
            assert(s[i + 0] == e[0]);
            assert(s[i] == c);
            assert(s[i] != '"' && s[i] != '\\' && (s[i] as u32) >= 0x20);
            assert(parse_string_body(s, i) == Some((seq![c] + d.drop_first(), endpos)));
            assert(seq![c] + d.drop_first() =~= d);
        }
    }
}

/// The encoding of a boolean reads back as that boolean.
proof fn lemma_parse_bool_of_encode(s: Seq<char>, i: int, b: bool)
    requires
        0 <= i,
        matches_at(s, i, encode_bool(b)),
    ensures
        parse_bool(s, i) == Some((b, i + encode_bool(b).len())),
{
    if b {
        assert(encode_bool(b) =~= true_lit());
    } else {
        assert(encode_bool(b) =~= false_lit());
        assert(s[i + 0] == false_lit()[0]);
        assert(s[i] == 'f');
        if matches_at(s, i, true_lit()) {
            assert(s[i + 0] == true_lit()[0]);
            assert(false);
        }
    }
}

proof fn lemma_matches_at_singleton(s: Seq<char>, i: int, c: char)
    requires
        0 <= i < s.len(),
        s[i] == c,
    ensures
        matches_at(s, i, seq![c]),
{
    assert forall|k: int| 0 <= k < seq![c].len() implies s[i + k] == seq![c][k] by {
        assert(k == 0);
        assert(seq![c][0] == c);
    }
}

proof fn lemma_encode_starts_brace(ts: Seq<TaskView>)
    requires
        ts.len() >= 1,
    ensures
        encode_items(ts).len() > 0,
        encode_items(ts)[0] == '{',
{
    let e0 = encode_task(ts[0]);
    assert(obj_open().len() == 16);
    assert(obj_open()[0] == '{');
    assert(e0[0] == '{');
    if ts.len() > 1 {
        assert(encode_items(ts)[0] == e0[0]);
    }
}

/// The encoding of one task reads back as exactly that task.
#[verifier::rlimit(100)]
proof fn lemma_parse_task_of_encode(s: Seq<char>, i: int, t: TaskView)
    requires
        0 <= i,
        matches_at(s, i, encode_task(t)),
    ensures
        parse_task(s, i) == Some((t, i + encode_task(t).len())),
{
    let d = t.description;
    let b = t.done;
    let esc = escape_seq(d);
    let eb = encode_bool(b);
    let a2 = obj_open() + esc;
    let a3 = a2 + obj_mid();
    let a4 = a3 + eb;
    assert(encode_task(t) == a4 + seq!['}']);
    lemma_matches_at_concat(s, i, a4, seq!['}']);
    lemma_matches_at_concat(s, i, a3, eb);
    lemma_matches_at_concat(s, i, a2, obj_mid());
    lemma_matches_at_concat(s, i, obj_open(), esc);
    assert(obj_open() == (seq!['{'] + key_description()) + seq![':', '"']);
    lemma_matches_at_concat(s, i, seq!['{'] + key_description(), seq![':', '"']);
    lemma_matches_at_concat(s, i, seq!['{'], key_description());
    assert(obj_open().len() == 16);
    assert(s[i + 0] == seq!['{'][0]);
    assert(s[i] == '{');
    let i1 = i + 1;
    assert(matches_at(s, i1, key_description()));
    assert(s[i1 + 0] == key_description()[0]);
    assert(s[i1] == '"');
    lemma_skip_ws_no_ws(s, i1);
    let i14 = i + 14;
    assert(matches_at(s, i14, seq![':', '"']));
    assert(s[i14 + 0] == seq![':', '"'][0]);
    assert(s[i14] == ':');
    assert(s[i14 + 1] == seq![':', '"'][1]);
    assert(s[i + 15] == '"');
    lemma_skip_ws_no_ws(s, i14);
    lemma_skip_ws_no_ws(s, i + 15);
    let i16 = i + 16;
    assert(matches_at(s, i16, esc));
    let m = i16 + esc.len();
    assert(matches_at(s, m, obj_mid()));
    assert(obj_mid() == (seq!['"', ','] + key_done()) + seq![':']);
    lemma_matches_at_concat(s, m, seq!['"', ','] + key_done(), seq![':']);
    lemma_matches_at_concat(s, m, seq!['"', ','], key_done());
    assert(s[m + 0] == seq!['"', ','][0]);
    assert(s[m] == '"');
    assert(s[m + 1] == seq!['"', ','][1]);
    assert(s[m + 1] == ',');
    lemma_matches_at_singleton(s, m, '"');
    lemma_matches_at_concat(s, i16, esc, seq!['"']);
    lemma_parse_string_body_of_escape(s, i16, d);
    assert(parse_string_body(s, i16) == Some((d, m + 1)));
    lemma_skip_ws_no_ws(s, m + 1);
    let j5 = m + 2;
    assert(matches_at(s, j5, key_done()));
    assert(s[j5 + 0] == key_done()[0]);
    assert(s[j5] == '"');
    lemma_skip_ws_no_ws(s, j5);
    let j6 = m + 8;
    assert(matches_at(s, j6, seq![':']));
    assert(s[j6 + 0] == seq![':'][0]);
    assert(s[j6] == ':');
    lemma_skip_ws_no_ws(s, j6);
    let j7 = m + 9;
    assert(matches_at(s, j7, eb));
    assert(s[j7 + 0] == eb[0]);
    if b {
        assert(eb[0] == 't');
    } else {
        assert(eb[0] == 'f');
    }
    lemma_skip_ws_no_ws(s, j7);
    lemma_parse_bool_of_encode(s, j7, b);
    let j8 = j7 + eb.len();
    assert(matches_at(s, j8, seq!['}']));
    assert(s[j8 + 0] == seq!['}'][0]);
    assert(s[j8] == '}');
    lemma_skip_ws_no_ws(s, j8);
    assert(encode_task(t).len() == 16 + esc.len() + 9 + eb.len() + 1);
    assert(parse_task(s, i) == Some((TaskView { description: d, done: b }, j8 + 1)));
    assert(TaskView { description: d, done: b } == t);
}

/// The encoding of a non-empty run of tasks, followed by the array's
/// closing bracket, reads back as exactly those tasks.
proof fn lemma_parse_items_of_encode(s: Seq<char>, i: int, ts: Seq<TaskView>)
    requires
        0 <= i,
        ts.len() >= 1,
        matches_at(s, i, encode_items(ts)),
        i + encode_items(ts).len() < s.len(),
        s[i + encode_items(ts).len()] == ']',
    ensures
        parse_items(s, i) == Some((ts, i + encode_items(ts).len())),
    decreases ts.len(),
{
    if ts.len() == 1 {
        assert(encode_items(ts) == encode_task(ts[0]));
        lemma_parse_task_of_encode(s, i, ts[0]);
        let j = i + encode_task(ts[0]).len();
        lemma_skip_ws_no_ws(s, j);
        assert(parse_items(s, i) == Some((seq![ts[0]], j)));
        assert(seq![ts[0]] =~= ts);
    } else {
        let e0 = encode_task(ts[0]);
        let restenc = encode_items(ts.drop_first());
        assert(encode_items(ts) == (e0 + seq![',']) + restenc);
        lemma_matches_at_concat(s, i, e0 + seq![','], restenc);
        lemma_matches_at_concat(s, i, e0, seq![',']);
        lemma_parse_task_of_encode(s, i, ts[0]);
        let j = i + e0.len();
        assert(s[j + 0] == seq![','][0]);
        assert(s[j] == ',');
        lemma_skip_ws_no_ws(s, j);
        let k2 = j + 1;
        assert(matches_at(s, k2, restenc));
        lemma_encode_starts_brace(ts.drop_first());
        assert(s[k2 + 0] == restenc[0]);
        assert(s[k2] == '{');
        lemma_skip_ws_no_ws(s, k2);
        assert(k2 + restenc.len() == i + encode_items(ts).len());
        lemma_parse_items_of_encode(s, k2, ts.drop_first());
        assert(parse_items(s, k2) == Some((ts.drop_first(), i + encode_items(ts).len())));
        assert(parse_items(s, i) == Some(
            (seq![ts[0]] + ts.drop_first(), i + encode_items(ts).len()),
        ));
        assert(seq![ts[0]] + ts.drop_first() =~= ts);
    }
}

/// Round trip through the store: the encoding of any task list decodes
/// back to exactly that list — every description (empty or not, any
/// characters) and every completion flag is preserved. So saving a loaded
/// list and loading it again yields the same list.
pub proof fn lemma_store_round_trip(ts: Seq<TaskView>)
    ensures
        parse_tasks_spec(encode_list(ts)) == Some(ts),
        decode_store_spec(encode_list(ts)) == Some(ts),
{
    let s = encode_list(ts);
    let items = encode_items(ts);
    assert(s == (seq!['['] + items) + seq![']']);
    assert(matches_at(s, 0, s)) by {
        assert(forall|k: int| 0 <= k < s.len() ==> s[#[trigger] (0 + k)] == s[k]);
    }
    lemma_matches_at_concat(s, 0, seq!['['] + items, seq![']']);
    lemma_matches_at_concat(s, 0, seq!['['], items);
    assert(s[(0int) + 0] == seq!['['][0]);
    assert(s[0] == '[');
    lemma_skip_ws_no_ws(s, 0);
    let close: int = 1 + items.len() as int;
    assert(matches_at(s, close, seq![']']));
    assert(s[close + 0] == seq![']'][0]);
    assert(s[close] == ']');
    if ts.len() == 0 {
        assert(items.len() == 0);
        assert(s[1] == ']');
        lemma_skip_ws_no_ws(s, 1);
        lemma_skip_ws_no_ws(s, 2);
        assert(parse_tasks_spec(s) == Some(Seq::<TaskView>::empty()));
        assert(Seq::<TaskView>::empty() =~= ts);
    } else {
        assert(matches_at(s, 1, items));
        lemma_encode_starts_brace(ts);
        assert(s[(1int) + 0] == items[0]);
        assert(s[1] == '{');
        lemma_skip_ws_no_ws(s, 1);
        lemma_parse_items_of_encode(s, 1, ts);
        lemma_skip_ws_no_ws(s, close);
        lemma_skip_ws_no_ws(s, close + 1);
        assert(parse_tasks_spec(s) == Some(ts));
    }
}

/// Saving a loaded list back to the store is a no-op on the stored
/// content's meaning: whatever list some content decodes to, writing that
/// list's encoding and decoding it again yields the same list.
pub proof fn lemma_save_after_load_is_noop(c: Seq<char>)
    requires
        decode_store_spec(c) is Some,
    ensures
        decode_store_spec(encode_list(decode_store_spec(c)->Some_0)) == decode_store_spec(c),
{
    lemma_store_round_trip(decode_store_spec(c)->Some_0);
}

/// A fresh or empty store decodes to the empty task list.
pub proof fn lemma_empty_store_decodes_empty()
    ensures
        decode_store_spec(Seq::<char>::empty()) == Some(Seq::<TaskView>::empty()),
{
}

} // verus!
