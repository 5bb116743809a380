//! The stored form of the task list: a compact, human-inspectable
//! structured text (object and array syntax with string escapes), a
//! verified encoder and decoder, and a proof that decoding an encoded
//! list gives the list back.

use vstd::prelude::*;

use crate::text::string_push;
use crate::todo::{task_views, Task, TaskView, Todo, TodoFileError};
use vstd::string::StrSliceExecFns;
use vstd::string::StringExecFns;

verus! {

// ---------------------------------------------------------------- encoding

/// The decimal digit character for `d` in `[0, 9]`.
pub open spec fn dec_digit(d: int) -> char {
    if d == 0 {
        '0'
    } else if d == 1 {
        '1'
    } else if d == 2 {
        '2'
    } else if d == 3 {
        '3'
    } else if d == 4 {
        '4'
    } else if d == 5 {
        '5'
    } else if d == 6 {
        '6'
    } else if d == 7 {
        '7'
    } else if d == 8 {
        '8'
    } else {
        '9'
    }
}

/// The lowercase hexadecimal digit character for `d` in `[0, 15]`.
pub open spec fn hex_digit(d: int) -> char {
    if d < 10 {
        dec_digit(d)
    } else if d == 10 {
        'a'
    } else if d == 11 {
        'b'
    } else if d == 12 {
        'c'
    } else if d == 13 {
        'd'
    } else if d == 14 {
        'e'
    } else {
        'f'
    }
}

/// How one character of a name appears in the stored text: quote and
/// backslash are escaped, the common control characters get their
/// short escapes, other control characters a four-digit escape, and
/// everything else stands for itself.
pub open spec fn escape_char(c: char) -> Seq<char> {
    if c == '"' {
        seq!['\\', '"']
    } else if c == '\\' {
        seq!['\\', '\\']
    } else if c == '\u{8}' {
        seq!['\\', 'b']
    } else if c == '\t' {
        seq!['\\', 't']
    } else if c == '\n' {
        seq!['\\', 'n']
    } else if c == '\u{c}' {
        seq!['\\', 'f']
    } else if c == '\r' {
        seq!['\\', 'r']
    } else if (c as u32) < 0x20 {
        seq!['\\', 'u', '0', '0', hex_digit((c as u32) as int / 16), hex_digit((c as u32) as int % 16)]
    } else {
        seq![c]
    }
}

/// A whole name, escaped character by character.
pub open spec fn escape_string(s: Seq<char>) -> Seq<char>
    decreases s.len(),
{
    if s.len() == 0 {
        Seq::empty()
    } else {
        escape_char(s[0]) + escape_string(s.drop_first())
    }
}

/// The canonical decimal form of `n` in `[0, 255]`: no sign, no
/// leading zeros.
pub open spec fn dec_number(n: int) -> Seq<char> {
    if n < 10 {
        seq![dec_digit(n)]
    } else if n < 100 {
        seq![dec_digit(n / 10), dec_digit(n % 10)]
    } else {
        seq![dec_digit(n / 100), dec_digit((n / 10) % 10), dec_digit(n % 10)]
    }
}

/// The stored form of a completion flag.
pub open spec fn encode_bool(b: bool) -> Seq<char> {
    if b {
        seq!['t', 'r', 'u', 'e']
    } else {
        seq!['f', 'a', 'l', 's', 'e']
    }
}

/// The opening of a task record, up to and including the quote that
/// starts the name.
pub open spec fn lit_task_open() -> Seq<char> {
    seq!['{', '"', 'n', 'a', 'm', 'e', '"', ':', '"']
}

/// What stands between the name's closing quote and the priority.
pub open spec fn lit_priority_sep() -> Seq<char> {
    seq![',', '"', 'p', 'r', 'i', 'o', 'r', 'i', 't', 'y', '"', ':']
}

/// What stands between the priority and the flag.
pub open spec fn lit_done_sep() -> Seq<char> {
    seq![',', '"', 'd', 'o', 'n', 'e', '"', ':']
}

/// The opening of the whole stored list, up to and including the
/// bracket that starts the task array.
pub open spec fn lit_list_open() -> Seq<char> {
    seq!['{', '"', 'l', 'i', 's', 't', '"', ':', '[']
}

/// The stored form of one task.
pub open spec fn encode_task(t: TaskView) -> Seq<char> {
    lit_task_open() + escape_string(t.name) + seq!['"'] + lit_priority_sep() + dec_number(
        t.priority,
    ) + lit_done_sep() + encode_bool(t.done) + seq!['}']
}

/// The stored form of a sequence of tasks, separated by commas.
pub open spec fn encode_tasks(ts: Seq<TaskView>) -> Seq<char>
    decreases ts.len(),
{
    if ts.len() == 0 {
        Seq::empty()
    } else if ts.len() == 1 {
        encode_task(ts[0])
    } else {
        encode_task(ts[0]) + seq![','] + encode_tasks(ts.drop_first())
    }
}

/// The stored form of a whole list.
pub open spec fn encode_todo(ts: Seq<TaskView>) -> Seq<char> {
    lit_list_open() + encode_tasks(ts) + seq![']', '}']
}

/// The views of the text literals the encoder appends, spelled out
/// character by character.
proof fn lemma_literal_views()
    ensures
        "{\"name\":\""@ =~= lit_task_open(),
        "\",\"priority\":"@ =~= seq!['"'] + lit_priority_sep(),
        ",\"done\":"@ =~= lit_done_sep(),
        "{\"list\":["@ =~= lit_list_open(),
        "true"@ =~= encode_bool(true),
        "false"@ =~= encode_bool(false),
        "]}"@ =~= seq![']', '}'],
        ","@ =~= seq![','],
{
    reveal_strlit("{\"name\":\"");
    reveal_strlit("\",\"priority\":");
    reveal_strlit(",\"done\":");
    reveal_strlit("{\"list\":[");
    reveal_strlit("true");
    reveal_strlit("false");
    reveal_strlit("]}");
    reveal_strlit(",");
}

/// The decimal digit character, executably.
fn dec_digit_exec(d: u8) -> (c: char)
    requires
        d < 10,
    ensures
        c == dec_digit(d as int),
{
    if d == 0 {
        '0'
    } else if d == 1 {
        '1'
    } else if d == 2 {
        '2'
    } else if d == 3 {
        '3'
    } else if d == 4 {
        '4'
    } else if d == 5 {
        '5'
    } else if d == 6 {
        '6'
    } else if d == 7 {
        '7'
    } else if d == 8 {
        '8'
    } else {
        '9'
    }
}

/// The hexadecimal digit character, executably.
fn hex_digit_exec(d: u8) -> (c: char)
    requires
        d < 16,
    ensures
        c == hex_digit(d as int),
{
    if d < 10 {
        dec_digit_exec(d)
    } else if d == 10 {
        'a'
    } else if d == 11 {
        'b'
    } else if d == 12 {
        'c'
    } else if d == 13 {
        'd'
    } else if d == 14 {
        'e'
    } else {
        'f'
    }
}

/// Appends the escaped form of one name character.
fn encode_char_into(out: &mut String, c: char)
    ensures
        final(out)@ == old(out)@ + escape_char(c),
{
    if c == '"' {
        string_push(out, '\\');
        string_push(out, '"');
    } else if c == '\\' {
        string_push(out, '\\');
        string_push(out, '\\');
    } else if c == '\u{8}' {
        string_push(out, '\\');
        string_push(out, 'b');
    } else if c == '\t' {
        string_push(out, '\\');
        string_push(out, 't');
    } else if c == '\n' {
        string_push(out, '\\');
        string_push(out, 'n');
    } else if c == '\u{c}' {
        string_push(out, '\\');
        string_push(out, 'f');
    } else if c == '\r' {
        string_push(out, '\\');
        string_push(out, 'r');
    } else if (c as u32) < 0x20 {
        let v: u32 = c as u32;
        string_push(out, '\\');
        string_push(out, 'u');
        string_push(out, '0');
        string_push(out, '0');
        string_push(out, hex_digit_exec((v / 16) as u8));
        string_push(out, hex_digit_exec((v % 16) as u8));
    } else {
        string_push(out, c);
    }
    proof {
        assert(out@ =~= old(out)@ + escape_char(c));
    }
}

/// One escaped character extends the escaped prefix.
proof fn lemma_escape_step(s: Seq<char>, i: int)
    requires
        0 <= i < s.len(),
    ensures
        escape_string(s.subrange(0, i + 1)) == escape_string(s.subrange(0, i)) + escape_char(s[i]),
    decreases i,
{
    let a = s.subrange(0, i + 1);
    let b = s.subrange(0, i);
    if i == 0 {
        assert(a.drop_first() =~= Seq::<char>::empty());
        assert(escape_string(b) + escape_char(s[0]) =~= escape_char(s[0])
            + escape_string(a.drop_first()));
    } else {
        lemma_escape_step(s.subrange(1, s.len() as int), i - 1);
        let t = s.subrange(1, s.len() as int);
        assert(a.drop_first() =~= t.subrange(0, i));
        assert(b.drop_first() =~= t.subrange(0, i - 1));
        assert(t[i - 1] == s[i]);
        assert(escape_string(a) == escape_char(s[0]) + escape_string(t.subrange(0, i)));
        assert(escape_string(t.subrange(0, i)) == escape_string(t.subrange(0, i - 1))
            + escape_char(t[i - 1]));
        assert(escape_char(s[0]) + (escape_string(t.subrange(0, i - 1)) + escape_char(s[i])) =~= (
        escape_char(s[0]) + escape_string(t.subrange(0, i - 1))) + escape_char(s[i]));
        assert(escape_string(b) == escape_char(s[0]) + escape_string(t.subrange(0, i - 1)));
    }
}

/// Appends the escaped form of a whole name.
fn encode_name_into(out: &mut String, name: &String)
    ensures
        final(out)@ == old(out)@ + escape_string(name@),
{
    let n = name.as_str().unicode_len();
    let mut i: usize = 0;
    proof {
        assert(name@.subrange(0, 0) =~= Seq::<char>::empty());
        assert(out@ =~= out@ + escape_string(name@.subrange(0, 0)));
    }
    while i < n
        invariant
            n == name@.len(),
            0 <= i <= n,
            out@ == old(out)@ + escape_string(name@.subrange(0, i as int)),
        decreases n - i,
    {
        let c = name.as_str().get_char(i);
        encode_char_into(out, c);
        proof {
            lemma_escape_step(name@, i as int);
            let pre = escape_string(name@.subrange(0, i as int));
            let ec = escape_char(name@[i as int]);
            assert((old(out)@ + pre) + ec =~= old(out)@ + (pre + ec));
        }
        i = i + 1;
    }
    proof {
        assert(name@.subrange(0, n as int) =~= name@);
    }
}

/// Appends the canonical decimal form of a priority.
fn encode_number_into(out: &mut String, n: u8)
    ensures
        final(out)@ == old(out)@ + dec_number(n as int),
{
    if n < 10 {
        string_push(out, dec_digit_exec(n));
    } else if n < 100 {
        string_push(out, dec_digit_exec(n / 10));
        string_push(out, dec_digit_exec(n % 10));
    } else {
        string_push(out, dec_digit_exec(n / 100));
        string_push(out, dec_digit_exec((n / 10) % 10));
        string_push(out, dec_digit_exec(n % 10));
    }
    proof {
        assert(out@ =~= old(out)@ + dec_number(n as int));
    }
}

/// Appends the stored form of one task.
fn encode_task_into(out: &mut String, t: &Task)
    ensures
        final(out)@ == old(out)@ + encode_task(t@),
{
    out.append("{\"name\":\"");
    encode_name_into(out, &t.name);
    out.append("\",\"priority\":");
    encode_number_into(out, t.priority);
    out.append(",\"done\":");
    if t.done {
        out.append("true");
    } else {
        out.append("false");
    }
    string_push(out, '}');
    proof {
        lemma_literal_views();
        assert(out@ =~= old(out)@ + encode_task(t@));
    }
}

/// Appending one more task record extends the encoded sequence.
proof fn lemma_encode_tasks_snoc(ts: Seq<TaskView>, t: TaskView)
    ensures
        ts.len() == 0 ==> encode_tasks(ts.push(t)) == encode_task(t),
        ts.len() > 0 ==> encode_tasks(ts.push(t)) == encode_tasks(ts) + seq![','] + encode_task(t),
    decreases ts.len(),
{
    let w = ts.push(t);
    if ts.len() == 0 {
        assert(w[0] == t);
        assert(encode_tasks(w) == encode_task(t));
    } else {
        lemma_encode_tasks_snoc(ts.drop_first(), t);
        assert(w.drop_first() =~= ts.drop_first().push(t));
        assert(w[0] == ts[0]);
        if ts.len() == 1 {
            assert(encode_tasks(w) == encode_task(ts[0]) + seq![','] + encode_tasks(
                ts.drop_first().push(t),
            ));
            assert(encode_tasks(ts.drop_first().push(t)) == encode_task(t));
            assert(encode_tasks(ts) == encode_task(ts[0]));
        } else {
            assert(encode_tasks(w) == encode_task(ts[0]) + seq![','] + encode_tasks(
                ts.drop_first().push(t),
            ));
            assert(encode_tasks(ts.drop_first().push(t)) == encode_tasks(ts.drop_first())
                + seq![','] + encode_task(t));
            assert(encode_task(ts[0]) + seq![','] + (encode_tasks(ts.drop_first()) + seq![',']
                + encode_task(t)) =~= (encode_task(ts[0]) + seq![','] + encode_tasks(
                ts.drop_first(),
            )) + seq![','] + encode_task(t));
            assert(encode_tasks(ts) == encode_task(ts[0]) + seq![','] + encode_tasks(
                ts.drop_first(),
            ));
        }
    }
}

// ---------------------------------------------------------------- decoding

/// A decimal digit.
pub open spec fn is_dec(c: char) -> bool {
    0x30 <= (c as u32) <= 0x39
}

/// The value of a decimal digit.
pub open spec fn dec_val(c: char) -> int {
    (c as u32) - 0x30
}

/// A lowercase hexadecimal digit.
pub open spec fn is_hex(c: char) -> bool {
    is_dec(c) || (0x61 <= (c as u32) <= 0x66)
}

/// The value of a lowercase hexadecimal digit.
pub open spec fn hex_val(c: char) -> int {
    if is_dec(c) {
        dec_val(c)
    } else {
        (c as u32) - 0x57
    }
}

/// Parses a quoted string from just after its opening quote, up to
/// and including its closing quote: the name it denotes and the
/// position after the closing quote, or nothing if the text is not a
/// well-formed string there.
pub open spec fn parse_string_body(s: Seq<char>, i: int) -> Option<(Seq<char>, int)>
    decreases s.len() - i,
{
    if i < 0 || i >= s.len() {
        None
    } else if s[i] == '"' {
        Some((Seq::empty(), i + 1))
    } else if s[i] == '\\' {
        if i + 2 > s.len() {
            None
        } else {
            let e = s[i + 1];
            if e == 'u' {
                if i + 6 > s.len() {
                    None
                } else if s[i + 2] == '0' && s[i + 3] == '0' && is_hex(s[i + 4]) && is_hex(
                    s[i + 5],
                ) {
                    let v = hex_val(s[i + 4]) * 16 + hex_val(s[i + 5]);
                    let c = (v as u32) as char;
                    match parse_string_body(s, i + 6) {
                        Some((tail, j)) => Some((seq![c] + tail, j)),
                        None => None,
                    }
                } else {
                    None
                }
            } else if e == '"' || e == '\\' || e == '/' || e == 'b' || e == 't' || e == 'n' || e
                == 'f' || e == 'r' {
                let c = if e == '"' {
                    '"'
                } else if e == '\\' {
                    '\\'
                } else if e == '/' {
                    '/'
                } else if e == 'b' {
                    '\u{8}'
                } else if e == 't' {
                    '\t'
                } else if e == 'n' {
                    '\n'
                } else if e == 'f' {
                    '\u{c}'
                } else {
                    '\r'
                };
                match parse_string_body(s, i + 2) {
                    Some((tail, j)) => Some((seq![c] + tail, j)),
                    None => None,
                }
            } else {
                None
            }
        }
    } else if (s[i] as u32) < 0x20 {
        None
    } else {
        match parse_string_body(s, i + 1) {
            Some((tail, j)) => Some((seq![s[i]] + tail, j)),
            None => None,
        }
    }
}

/// Parses a canonical decimal number in `[0, 255]`: its value and the
/// position after its last digit.  A leading zero ends the number at
/// once, more than three digits or a value above 255 is refused.
pub open spec fn parse_number(s: Seq<char>, i: int) -> Option<(int, int)> {
    if i < 0 || i >= s.len() || !is_dec(s[i]) {
        None
    } else if s[i] == '0' {
        Some((0, i + 1))
    } else {
        let d0 = dec_val(s[i]);
        if i + 1 >= s.len() || !is_dec(s[i + 1]) {
            Some((d0, i + 1))
        } else {
            let d1 = dec_val(s[i + 1]);
            if i + 2 >= s.len() || !is_dec(s[i + 2]) {
                Some((10 * d0 + d1, i + 2))
            } else {
                let d2 = dec_val(s[i + 2]);
                if i + 3 < s.len() && is_dec(s[i + 3]) {
                    None
                } else {
                    let v = 100 * d0 + 10 * d1 + d2;
                    if v <= 255 {
                        Some((v, i + 3))
                    } else {
                        None
                    }
                }
            }
        }
    }
}

/// Parses a completion flag.
pub open spec fn parse_bool(s: Seq<char>, i: int) -> Option<(bool, int)> {
    if 0 <= i && i + 4 <= s.len() && s[i] == 't' && s[i + 1] == 'r' && s[i + 2] == 'u' && s[i + 3]
        == 'e' {
        Some((true, i + 4))
    } else if 0 <= i && i + 5 <= s.len() && s[i] == 'f' && s[i + 1] == 'a' && s[i + 2] == 'l' && s[i
        + 3] == 's' && s[i + 4] == 'e' {
        Some((false, i + 5))
    } else {
        None
    }
}

/// The given literal stands at position `i`.
pub open spec fn lit_at(s: Seq<char>, i: int, lit: Seq<char>) -> bool {
    0 <= i && i + lit.len() <= s.len() && s.subrange(i, i + lit.len() as int) == lit
}

/// Parses one task record: its fields in their fixed order, between
/// the fixed separators.
pub open spec fn parse_task(s: Seq<char>, i: int) -> Option<(TaskView, int)> {
    if !lit_at(s, i, lit_task_open()) {
        None
    } else {
        match parse_string_body(s, i + 9) {
            None => None,
            Some((name, j)) => if !lit_at(s, j, lit_priority_sep()) {
                None
            } else {
                match parse_number(s, j + 12) {
                    None => None,
                    Some((p, k)) => if !lit_at(s, k, lit_done_sep()) {
                        None
                    } else {
                        match parse_bool(s, k + 8) {
                            None => None,
                            Some((d, m)) => if m < s.len() && s[m] == '}' {
                                Some((TaskView { name: name, priority: p, done: d }, m + 1))
                            } else {
                                None
                            },
                        }
                    },
                }
            },
        }
    }
}

/// A parsed string ends after where it began, within the text.
proof fn lemma_parse_string_progress(s: Seq<char>, i: int)
    ensures
        match parse_string_body(s, i) {
            Some(p) => i < p.1 <= s.len(),
            None => true,
        },
    decreases s.len() - i,
{
    if i < 0 || i >= s.len() {
    } else if s[i] == '"' {
    } else if s[i] == '\\' {
        if i + 2 <= s.len() {
            if s[i + 1] == 'u' {
                if i + 6 <= s.len() {
                    lemma_parse_string_progress(s, i + 6);
                }
            } else {
                lemma_parse_string_progress(s, i + 2);
            }
        }
    } else {
        lemma_parse_string_progress(s, i + 1);
    }
}

/// A parsed task record ends after where it began, within the text.
proof fn lemma_parse_task_progress(s: Seq<char>, i: int)
    ensures
        match parse_task(s, i) {
            Some(p) => i < p.1 <= s.len(),
            None => true,
        },
{
    if lit_at(s, i, lit_task_open()) {
        lemma_parse_string_progress(s, i + 9);
    }
}

/// Parses the comma-separated task records of a non-empty array, up
/// to and including the closing bracket.
pub open spec fn parse_tasks_nonempty(s: Seq<char>, i: int) -> Option<(Seq<TaskView>, int)>
    decreases s.len() - i,
    via parse_tasks_nonempty_dec
{
    match parse_task(s, i) {
        None => None,
        Some((t, j)) => if j < s.len() && s[j] == ',' {
            match parse_tasks_nonempty(s, j + 1) {
                Some((ts, k)) => Some((seq![t] + ts, k)),
                None => None,
            }
        } else if j < s.len() && s[j] == ']' {
            Some((seq![t], j + 1))
        } else {
            None
        },
    }
}

#[via_fn]
proof fn parse_tasks_nonempty_dec(s: Seq<char>, i: int) {
    lemma_parse_task_progress(s, i);
}

/// Parses a task array from just after its opening bracket, up to and
/// including its closing bracket.
pub open spec fn parse_tasks(s: Seq<char>, i: int) -> Option<(Seq<TaskView>, int)> {
    if 0 <= i && i < s.len() && s[i] == ']' {
        Some((Seq::empty(), i + 1))
    } else {
        parse_tasks_nonempty(s, i)
    }
}

/// Parses a whole stored list: the text must hold exactly one list
/// object and nothing after it.
pub open spec fn parse_todo(s: Seq<char>) -> Option<Seq<TaskView>> {
    if !lit_at(s, 0, lit_list_open()) {
        None
    } else {
        match parse_tasks(s, 9) {
            None => None,
            Some((ts, j)) => if j < s.len() && s[j] == '}' && j + 1 == s.len() {
                Some(ts)
            } else {
                None
            },
        }
    }
}

/// Whether a character is a decimal digit, executably.
fn is_dec_exec(c: char) -> (b: bool)
    ensures
        b == is_dec(c),
{
    let u = c as u32;
    0x30 <= u && u <= 0x39
}

/// The value of a decimal digit, executably.
fn dec_val_exec(c: char) -> (d: u8)
    requires
        is_dec(c),
    ensures
        d as int == dec_val(c),
        d < 10,
{
    ((c as u32) - 0x30) as u8
}

/// Whether a character is a lowercase hexadecimal digit, executably.
fn is_hex_exec(c: char) -> (b: bool)
    ensures
        b == is_hex(c),
{
    let u = c as u32;
    (0x30 <= u && u <= 0x39) || (0x61 <= u && u <= 0x66)
}

/// The value of a lowercase hexadecimal digit, executably.
fn hex_val_exec(c: char) -> (d: u8)
    requires
        is_hex(c),
    ensures
        d as int == hex_val(c),
        d < 16,
{
    let u = c as u32;
    if 0x30 <= u && u <= 0x39 {
        (u - 0x30) as u8
    } else {
        (u - 0x57) as u8
    }
}

/// The characters of a text, in order.
fn str_to_chars(s: &str) -> (v: Vec<char>)
    ensures
        v@ == s@,
{
    let n = s.unicode_len();
    let mut v: Vec<char> = Vec::new();
    let mut i: usize = 0;
    while i < n
        invariant
            n == s@.len(),
            0 <= i <= n,
            v@ == s@.subrange(0, i as int),
        decreases n - i,
    {
        v.push(s.get_char(i));
        proof {
            assert(v@ =~= s@.subrange(0, i + 1));
        }
        i = i + 1;
    }
    proof {
        assert(s@.subrange(0, n as int) =~= s@);
    }
    v
}

/// Compares the text at `i` against a literal.
fn p_lit(s: &Vec<char>, i: usize, lit: &Vec<char>) -> (b: bool)
    requires
        i <= s@.len(),
    ensures
        b == lit_at(s@, i as int, lit@),
{
    if s.len() - i < lit.len() {
        return false;
    }
    let mut k: usize = 0;
    let mut ok = true;
    while k < lit.len()
        invariant
            i + lit@.len() <= s@.len(),
            s@.len() <= usize::MAX,
            0 <= k <= lit@.len(),
            ok == (forall|m: int| 0 <= m < k ==> s@[i + m] == lit@[m]),
        decreases lit@.len() - k,
    {
        if s[i + k] != lit[k] {
            ok = false;
        }
        k = k + 1;
    }
    proof {
        if ok {
            assert(s@.subrange(i as int, i + lit@.len()) =~= lit@);
        } else {
            if lit_at(s@, i as int, lit@) {
                assert forall|m: int| 0 <= m < lit@.len() implies s@[i + m] == lit@[m] by {
                    assert(s@.subrange(i as int, i + lit@.len())[m] == s@[i + m]);
                }
            }
        }
    }
    ok
}

/// The opening of a task record, as characters.
fn lit_task_open_vec() -> (v: Vec<char>)
    ensures
        v@ == lit_task_open(),
{
    let mut v: Vec<char> = Vec::new();
    v.push('{');
    v.push('"');
    v.push('n');
    v.push('a');
    v.push('m');
    v.push('e');
    v.push('"');
    v.push(':');
    v.push('"');
    proof {
        assert(v@ =~= lit_task_open());
    }
    v
}

/// The separator before the priority, as characters.
fn lit_priority_sep_vec() -> (v: Vec<char>)
    ensures
        v@ == lit_priority_sep(),
{
    let mut v: Vec<char> = Vec::new();
    v.push(',');
    v.push('"');
    v.push('p');
    v.push('r');
    v.push('i');
    v.push('o');
    v.push('r');
    v.push('i');
    v.push('t');
    v.push('y');
    v.push('"');
    v.push(':');
    proof {
        assert(v@ =~= lit_priority_sep());
    }
    v
}

/// The separator before the flag, as characters.
fn lit_done_sep_vec() -> (v: Vec<char>)
    ensures
        v@ == lit_done_sep(),
{
    let mut v: Vec<char> = Vec::new();
    v.push(',');
    v.push('"');
    v.push('d');
    v.push('o');
    v.push('n');
    v.push('e');
    v.push('"');
    v.push(':');
    proof {
        assert(v@ =~= lit_done_sep());
    }
    v
}

/// The opening of the stored list, as characters.
fn lit_list_open_vec() -> (v: Vec<char>)
    ensures
        v@ == lit_list_open(),
{
    let mut v: Vec<char> = Vec::new();
    v.push('{');
    v.push('"');
    v.push('l');
    v.push('i');
    v.push('s');
    v.push('t');
    v.push('"');
    v.push(':');
    v.push('[');
    proof {
        assert(v@ =~= lit_list_open());
    }
    v
}

/// Reads a quoted string, returning the name it denotes and the
/// position after its closing quote.
fn p_string(s: &Vec<char>, i: usize) -> (r: Option<(String, usize)>)
    requires
        i <= s@.len(),
    ensures
        match r {
            Some(p) => {
                &&& parse_string_body(s@, i as int) == Some((p.0@, p.1 as int))
                &&& i < p.1 <= s@.len()
            },
            None => parse_string_body(s@, i as int) is None,
        },
{
    let ghost whole = parse_string_body(s@, i as int);
    let mut j: usize = i;
    let mut out = String::new();
    loop
        invariant
            i <= j <= s@.len(),
            whole == parse_string_body(s@, i as int),
            whole == (match parse_string_body(s@, j as int) {
                Some(p) => Some((out@ + p.0, p.1)),
                None => None::<(Seq<char>, int)>,
            }),
        decreases s@.len() - j,
    {
        if j >= s.len() {
            return None;
        }
        let c = s[j];
        if c == '"' {
            proof {
                assert(out@ + Seq::<char>::empty() =~= out@);
            }
            return Some((out, j + 1));
        }
        if c == '\\' {
            if s.len() - j < 2 {
                return None;
            }
            let e = s[j + 1];
            if e == 'u' {
                if s.len() - j < 6 {
                    return None;
                }
                if !(s[j + 2] == '0' && s[j + 3] == '0' && is_hex_exec(s[j + 4]) && is_hex_exec(
                    s[j + 5],
                )) {
                    return None;
                }
                let v: u32 = (hex_val_exec(s[j + 4]) as u32) * 16 + (hex_val_exec(s[j + 5]) as u32);
                let ch = (v as u8) as char;
                let ghost out_pre = out@;
                string_push(&mut out, ch);
                proof {
                    match parse_string_body(s@, j + 6) {
                        Some(p) => {
                            assert(out_pre + (seq![ch] + p.0) =~= out@ + p.0);
                        },
                        None => {},
                    }
                }
                j = j + 6;
            } else if e == '"' || e == '\\' || e == '/' || e == 'b' || e == 't' || e == 'n' || e
                == 'f' || e == 'r' {
                let ch = if e == '"' {
                    '"'
                } else if e == '\\' {
                    '\\'
                } else if e == '/' {
                    '/'
                } else if e == 'b' {
                    '\u{8}'
                } else if e == 't' {
                    '\t'
                } else if e == 'n' {
                    '\n'
                } else if e == 'f' {
                    '\u{c}'
                } else {
                    '\r'
                };
                let ghost out_pre = out@;
                string_push(&mut out, ch);
                proof {
                    match parse_string_body(s@, j + 2) {
                        Some(p) => {
                            assert(out_pre + (seq![ch] + p.0) =~= out@ + p.0);
                        },
                        None => {},
                    }
                }
                j = j + 2;
            } else {
                return None;
            }
        } else {
            if (c as u32) < 0x20 {
                return None;
            }
            let ghost out_pre = out@;
            string_push(&mut out, c);
            proof {
                match parse_string_body(s@, j + 1) {
                    Some(p) => {
                        assert(out_pre + (seq![c] + p.0) =~= out@ + p.0);
                    },
                    None => {},
                }
            }
            j = j + 1;
        }
    }
}

/// Reads a canonical decimal priority.
fn p_number(s: &Vec<char>, i: usize) -> (r: Option<(u8, usize)>)
    requires
        i <= s@.len(),
    ensures
        match r {
            Some(p) => {
                &&& parse_number(s@, i as int) == Some((p.0 as int, p.1 as int))
                &&& i < p.1 <= s@.len()
            },
            None => parse_number(s@, i as int) is None,
        },
{
    if i >= s.len() || !is_dec_exec(s[i]) {
        return None;
    }
    let c0 = s[i];
    if c0 == '0' {
        return Some((0, i + 1));
    }
    let d0 = dec_val_exec(c0);
    if s.len() - i < 2 || !is_dec_exec(s[i + 1]) {
        return Some((d0, i + 1));
    }
    let d1 = dec_val_exec(s[i + 1]);
    if s.len() - i < 3 || !is_dec_exec(s[i + 2]) {
        return Some((10 * d0 + d1, i + 2));
    }
    let d2 = dec_val_exec(s[i + 2]);
    if s.len() - i >= 4 && is_dec_exec(s[i + 3]) {
        return None;
    }
    let v: u32 = 100 * (d0 as u32) + 10 * (d1 as u32) + (d2 as u32);
    if v <= 255 {
        Some(((v as u8), i + 3))
    } else {
        None
    }
}

/// Reads a completion flag.
fn p_bool(s: &Vec<char>, i: usize) -> (r: Option<(bool, usize)>)
    requires
        i <= s@.len(),
    ensures
        match r {
            Some(p) => {
                &&& parse_bool(s@, i as int) == Some((p.0, p.1 as int))
                &&& i < p.1 <= s@.len()
            },
            None => parse_bool(s@, i as int) is None,
        },
{
    if s.len() - i >= 4 && s[i] == 't' && s[i + 1] == 'r' && s[i + 2] == 'u' && s[i + 3] == 'e' {
        return Some((true, i + 4));
    }
    if s.len() - i >= 5 && s[i] == 'f' && s[i + 1] == 'a' && s[i + 2] == 'l' && s[i + 3] == 's' && s[
        i + 4] == 'e' {
        return Some((false, i + 5));
    }
    None
}

/// Reads one task record.
fn p_task(s: &Vec<char>, i: usize) -> (r: Option<(Task, usize)>)
    requires
        i <= s@.len(),
    ensures
        match r {
            Some(p) => {
                &&& parse_task(s@, i as int) == Some((p.0@, p.1 as int))
                &&& i < p.1 <= s@.len()
            },
            None => parse_task(s@, i as int) is None,
        },
{
    let n = s.len();
    let lit1 = lit_task_open_vec();
    if !p_lit(s, i, &lit1) {
        return None;
    }
    proof {
        assert(i + 9 <= n);
    }
    let name;
    let j;
    match p_string(s, i + 9) {
        Some(p) => {
            name = p.0;
            j = p.1;
        },
        None => {
            return None;
        },
    }
    let lit2 = lit_priority_sep_vec();
    if !p_lit(s, j, &lit2) {
        return None;
    }
    proof {
        assert(j + 12 <= n);
    }
    let pr;
    let k;
    match p_number(s, j + 12) {
        Some(p) => {
            pr = p.0;
            k = p.1;
        },
        None => {
            return None;
        },
    }
    let lit3 = lit_done_sep_vec();
    if !p_lit(s, k, &lit3) {
        return None;
    }
    proof {
        assert(k + 8 <= n);
    }
    let d;
    let m;
    match p_bool(s, k + 8) {
        Some(p) => {
            d = p.0;
            m = p.1;
        },
        None => {
            return None;
        },
    }
    if m < s.len() && s[m] == '}' {
        Some((Task { name: name, priority: pr, done: d }, m + 1))
    } else {
        None
    }
}

/// Reads the task records of an array, from just after the opening
/// bracket up to and including the closing bracket.
fn p_tasks(s: &Vec<char>, i: usize) -> (r: Option<(Vec<Task>, usize)>)
    requires
        i <= s@.len(),
    ensures
        match r {
            Some(p) => {
                &&& parse_tasks(s@, i as int) == Some((task_views(p.0@), p.1 as int))
                &&& i < p.1 <= s@.len()
            },
            None => parse_tasks(s@, i as int) is None,
        },
{
    if i < s.len() && s[i] == ']' {
        let out: Vec<Task> = Vec::new();
        proof {
            assert(task_views(out@) =~= Seq::<TaskView>::empty());
        }
        return Some((out, i + 1));
    }
    let mut out: Vec<Task> = Vec::new();
    let mut cur: usize = i;
    loop
        invariant
            i <= cur <= s@.len(),
            parse_tasks(s@, i as int) == parse_tasks_nonempty(s@, i as int),
            parse_tasks_nonempty(s@, i as int) == (match parse_tasks_nonempty(s@, cur as int) {
                Some(p) => Some((task_views(out@) + p.0, p.1)),
                None => None::<(Seq<TaskView>, int)>,
            }),
        decreases s@.len() - cur,
    {
        let t;
        let j;
        match p_task(s, cur) {
            Some(p) => {
                t = p.0;
                j = p.1;
            },
            None => {
                return None;
            },
        }
        let ghost out_pre = out@;
        out.push(t);
        proof {
            assert(task_views(out@) =~= task_views(out_pre).push(t@));
        }
        if j < s.len() && s[j] == ',' {
            proof {
                match parse_tasks_nonempty(s@, j + 1) {
                    Some(p) => {
                        assert(task_views(out_pre) + (seq![t@] + p.0) =~= task_views(out@) + p.0);
                    },
                    None => {},
                }
            }
            cur = j + 1;
        } else if j < s.len() && s[j] == ']' {
            proof {
                assert(task_views(out_pre) + seq![t@] =~= task_views(out@));
                assert(task_views(out@) =~= task_views(out@) + Seq::<TaskView>::empty());
            }
            return Some((out, j + 1));
        } else {
            return None;
        }
    }
}

/// Decodes a stored list.  The text must hold exactly one list object
/// in the canonical form this module writes; anything else is a
/// decoding failure, and no other error can come from here.
pub fn from_json(s: &str) -> (r: Result<Todo, TodoFileError>)
    ensures
        match r {
            Ok(todo) => parse_todo(s@) == Some(todo@),
            Err(e) => {
                &&& parse_todo(s@) is None
                &&& e == TodoFileError::SerializationError
            },
        },
{
    let cs = str_to_chars(s);
    let lit4 = lit_list_open_vec();
    if !p_lit(&cs, 0, &lit4) {
        return Err(TodoFileError::SerializationError);
    }
    let tasks;
    let j;
    match p_tasks(&cs, 9) {
        Some(p) => {
            tasks = p.0;
            j = p.1;
        },
        None => {
            return Err(TodoFileError::SerializationError);
        },
    }
    if j < cs.len() && cs[j] == '}' && j + 1 == cs.len() {
        Ok(Todo { list: tasks })
    } else {
        Err(TodoFileError::SerializationError)
    }
}

// ------------------------------------------------------------- round trip

/// Reading a digit character back gives the digit.
proof fn lemma_digit_roundtrip(d: int)
    ensures
        0 <= d < 10 ==> is_dec(dec_digit(d)) && dec_val(dec_digit(d)) == d,
        0 <= d < 16 ==> is_hex(hex_digit(d)) && hex_val(hex_digit(d)) == d,
        1 <= d < 10 ==> dec_digit(d) != '0',
{
}

/// A canonical number, followed by anything that is not a digit,
/// reads back as itself.
proof fn lemma_parse_number_of_encode(s: Seq<char>, i: int, n: int)
    requires
        0 <= n <= 255,
        0 <= i,
        i + dec_number(n).len() <= s.len(),
        s.subrange(i, i + dec_number(n).len()) == dec_number(n),
        i + dec_number(n).len() == s.len() || !is_dec(s[i + dec_number(n).len()]),
    ensures
        parse_number(s, i) == Some((n, i + dec_number(n).len())),
{
    let w = dec_number(n);
    assert forall|k: int| 0 <= k < w.len() implies s[i + k] == w[k] by {
        assert(s.subrange(i, i + w.len())[k] == s[i + k]);
    }
    assert(w.len() >= 1 && s[i + 0] == w[0]);
    assert(w.len() >= 2 ==> s[i + 1] == w[1]);
    assert(w.len() >= 3 ==> s[i + 2] == w[2]);
    if n < 10 {
        lemma_digit_roundtrip(n);
        assert(s[i] == dec_digit(n));
    } else if n < 100 {
        lemma_digit_roundtrip(n / 10);
        lemma_digit_roundtrip(n % 10);
        assert(s[i] == dec_digit(n / 10));
        assert(s[i + 1] == dec_digit(n % 10));
        assert(10 * (n / 10) + n % 10 == n);
    } else {
        lemma_digit_roundtrip(n / 100);
        lemma_digit_roundtrip((n / 10) % 10);
        lemma_digit_roundtrip(n % 10);
        assert(s[i] == dec_digit(n / 100));
        assert(s[i + 1] == dec_digit((n / 10) % 10));
        assert(s[i + 2] == dec_digit(n % 10));
        assert(100 * (n / 100) + 10 * ((n / 10) % 10) + n % 10 == n);
    }
}

/// An encoded flag reads back as itself.
proof fn lemma_parse_bool_of_encode(s: Seq<char>, i: int, b: bool)
    requires
        0 <= i,
        i + encode_bool(b).len() <= s.len(),
        s.subrange(i, i + encode_bool(b).len()) == encode_bool(b),
    ensures
        parse_bool(s, i) == Some((b, i + encode_bool(b).len())),
{
    let w = encode_bool(b);
    assert forall|k: int| 0 <= k < w.len() implies s[i + k] == w[k] by {
        assert(s.subrange(i, i + w.len())[k] == s[i + k]);
    }
    assert(s[i + 0] == w[0] && s[i + 1] == w[1] && s[i + 2] == w[2] && s[i + 3] == w[3]);
    assert(w.len() >= 5 ==> s[i + 4] == w[4]);
    if b {
        assert(s[i] == 't' && s[i + 1] == 'r' && s[i + 2] == 'u' && s[i + 3] == 'e');
    } else {
        assert(s[i] == 'f' && s[i + 1] == 'a' && s[i + 2] == 'l' && s[i + 3] == 's' && s[i + 4]
            == 'e');
        assert(s[i] != 't');
    }
}

/// An escaped name followed by its closing quote reads back as the
/// name itself.
proof fn lemma_parse_string_of_escape(s: Seq<char>, i: int, name: Seq<char>)
    requires
        0 <= i,
        i + escape_string(name).len() + 1 <= s.len(),
        s.subrange(i, i + escape_string(name).len() + 1) == escape_string(name) + seq!['"'],
    ensures
        parse_string_body(s, i) == Some((name, i + escape_string(name).len() + 1)),
    decreases name.len(),
{
    let esc = escape_string(name);
    let whole = esc + seq!['"'];
    assert forall|k: int| 0 <= k < whole.len() implies s[i + k] == whole[k] by {
        assert(s.subrange(i, i + whole.len())[k] == s[i + k]);
    }
    if name.len() == 0 {
        assert(esc.len() == 0);
        assert(s[i + 0] == whole[0]);
        assert(whole[0] == '"');
        assert(name =~= Seq::<char>::empty());
    } else {
        let c = name[0];
        let ec = escape_char(c);
        let tail = name.drop_first();
        let est = escape_string(tail);
        assert(esc == ec + est);
        let elen = ec.len() as int;
        assert forall|k: int| 0 <= k < elen implies s[i + k] == ec[k] by {
            assert(whole[k] == ec[k]);
        }
        let i2 = i + elen;
        assert(s.subrange(i2, i2 + est.len() + 1) =~= est + seq!['"']) by {
            assert forall|m: int| 0 <= m < est.len() + 1 implies s.subrange(
                i2,
                i2 + est.len() + 1,
            )[m] == (est + seq!['"'])[m] by {
                assert(s.subrange(i2, i2 + est.len() + 1)[m] == s[i2 + m]);
                assert(s[i2 + m] == whole[elen + m]);
                assert(whole[elen + m] == (est + seq!['"'])[m]);
            }
        }
        lemma_parse_string_of_escape(s, i2, tail);
        assert(seq![c] + tail =~= name);
        let end = i + esc.len() + 1;
        if c == '"' {
            assert(s[i + 0] == '\\' && s[i + 1] == '"');
            assert(parse_string_body(s, i) == Some((name, end)));
        } else if c == '\\' {
            assert(s[i + 0] == '\\' && s[i + 1] == '\\');
            assert(parse_string_body(s, i) == Some((name, end)));
        } else if c == '\u{8}' {
            assert(s[i + 0] == '\\' && s[i + 1] == 'b');
            assert(parse_string_body(s, i) == Some((name, end)));
        } else if c == '\t' {
            assert(s[i + 0] == '\\' && s[i + 1] == 't');
            assert(parse_string_body(s, i) == Some((name, end)));
        } else if c == '\n' {
            assert(s[i + 0] == '\\' && s[i + 1] == 'n');
            assert(parse_string_body(s, i) == Some((name, end)));
        } else if c == '\u{c}' {
            assert(s[i + 0] == '\\' && s[i + 1] == 'f');
            assert(parse_string_body(s, i) == Some((name, end)));
        } else if c == '\r' {
            assert(s[i + 0] == '\\' && s[i + 1] == 'r');
            assert(parse_string_body(s, i) == Some((name, end)));
        } else if (c as u32) < 0x20 {
            let u = (c as u32) as int;
            lemma_digit_roundtrip(u / 16);
            lemma_digit_roundtrip(u % 16);
            assert(s[i + 0] == '\\' && s[i + 1] == 'u' && s[i + 2] == '0' && s[i + 3] == '0');
            assert(s[i + 4] == hex_digit(u / 16) && s[i + 5] == hex_digit(u % 16));
            let v = hex_val(s[i + 4]) * 16 + hex_val(s[i + 5]);
            assert(v == u);
            assert(v as u32 == c as u32);
            vstd::utf8::char_u32_cast(c, v as u32);
            assert((v as u32) as char == c);
            assert(parse_string_body(s, i) == Some((name, end)));
        } else {
            assert(s[i + 0] == c);
            assert(parse_string_body(s, i) == Some((name, end)));
        }
    }
}

/// A part of a matched window, located at offset `a`, stands in the
/// text as its own subrange.
proof fn lemma_sub_extract(s: Seq<char>, i: int, w: Seq<char>, a: int, part: Seq<char>)
    requires
        0 <= i,
        i + w.len() <= s.len(),
        s.subrange(i, i + w.len()) == w,
        0 <= a,
        a + part.len() <= w.len(),
        forall|m: int| 0 <= m < part.len() ==> w[a + m] == part[m],
    ensures
        s.subrange(i + a, i + a + part.len()) == part,
        forall|m: int| 0 <= m < part.len() ==> s[i + a + m] == part[m],
{
    assert forall|m: int| 0 <= m < part.len() implies s[i + a + m] == part[m] by {
        assert(s.subrange(i, i + w.len())[a + m] == s[i + a + m]);
    }
    assert(s.subrange(i + a, i + a + part.len()) =~= part) by {
        assert forall|m: int| 0 <= m < part.len() implies s.subrange(
            i + a,
            i + a + part.len(),
        )[m] == part[m] by {
            assert(s.subrange(i + a, i + a + part.len())[m] == s[i + a + m]);
        }
    }
}

/// One encoded task record reads back as itself.
proof fn lemma_parse_task_of_encode(s: Seq<char>, i: int, t: TaskView)
    requires
        0 <= t.priority <= 255,
        0 <= i,
        i + encode_task(t).len() <= s.len(),
        s.subrange(i, i + encode_task(t).len()) == encode_task(t),
    ensures
        parse_task(s, i) == Some((t, i + encode_task(t).len())),
{
    let w = encode_task(t);
    let esc = escape_string(t.name);
    let num = dec_number(t.priority);
    let eb = encode_bool(t.done);
    let w1 = lit_task_open() + esc;
    let w2 = w1 + seq!['"'];
    let w3 = w2 + lit_priority_sep();
    let w4 = w3 + num;
    let w5 = w4 + lit_done_sep();
    let w6 = w5 + eb;
    let w7 = w6 + seq!['}'];
    assert(w == w7);
    let a0 = 0int;
    let a1 = 9int;
    let a2 = a1 + esc.len() + 1;
    let a3 = a2 + 12;
    let a4 = a3 + num.len();
    let a5 = a4 + 8;
    let a6 = a5 + eb.len();
    // the opening literal
    assert forall|m: int| 0 <= m < 9 implies w[a0 + m] == lit_task_open()[m] by {
        assert(w1[m] == lit_task_open()[m]);
    }
    lemma_sub_extract(s, i, w, a0, lit_task_open());
    assert(lit_at(s, i, lit_task_open()));
    // the escaped name with its closing quote
    assert forall|m: int| 0 <= m < esc.len() + 1 implies w[a1 + m] == (esc + seq!['"'])[m] by {
        if m < esc.len() {
            assert(w1[9 + m] == esc[m]);
        } else {
            assert(w2[9 + m] == '"');
        }
    }
    lemma_sub_extract(s, i, w, a1, esc + seq!['"']);
    lemma_parse_string_of_escape(s, i + a1, t.name);
    // the priority separator
    assert forall|m: int| 0 <= m < 12 implies w[a2 + m] == lit_priority_sep()[m] by {
        assert(w3[a2 + m] == lit_priority_sep()[m]);
    }
    lemma_sub_extract(s, i, w, a2, lit_priority_sep());
    assert(lit_at(s, i + a2, lit_priority_sep()));
    // the number, followed by a comma, which is not a digit
    assert forall|m: int| 0 <= m < num.len() implies w[a3 + m] == num[m] by {
        assert(w4[a3 + m] == num[m]);
    }
    lemma_sub_extract(s, i, w, a3, num);
    assert(w5[a4] == ',');
    assert(s.subrange(i, i + w.len())[a4] == s[i + a4]);
    assert(s[i + a4] == ',');
    assert(!is_dec(','));
    lemma_parse_number_of_encode(s, i + a3, t.priority);
    // the flag separator
    assert forall|m: int| 0 <= m < 8 implies w[a4 + m] == lit_done_sep()[m] by {
        assert(w5[a4 + m] == lit_done_sep()[m]);
    }
    lemma_sub_extract(s, i, w, a4, lit_done_sep());
    assert(lit_at(s, i + a4, lit_done_sep()));
    // the flag
    assert forall|m: int| 0 <= m < eb.len() implies w[a5 + m] == eb[m] by {
        assert(w6[a5 + m] == eb[m]);
    }
    lemma_sub_extract(s, i, w, a5, eb);
    lemma_parse_bool_of_encode(s, i + a5, t.done);
    // the closing brace
    assert(w7[a6] == '}');
    assert(s.subrange(i, i + w.len())[a6] == s[i + a6]);
    assert(s[i + a6] == '}');
    // walk the record parser across the pieces
    assert(parse_string_body(s, i + 9) == Some((t.name, i + a2)));
    assert(parse_number(s, i + a2 + 12) == Some((t.priority, i + a4)));
    assert(parse_bool(s, i + a4 + 8) == Some((t.done, i + a6)));
    assert((TaskView { name: t.name, priority: t.priority, done: t.done }) == t);
    assert(parse_task(s, i) == Some((t, i + a6 + 1)));
}

/// Every priority in the sequence fits in one stored byte.  True of
/// every view of a `Todo`, whose priorities are bytes.
pub open spec fn byte_priorities(ts: Seq<TaskView>) -> bool {
    forall|k: int| 0 <= k < ts.len() ==> 0 <= (#[trigger] ts[k]).priority <= 255
}

/// An encoded task array followed by its closing bracket reads back
/// as the tasks themselves.
#[verifier::rlimit(80)]
proof fn lemma_parse_tasks_of_encode(s: Seq<char>, i: int, ts: Seq<TaskView>)
    requires
        byte_priorities(ts),
        0 <= i,
        i + encode_tasks(ts).len() + 1 <= s.len(),
        s.subrange(i, i + encode_tasks(ts).len() + 1) == encode_tasks(ts) + seq![']'],
    ensures
        parse_tasks(s, i) == Some((ts, i + encode_tasks(ts).len() + 1)),
    decreases ts.len(),
{
    let enc = encode_tasks(ts);
    let w = enc + seq![']'];
    if ts.len() == 0 {
        assert(s.subrange(i, i + 1)[0] == s[i]);
        assert(s[i] == ']');
        assert(ts =~= Seq::<TaskView>::empty());
    } else {
        let t0 = ts[0];
        let et = encode_task(t0);
        let rest = ts.drop_first();
        let er = encode_tasks(rest);
        if ts.len() == 1 {
            assert(enc == et);
            assert forall|m: int| 0 <= m < et.len() implies w[0 + m] == et[m] by {}
            lemma_sub_extract(s, i, w, 0, et);
            lemma_parse_task_of_encode(s, i, t0);
            let j = i + et.len();
            assert(s.subrange(i, i + w.len())[et.len() as int] == s[j]);
            assert(w[et.len() as int] == ']');
            assert(s[j] == ']');
            // the record starts with a brace, so this is not the
            // empty-array case
            assert(lit_at(s, i, lit_task_open()));
            assert(s.subrange(i, i + 9)[0] == s[i]);
            assert(s[i] == '{');
            assert(seq![t0] =~= ts);
            assert(parse_tasks_nonempty(s, i) == Some((ts, j + 1)));
        } else {
            assert(enc == et + seq![','] + er);
            let w1 = et + seq![','];
            let w2 = w1 + er;
            assert(enc == w2);
            assert forall|m: int| 0 <= m < et.len() implies w[0 + m] == et[m] by {
                assert(w1[m] == et[m]);
            }
            lemma_sub_extract(s, i, w, 0, et);
            lemma_parse_task_of_encode(s, i, t0);
            let j = i + et.len();
            assert(w1[et.len() as int] == ',');
            assert(s.subrange(i, i + w.len())[et.len() as int] == s[j]);
            assert(s[j] == ',');
            // the tail with its own closing bracket
            assert forall|m: int| 0 <= m < er.len() + 1 implies w[(et.len() + 1) + m] == (er
                + seq![']'])[m] by {
                if m < er.len() {
                    assert(w2[et.len() + 1 + m] == er[m]);
                }
            }
            lemma_sub_extract(s, i, w, et.len() as int + 1, er + seq![']']);
            assert(byte_priorities(rest)) by {
                assert(forall|k: int|
                    0 <= k < rest.len() ==> (#[trigger] rest[k]) == ts[k + 1]);
            }
            lemma_parse_tasks_of_encode(s, j + 1, rest);
            let end = j + 1 + er.len() + 1;
            // the tail is non-empty, so its parse is the non-empty case
            assert(parse_tasks_nonempty(s, j + 1) == Some((rest, end))) by {
                if 0 <= j + 1 && j + 1 < s.len() && s[j + 1] == ']' {
                    assert(parse_tasks(s, j + 1) == Some((Seq::<TaskView>::empty(), j + 2)));
                    assert(rest.len() == 0);
                }
            }
            assert(lit_at(s, i, lit_task_open()));
            assert(s.subrange(i, i + 9)[0] == s[i]);
            assert(s[i] == '{');
            assert(seq![t0] + rest =~= ts);
            assert(parse_tasks_nonempty(s, i) == Some((ts, end)));
            assert(end == i + enc.len() + 1);
        }
    }
}

/// Law: decoding an encoded list gives the list back.  `to_json`
/// writes `encode_todo` of the list and `from_json` reads back
/// exactly `parse_todo` of the text, so a list that is saved and
/// loaded again comes back field for field and in the same order.
/// Priorities are stored as one byte, as the task type holds them.
pub proof fn lemma_json_round_trip(ts: Seq<TaskView>)
    requires
        byte_priorities(ts),
    ensures
        parse_todo(encode_todo(ts)) == Some(ts),
{
    let s = encode_todo(ts);
    let enc = encode_tasks(ts);
    let w1 = lit_list_open() + enc;
    let w2 = w1 + seq![']', '}'];
    assert(s == w2);
    assert(s.subrange(0, s.len() as int) =~= s);
    assert forall|m: int| 0 <= m < 9 implies s[0 + m] == lit_list_open()[m] by {
        assert(w1[m] == lit_list_open()[m]);
    }
    lemma_sub_extract(s, 0, s, 0, lit_list_open());
    assert(lit_at(s, 0, lit_list_open()));
    assert forall|m: int| 0 <= m < enc.len() + 1 implies s[9 + m] == (enc + seq![']'])[m] by {
        if m < enc.len() {
            assert(w1[9 + m] == enc[m]);
        } else {
            assert(w2[9 + m] == ']');
        }
    }
    lemma_sub_extract(s, 0, s, 9, enc + seq![']']);
    lemma_parse_tasks_of_encode(s, 9, ts);
    let j: int = 9 + enc.len() as int + 1;
    assert(w2[j] == '}');
    assert(s[j] == '}');
    assert(j + 1 == s.len());
}

/// Law: the round trip applies to every list as held in memory,
/// whose priorities are single bytes by construction: decoding the
/// encoded text of any `Todo` gives back its tasks, field for field
/// and in the same order.
pub proof fn lemma_todo_round_trip(todo: Todo)
    ensures
        parse_todo(encode_todo(todo@)) == Some(todo@),
{
    assert(byte_priorities(todo@)) by {
        assert forall|k: int| 0 <= k < todo@.len() implies 0 <= (#[trigger] todo@[k]).priority
            <= 255 by {
            assert(todo@[k] == todo.list@[k]@);
        }
    }
    lemma_json_round_trip(todo@);
}

/// The stored form of the whole list, as text.
pub fn to_json(todo: &Todo) -> (s: String)
    ensures
        s@ == encode_todo(todo@),
{
    let mut out = String::new();
    out.append("{\"list\":[");
    proof {
        lemma_literal_views();
        assert(todo@.subrange(0, 0) =~= Seq::<TaskView>::empty());
        assert(out@ =~= lit_list_open() + encode_tasks(todo@.subrange(0, 0)));
    }
    let n = todo.len();
    let mut i: usize = 0;
    while i < n
        invariant
            n == todo@.len(),
            0 <= i <= n,
            out@ == lit_list_open() + encode_tasks(todo@.subrange(0, i as int)),
        decreases n - i,
    {
        if i > 0 {
            out.append(",");
        }
        let t = todo.task(i);
        encode_task_into(&mut out, t);
        proof {
            lemma_literal_views();
            let prefix = todo@.subrange(0, i as int);
            lemma_encode_tasks_snoc(prefix, todo@[i as int]);
            assert(todo@.subrange(0, i + 1) =~= prefix.push(todo@[i as int]));
            if i > 0 {
                let et = encode_task(todo@[i as int]);
                assert((lit_list_open() + encode_tasks(prefix)) + ","@ + et =~= lit_list_open() + (
                encode_tasks(prefix) + seq![','] + et));
            } else {
                assert(encode_tasks(prefix) =~= Seq::<char>::empty());
                assert((lit_list_open() + encode_tasks(prefix)) + encode_task(todo@[i as int]) =~= lit_list_open()
                    + encode_task(todo@[i as int]));
            }
        }
        i = i + 1;
    }
    out.append("]}");
    proof {
        lemma_literal_views();
        assert(todo@.subrange(0, n as int) =~= todo@);
        assert(out@ =~= encode_todo(todo@));
    }
    out
}

} // verus!
