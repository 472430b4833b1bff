//! The store format: the task collection rendered as a JSON array of
//! records, one task per line, and the parser that reads it back.
//! Rendering and parsing are exact inverses, which is what makes the
//! persisted store a faithful copy of the collection.

use crate::model::{Task, TaskView, TodoError, TodoList};
use vstd::prelude::*;

verus! {

/// The whitespace JSON allows between tokens.
pub open spec fn is_ws(c: char) -> bool {
    c == ' ' || c == '\t' || c == '\n' || c == '\r'
}

/// Unicode whitespace, the set str::trim removes.
pub open spec fn is_uws(c: char) -> bool {
    ||| is_ws(c)
    ||| c == '\u{b}'
    ||| c == '\u{c}'
    ||| c == '\u{85}'
    ||| c == '\u{a0}'
    ||| c == '\u{1680}'
    ||| ('\u{2000}' <= c && c <= '\u{200a}')
    ||| c == '\u{2028}'
    ||| c == '\u{2029}'
    ||| c == '\u{202f}'
    ||| c == '\u{205f}'
    ||| c == '\u{3000}'
}

/// Nothing but whitespace.
pub open spec fn is_blank(s: Seq<char>) -> bool {
    forall|i: int| 0 <= i < s.len() ==> is_uws(#[trigger] s[i])
}

pub open spec fn ws_prefix_len(s: Seq<char>) -> int
    decreases s.len(),
{
    if s.len() > 0 && is_uws(s[0]) {
        1 + ws_prefix_len(s.drop_first())
    } else {
        0
    }
}

pub open spec fn ws_suffix_len(s: Seq<char>) -> int
    decreases s.len(),
{
    if s.len() > 0 && is_uws(s.last()) {
        1 + ws_suffix_len(s.drop_last())
    } else {
        0
    }
}

/// The content with surrounding whitespace removed.
pub open spec fn trim(s: Seq<char>) -> Seq<char> {
    if ws_prefix_len(s) == s.len() {
        Seq::empty()
    } else {
        s.subrange(ws_prefix_len(s), s.len() - ws_suffix_len(s))
    }
}

/// How one character is written inside a quoted string.
pub open spec fn esc_char(c: char) -> Seq<char> {
    if c == '"' {
        seq!['\\', '"']
    } else if c == '\\' {
        seq!['\\', '\\']
    } else if c == '\n' {
        seq!['\\', 'n']
    } else if c == '\r' {
        seq!['\\', 'r']
    } else if c == '\t' {
        seq!['\\', 't']
    } else if (c as u32) < 32 {
        seq![
            '\\',
            'u',
            '0',
            '0',
            hex_digit(((c as u32) / 16) as int),
            hex_digit(((c as u32) % 16) as int),
        ]
    } else {
        seq![c]
    }
}

/// The lowercase hex digit for a value below 16.
pub open spec fn hex_digit(d: int) -> char {
    if d < 10 {
        digit_char(d)
    } else if d == 10 {
        'a'
    } else if d == 11 {
        'b'
    } else if d == 12 {
        'c'
    } else if d == 13 {
        'd'
    } else if d == 14 {
        'e'
    } else {
        'f'
    }
}

pub open spec fn is_hex(c: char) -> bool {
    ('0' <= c && c <= '9') || ('a' <= c && c <= 'f') || ('A' <= c && c <= 'F')
}

pub open spec fn hex_val(c: char) -> int {
    if '0' <= c && c <= '9' {
        c as int - '0' as int
    } else if 'a' <= c && c <= 'f' {
        10 + c as int - 'a' as int
    } else {
        10 + c as int - 'A' as int
    }
}

/// A code point four hex digits can name that is a scalar value (no
/// surrogates; pairs are not joined).
pub open spec fn valid_bmp(v: int) -> bool {
    (0 <= v && v < 0xD800) || (0xE000 <= v && v <= 0xFFFF)
}

/// The character with code point `v`.
pub open spec fn char_of(v: int) -> char {
    choose|c: char| (#[trigger] (c as u32)) == v
}

/// A text escaped for standing between quotes.
pub open spec fn escape(s: Seq<char>) -> Seq<char>
    decreases s.len(),
{
    if s.len() == 0 {
        Seq::empty()
    } else {
        esc_char(s[0]) + escape(s.drop_first())
    }
}

/// What an escape introducer is followed by, read back.
pub open spec fn unesc_char(c: char) -> Option<char> {
    if c == '"' {
        Some('"')
    } else if c == '\\' {
        Some('\\')
    } else if c == '/' {
        Some('/')
    } else if c == 'n' {
        Some('\n')
    } else if c == 'r' {
        Some('\r')
    } else if c == 't' {
        Some('\t')
    } else if c == 'b' {
        Some('\u{8}')
    } else if c == 'f' {
        Some('\u{c}')
    } else {
        None
    }
}

pub open spec fn digit_char(d: int) -> char {
    if d == 0 {
        '0'
    } else if d == 1 {
        '1'
    } else if d == 2 {
        '2'
    } else if d == 3 {
        '3'
    } else if d == 4 {
        '4'
    } else if d == 5 {
        '5'
    } else if d == 6 {
        '6'
    } else if d == 7 {
        '7'
    } else if d == 8 {
        '8'
    } else {
        '9'
    }
}

/// Decimal rendering, most significant digit first.
pub open spec fn dec_rep(n: int) -> Seq<char>
    decreases n,
{
    if n <= 9 {
        seq![digit_char(n)]
    } else {
        dec_rep(n / 10).push(digit_char(n % 10))
    }
}

pub open spec fn is_digit(c: char) -> bool {
    '0' <= c && c <= '9'
}

pub open spec fn digit_val(c: char) -> int {
    c as int - '0' as int
}

pub open spec fn bool_rep(b: bool) -> Seq<char> {
    if b {
        "true"@
    } else {
        "false"@
    }
}

pub open spec fn key_id() -> Seq<char> {
    "\"id\""@
}

pub open spec fn key_index() -> Seq<char> {
    "\"index\""@
}

pub open spec fn key_title() -> Seq<char> {
    "\"title\""@
}

pub open spec fn key_completed() -> Seq<char> {
    "\"is_complited\""@
}

pub open spec fn key_created() -> Seq<char> {
    "\"created_at\""@
}

pub open spec fn lit_obj_open() -> Seq<char> {
    "{\"id\":\""@
}

pub open spec fn lit_index() -> Seq<char> {
    "\",\"index\":"@
}

pub open spec fn lit_title() -> Seq<char> {
    ",\"title\":\""@
}

pub open spec fn lit_completed() -> Seq<char> {
    "\",\"is_complited\":"@
}

pub open spec fn lit_created() -> Seq<char> {
    ",\"created_at\":\""@
}

/// One task as a JSON object, in the canonical form the encoder writes.
/// The persisted completion key keeps the historical spelling of the
/// store files, for compatibility with them.
pub open spec fn render_task(t: TaskView) -> Seq<char> {
    lit_obj_open() + escape(t.id) + lit_index() + dec_rep(t.index as int) + lit_title() + escape(
        t.title,
    ) + lit_completed() + bool_rep(t.is_complete) + lit_created() + escape(t.created_at)
        + seq!['"', '}']
}

/// First position at or after `i` that is not JSON whitespace.
pub open spec fn skip_ws(s: Seq<char>, i: int) -> int
    decreases s.len() - i,
{
    if 0 <= i && i < s.len() && is_ws(s[i]) {
        skip_ws(s, i + 1)
    } else {
        i
    }
}

/// The task objects joined by a comma and a line break.
pub open spec fn render_items(ts: Seq<TaskView>) -> Seq<char>
    decreases ts.len(),
{
    if ts.len() == 0 {
        Seq::empty()
    } else if ts.len() == 1 {
        render_task(ts[0])
    } else {
        render_task(ts[0]) + seq![',', '\n'] + render_items(ts.drop_first())
    }
}

/// The whole store document.
pub open spec fn render_doc(ts: Seq<TaskView>) -> Seq<char> {
    if ts.len() == 0 {
        seq!['[', ']']
    } else {
        seq!['[', '\n'] + render_items(ts) + seq!['\n', ']']
    }
}

/// `lit` stands at position `i`.
pub open spec fn parse_lit(s: Seq<char>, i: int, lit: Seq<char>) -> bool {
    0 <= i && i + lit.len() <= s.len() && s.subrange(i, i + lit.len()) == lit
}

/// Reads a quoted string's remainder from `i`, `acc` already read, up to
/// and including the closing quote.
pub open spec fn parse_string_from(s: Seq<char>, i: int, acc: Seq<char>) -> Option<
    (Seq<char>, int),
>
    decreases s.len() - i,
{
    if i < 0 || i >= s.len() {
        None
    } else if s[i] == '"' {
        Some((acc, i + 1))
    } else if s[i] == '\\' {
        if i + 1 >= s.len() {
            None
        } else if s[i + 1] == 'u' {
            if i + 6 > s.len() {
                None
            } else if !(is_hex(s[i + 2]) && is_hex(s[i + 3]) && is_hex(s[i + 4]) && is_hex(
                s[i + 5],
            )) {
                None
            } else {
                let v = ((hex_val(s[i + 2]) * 16 + hex_val(s[i + 3])) * 16 + hex_val(s[i + 4]))
                    * 16 + hex_val(s[i + 5]);
                if !valid_bmp(v) {
                    None
                } else {
                    parse_string_from(s, i + 6, acc.push(char_of(v)))
                }
            }
        } else {
            match unesc_char(s[i + 1]) {
                Some(c) => parse_string_from(s, i + 2, acc.push(c)),
                None => None,
            }
        }
    } else {
        parse_string_from(s, i + 1, acc.push(s[i]))
    }
}

/// Reads further digits from `i` onto the value `acc`, rejecting values
/// beyond u32.
pub open spec fn parse_number_from(s: Seq<char>, i: int, acc: int) -> Option<(int, int)>
    decreases s.len() - i,
{
    if 0 <= i && i < s.len() && is_digit(s[i]) {
        if acc * 10 + digit_val(s[i]) > u32::MAX {
            None
        } else {
            parse_number_from(s, i + 1, acc * 10 + digit_val(s[i]))
        }
    } else {
        Some((acc, i))
    }
}

/// Reads a decimal number: at least one digit, no leading zero, value at
/// most u32::MAX.
pub open spec fn parse_number(s: Seq<char>, i: int) -> Option<(int, int)> {
    if 0 <= i && i < s.len() && is_digit(s[i]) {
        if s[i] == '0' {
            Some((0, i + 1))
        } else {
            parse_number_from(s, i, 0)
        }
    } else {
        None
    }
}

pub open spec fn parse_bool(s: Seq<char>, i: int) -> Option<(bool, int)> {
    if parse_lit(s, i, "true"@) {
        Some((true, i + "true"@.len()))
    } else if parse_lit(s, i, "false"@) {
        Some((false, i + "false"@.len()))
    } else {
        None
    }
}

/// Reads one task object at `i`: whitespace between tokens is allowed,
/// the five keys must come in the order the store writes them.
pub open spec fn parse_task(s: Seq<char>, i: int) -> Option<(TaskView, int)> {
    let a0 = skip_ws(s, i);
    if !(a0 < s.len() && s[a0] == '{') {
        None
    } else {
        let k1 = skip_ws(s, a0 + 1);
        if !parse_lit(s, k1, key_id()) {
            None
        } else {
            let c1 = skip_ws(s, k1 + key_id().len());
            if !(c1 < s.len() && s[c1] == ':') {
                None
            } else {
                let q1 = skip_ws(s, c1 + 1);
                if !(q1 < s.len() && s[q1] == '"') {
                    None
                } else {
                    match parse_string_from(s, q1 + 1, Seq::empty()) {
                        None => None,
                        Some((id, j1)) => parse_task_after_id(s, i, id, j1),
                    }
                }
            }
        }
    }
}

pub open spec fn parse_task_after_id(s: Seq<char>, i: int, id: Seq<char>, j1: int) -> Option<
    (TaskView, int),
> {
    let m1 = skip_ws(s, j1);
    if !(m1 < s.len() && s[m1] == ',') {
        None
    } else {
        let k2 = skip_ws(s, m1 + 1);
        if !parse_lit(s, k2, key_index()) {
            None
        } else {
            let c2 = skip_ws(s, k2 + key_index().len());
            if !(c2 < s.len() && s[c2] == ':') {
                None
            } else {
                match parse_number(s, skip_ws(s, c2 + 1)) {
                    None => None,
                    Some((idx, j2)) => if !(0 <= idx <= u32::MAX) {
                        None
                    } else {
                        parse_task_after_index(s, i, id, idx, j2)
                    },
                }
            }
        }
    }
}

pub open spec fn parse_task_after_index(s: Seq<char>, i: int, id: Seq<char>, idx: int, j2: int) -> Option<
    (TaskView, int),
> {
    let m2 = skip_ws(s, j2);
    if !(m2 < s.len() && s[m2] == ',') {
        None
    } else {
        let k3 = skip_ws(s, m2 + 1);
        if !parse_lit(s, k3, key_title()) {
            None
        } else {
            let c3 = skip_ws(s, k3 + key_title().len());
            if !(c3 < s.len() && s[c3] == ':') {
                None
            } else {
                let q3 = skip_ws(s, c3 + 1);
                if !(q3 < s.len() && s[q3] == '"') {
                    None
                } else {
                    match parse_string_from(s, q3 + 1, Seq::empty()) {
                        None => None,
                        Some((title, j3)) => parse_task_after_title(s, i, id, idx, title, j3),
                    }
                }
            }
        }
    }
}

pub open spec fn parse_task_after_title(
    s: Seq<char>,
    i: int,
    id: Seq<char>,
    idx: int,
    title: Seq<char>,
    j3: int,
) -> Option<(TaskView, int)> {
    let m3 = skip_ws(s, j3);
    if !(m3 < s.len() && s[m3] == ',') {
        None
    } else {
        let k4 = skip_ws(s, m3 + 1);
        if !parse_lit(s, k4, key_completed()) {
            None
        } else {
            let c4 = skip_ws(s, k4 + key_completed().len());
            if !(c4 < s.len() && s[c4] == ':') {
                None
            } else {
                match parse_bool(s, skip_ws(s, c4 + 1)) {
                    None => None,
                    Some((b, j4)) => parse_task_after_completed(s, i, id, idx, title, b, j4),
                }
            }
        }
    }
}

pub open spec fn parse_task_after_completed(
    s: Seq<char>,
    i: int,
    id: Seq<char>,
    idx: int,
    title: Seq<char>,
    b: bool,
    j4: int,
) -> Option<(TaskView, int)> {
    let m4 = skip_ws(s, j4);
    if !(m4 < s.len() && s[m4] == ',') {
        None
    } else {
        let k5 = skip_ws(s, m4 + 1);
        if !parse_lit(s, k5, key_created()) {
            None
        } else {
            let c5 = skip_ws(s, k5 + key_created().len());
            if !(c5 < s.len() && s[c5] == ':') {
                None
            } else {
                let q5 = skip_ws(s, c5 + 1);
                if !(q5 < s.len() && s[q5] == '"') {
                    None
                } else {
                    match parse_string_from(s, q5 + 1, Seq::empty()) {
                        None => None,
                        Some((created, j5)) => {
                            let m5 = skip_ws(s, j5);
                            if !(m5 < s.len() && s[m5] == '}') {
                                None
                            } else {
                                Some(
                                    (
                                        TaskView {
                                            id: id,
                                            index: idx as u32,
                                            title: title,
                                            is_complete: b,
                                            created_at: created,
                                        },
                                        m5 + 1,
                                    ),
                                )
                            }
                        },
                    }
                }
            }
        }
    }
}

/// Reads the remaining task objects, each followed by a separator or by
/// the closing bracket.
pub open spec fn parse_items(s: Seq<char>, i: int, acc: Seq<TaskView>) -> Option<
    (Seq<TaskView>, int),
>
    decreases s.len() - i,
{
    match parse_task(s, i) {
        None => None,
        Some((t, j)) => if j <= i || j > s.len() {
            None
        } else {
            let m = skip_ws(s, j);
            if m < j || m > s.len() {
                None
            } else if m < s.len() && s[m] == ',' {
                parse_items(s, m + 1, acc.push(t))
            } else if m < s.len() && s[m] == ']' {
                Some((acc.push(t), m + 1))
            } else {
                None
            }
        },
    }
}

/// Reads a whole store document.
pub open spec fn parse_doc(s: Seq<char>) -> Option<Seq<TaskView>> {
    let a = skip_ws(s, 0);
    if !(a < s.len() && s[a] == '[') {
        None
    } else {
        let b = skip_ws(s, a + 1);
        if b < s.len() && s[b] == ']' {
            if skip_ws(s, b + 1) == s.len() {
                Some(Seq::empty())
            } else {
                None
            }
        } else {
            match parse_items(s, a + 1, Seq::empty()) {
                None => None,
                Some((ts, j)) => if skip_ws(s, j) == s.len() {
                    Some(ts)
                } else {
                    None
                },
            }
        }
    }
}

proof fn lemma_hex_digit(d: int)
    requires
        0 <= d < 16,
    ensures
        is_hex(hex_digit(d)),
        hex_val(hex_digit(d)) == d,
{
}

/// A valid code point names exactly one character.
proof fn lemma_char_of(c: char)
    ensures
        char_of(c as u32 as int) == c,
{
    let v = c as u32 as int;
    assert(exists|cc: char| (#[trigger] (cc as u32)) == v) by {
        assert(c as u32 == v);
    }
    assert(char_of(v) as u32 == v);
}

proof fn lemma_parse_escape(s: Seq<char>, i: int, acc: Seq<char>, v: Seq<char>)
    requires
        0 <= i,
        i + escape(v).len() + 1 <= s.len(),
        s.subrange(i, i + escape(v).len() + 1) == escape(v).push('"'),
    ensures
        parse_string_from(s, i, acc) == Some((acc + v, i + escape(v).len() + 1)),
    decreases v.len(),
{
    let w = escape(v).push('"');
    assert forall|k: int| 0 <= k < w.len() implies s[i + k] == w[k] by {
        assert(s.subrange(i, i + w.len() as int)[k] == s[i + k]);
    }
    if v.len() == 0 {
        assert(escape(v).len() == 0);
        assert(s.subrange(i, i + w.len() as int)[0] == s[i]);
        assert(s[i] == w[0]);
        assert(s[i] == '"');
        assert(acc + v =~= acc);
    } else {
        let c = v[0];
        let v1 = v.drop_first();
        let e = esc_char(c);
        let el = e.len();
        assert(escape(v) == e + escape(v1));
        assert(s.subrange(i, i + w.len() as int)[0] == s[i]);
        assert(s[i] == w[0]);
        assert(w[0] == (e + escape(v1))[0]);
        assert(s[i] == e[0]);
        if el >= 2 {
            assert(s.subrange(i, i + w.len() as int)[1] == s[i + 1]);
            assert(s[i + 1] == w[1]);
            assert(w[1] == (e + escape(v1))[1]);
            assert(s[i + 1] == e[1]);
        }
        assert(s.subrange(i + el, i + escape(v).len() + 1) =~= escape(v1).push('"')) by {
            assert forall|k: int| 0 <= k < escape(v1).len() + 1 implies s.subrange(
                i + el,
                i + escape(v).len() + 1,
            )[k] == escape(v1).push('"')[k] by {
                assert(s.subrange(i + el, i + escape(v).len() + 1)[k] == s[i + el + k]);
                assert(s[i + el + k] == w[el + k]);
            }
        }
        if c == '"' || c == '\\' || c == '\n' || c == '\r' || c == '\t' {
            assert(el == 2 && e[0] == '\\');
            assert(s[i] == '\\');
            assert(s[i + 1] != 'u');
            assert(unesc_char(s[i + 1]) == Some(c));
            lemma_parse_escape(s, i + 2, acc.push(c), v1);
            assert(acc.push(c) + v1 =~= acc + v);
        } else if (c as u32) < 32 {
            assert(el == 6);
            assert forall|k: int| 0 <= k < 6 implies s[i + k] == e[k] by {
                assert(s.subrange(i, i + w.len() as int)[k] == s[i + k]);
                assert(w[k] == (e + escape(v1))[k]);
            }
            let h1 = hex_digit(((c as u32) / 16) as int);
            let h2 = hex_digit(((c as u32) % 16) as int);
            assert(s[i] == '\\' && s[i + 1] == 'u' && s[i + 2] == '0' && s[i + 3] == '0');
            assert(s[i + 4] == h1 && s[i + 5] == h2);
            lemma_hex_digit(((c as u32) / 16) as int);
            lemma_hex_digit(((c as u32) % 16) as int);
            assert(is_hex('0') && hex_val('0') == 0);
            let vv = ((hex_val(s[i + 2]) * 16 + hex_val(s[i + 3])) * 16 + hex_val(s[i + 4])) * 16
                + hex_val(s[i + 5]);
            assert(vv == ((c as u32) / 16) * 16 + ((c as u32) % 16));
            assert(vv == c as u32 as int);
            assert(valid_bmp(vv));
            lemma_char_of(c);
            assert(char_of(vv) == c);
            lemma_parse_escape(s, i + 6, acc.push(c), v1);
            assert(acc.push(c) + v1 =~= acc + v);
        } else {
            assert(el == 1 && e[0] == c);
            assert(s[i] == c);
            assert(s[i] != '"' && s[i] != '\\');
            lemma_parse_escape(s, i + 1, acc.push(c), v1);
            assert(acc.push(c) + v1 =~= acc + v);
        }
    }
}

pub open spec fn pow10(k: int) -> int
    decreases k,
{
    if k <= 0 {
        1
    } else {
        10 * pow10(k - 1)
    }
}

proof fn lemma_dec_rep_digits(n: int)
    requires
        0 <= n,
    ensures
        dec_rep(n).len() >= 1,
        forall|k: int| 0 <= k < dec_rep(n).len() ==> is_digit(#[trigger] dec_rep(n)[k]),
        n >= 1 ==> dec_rep(n)[0] != '0',
    decreases n,
{
    if n <= 9 {
        assert(is_digit(digit_char(n)));
    } else {
        lemma_dec_rep_digits(n / 10);
        assert(is_digit(digit_char(n % 10)));
        assert(dec_rep(n)[0] == dec_rep(n / 10)[0]);
    }
}

proof fn lemma_parse_dec(s: Seq<char>, i: int, acc: int, n: int)
    requires
        0 <= n <= u32::MAX,
        0 <= acc,
        0 <= i,
        i + dec_rep(n).len() <= s.len(),
        s.subrange(i, i + dec_rep(n).len()) == dec_rep(n),
        acc * pow10(dec_rep(n).len() as int) + n <= u32::MAX,
    ensures
        parse_number_from(s, i, acc) == parse_number_from(
            s,
            i + dec_rep(n).len(),
            acc * pow10(dec_rep(n).len() as int) + n,
        ),
    decreases n,
{
    let d = dec_rep(n);
    assert forall|k: int| 0 <= k < d.len() implies s[i + k] == d[k] by {
        assert(s.subrange(i, i + d.len() as int)[k] == s[i + k]);
    }
    if n <= 9 {
        assert(d == seq![digit_char(n)]);
        assert(s.subrange(i, i + d.len() as int)[0] == s[i]);
        assert(s[i] == d[0]);
        assert(s[i] == digit_char(n));
        assert(is_digit(digit_char(n)));
        assert(digit_val(digit_char(n)) == n);
        assert(pow10(0) == 1);
        assert(pow10(1) == 10);
        assert(acc * 10 + n <= u32::MAX);
    } else {
        let p = dec_rep(n / 10);
        let l1 = p.len();
        assert(d == p.push(digit_char(n % 10)));
        assert(d.len() == l1 + 1);
        assert(s.subrange(i, i + l1) =~= p) by {
            assert forall|k: int| 0 <= k < l1 implies s.subrange(i, i + l1)[k] == p[k] by {
                assert(s.subrange(i, i + l1)[k] == s[i + k]);
                assert(d[k] == p[k]);
            }
        }
        let p1 = acc * pow10(l1 as int) + n / 10;
        let whole = acc * pow10(d.len() as int) + n;
        lemma_pow10_pos(l1 as int);
        assert(pow10(d.len() as int) == 10 * pow10(l1 as int));
        assert(whole == p1 * 10 + n % 10) by (nonlinear_arith)
            requires
                pow10(d.len() as int) == 10 * pow10(l1 as int),
                p1 == acc * pow10(l1 as int) + n / 10,
                whole == acc * pow10(d.len() as int) + n,
                n >= 10,
        ;
        assert(0 <= p1 && p1 <= whole) by (nonlinear_arith)
            requires
                whole == p1 * 10 + n % 10,
                acc >= 0,
                n >= 10,
                pow10(l1 as int) >= 1,
                p1 == acc * pow10(l1 as int) + n / 10,
        ;
        lemma_parse_dec(s, i, acc, n / 10);
        assert(parse_number_from(s, i, acc) == parse_number_from(s, i + l1, p1));
        assert(s.subrange(i, i + d.len() as int)[l1 as int] == s[i + l1]);
        assert(s[i + l1] == d[l1 as int]);
        assert(d[l1 as int] == digit_char(n % 10));
        assert(s[i + l1] == digit_char(n % 10));
        assert(is_digit(digit_char(n % 10)));
        assert(digit_val(digit_char(n % 10)) == n % 10);
        assert(parse_number_from(s, i + l1, p1) == parse_number_from(s, i + l1 + 1, whole));
    }
}

proof fn lemma_pow10_pos(k: int)
    ensures
        pow10(k) >= 1,
    decreases k,
{
    if k > 0 {
        lemma_pow10_pos(k - 1);
    }
}

proof fn lemma_parse_number_rep(s: Seq<char>, i: int, n: int)
    requires
        0 <= n <= u32::MAX,
        0 <= i,
        i + dec_rep(n).len() <= s.len(),
        s.subrange(i, i + dec_rep(n).len()) == dec_rep(n),
        i + dec_rep(n).len() == s.len() || !is_digit(s[i + dec_rep(n).len()]),
    ensures
        parse_number(s, i) == Some((n, i + dec_rep(n).len())),
{
    let d = dec_rep(n);
    lemma_dec_rep_digits(n);
    assert(s.subrange(i, i + d.len() as int)[0] == s[i]);
    assert(s[i] == d[0]);
    assert(is_digit(s[i]));
    if n == 0 {
        assert(d == seq![digit_char(0)]);
        assert(s[i] == '0');
        assert(parse_number(s, i) == Some((0int, i + 1)));
    } else {
        assert(s[i] != '0');
        lemma_pow10_pos(d.len() as int);
        assert(0 * pow10(d.len() as int) + n == n);
        lemma_parse_dec(s, i, 0, n);
        assert(parse_number_from(s, i + d.len(), n) == Some((n, i + d.len())));
    }
}

proof fn lemma_parse_bool_rep(s: Seq<char>, i: int, b: bool)
    requires
        0 <= i,
        i + bool_rep(b).len() <= s.len(),
        s.subrange(i, i + bool_rep(b).len()) == bool_rep(b),
    ensures
        parse_bool(s, i) == Some((b, i + bool_rep(b).len())),
{
    reveal_strlit("true");
    reveal_strlit("false");
    let w = bool_rep(b);
    assert forall|k: int| 0 <= k < w.len() implies s[i + k] == w[k] by {
        assert(s.subrange(i, i + w.len() as int)[k] == s[i + k]);
    }
    if b {
        assert(s.subrange(i, i + 4) =~= "true"@) by {
            assert forall|k: int| 0 <= k < 4 implies s.subrange(i, i + 4)[k] == "true"@[k] by {
                assert(s.subrange(i, i + 4)[k] == s[i + k]);
            }
        }
    } else {
        assert(s.subrange(i, i + w.len() as int)[0] == s[i]);
        assert(s[i] == w[0]);
        assert(s[i] == 'f');
        if parse_lit(s, i, "true"@) {
            assert(s.subrange(i, i + 4)[0] == s[i]);
            assert(s[i] == 't');
        }
        assert(!parse_lit(s, i, "true"@));
        assert(s.subrange(i, i + 5) =~= "false"@) by {
            assert forall|k: int| 0 <= k < 5 implies s.subrange(i, i + 5)[k] == "false"@[k] by {
                assert(s.subrange(i, i + 5)[k] == s[i + k]);
            }
        }
    }
}

proof fn lemma_seg_at(s: Seq<char>, i: int, rt: Seq<char>, o: int, seg: Seq<char>)
    requires
        0 <= i,
        i + rt.len() <= s.len(),
        s.subrange(i, i + rt.len()) == rt,
        0 <= o,
        o + seg.len() <= rt.len(),
        rt.subrange(o, o + seg.len()) == seg,
    ensures
        s.subrange(i + o, i + o + seg.len()) == seg,
{
    s.lemma_slice_of_slice(i, i + rt.len() as int, o, o + seg.len() as int);
}

/// One character of the rendered task, read through the document.
proof fn lemma_rt_char(s: Seq<char>, i: int, rt: Seq<char>, o: int)
    requires
        0 <= i,
        i + rt.len() <= s.len(),
        s.subrange(i, i + rt.len()) == rt,
        0 <= o < rt.len(),
    ensures
        s[i + o] == rt[o],
{
    assert(s.subrange(i, i + rt.len() as int)[o] == s[i + o]);
}

#[verifier::rlimit(100)]
proof fn lemma_parse_render_task(s: Seq<char>, p: int, i: int, t: TaskView)
    requires
        0 <= p <= i,
        skip_ws(s, p) == i,
        i + render_task(t).len() <= s.len(),
        s.subrange(i, i + render_task(t).len()) == render_task(t),
    ensures
        parse_task(s, p) == Some((t, i + render_task(t).len())),
{
    reveal_strlit("{\"id\":\"");
    reveal_strlit("\",\"index\":");
    reveal_strlit(",\"title\":\"");
    reveal_strlit("\",\"is_complited\":");
    reveal_strlit(",\"created_at\":\"");
    reveal_strlit("\"id\"");
    reveal_strlit("\"index\"");
    reveal_strlit("\"title\"");
    reveal_strlit("\"is_complited\"");
    reveal_strlit("\"created_at\"");
    reveal_strlit("true");
    reveal_strlit("false");
    let rt = render_task(t);
    let e_id = escape(t.id);
    let o2: int = 7;
    let o3: int = o2 + e_id.len() + 1;
    lemma_rt_char(s, i, rt, 0);
    assert(rt[0] == lit_obj_open()[0]);
    assert(s[i] == '{');
    assert(skip_ws(s, p) == i);
    lemma_rt_char(s, i, rt, 1);
    assert(rt[1] == lit_obj_open()[1]);
    assert(s[i + 1] == '"');
    assert(skip_ws(s, i + 1) == i + 1);
    assert(rt.subrange(1, 5) =~= key_id());
    lemma_seg_at(s, i, rt, 1, key_id());
    assert(parse_lit(s, i + 1, key_id()));
    lemma_rt_char(s, i, rt, 5);
    assert(rt[5] == lit_obj_open()[5]);
    assert(s[i + 5] == ':');
    assert(skip_ws(s, i + 5) == i + 5);
    lemma_rt_char(s, i, rt, 6);
    assert(rt[6] == lit_obj_open()[6]);
    assert(s[i + 6] == '"');
    assert(skip_ws(s, i + 6) == i + 6);
    assert(rt.subrange(o2, o2 + (e_id.len() + 1)) =~= e_id.push('"')) by {
        assert forall|k: int|
            0 <= k < e_id.len() + 1 implies rt.subrange(o2, o2 + (e_id.len() + 1))[k]
            == e_id.push('"')[k] by {
            if k == e_id.len() {
                assert(rt[o2 + k] == lit_index()[0]);
            }
        }
    }
    lemma_seg_at(s, i, rt, o2, e_id.push('"'));
    lemma_parse_escape(s, i + o2, Seq::empty(), t.id);
    assert(Seq::empty() + t.id =~= t.id);
    assert(parse_string_from(s, i + o2, Seq::empty()) == Some((t.id, i + o3)));
    lemma_parse_render_after_id(s, i, t, i + o3);
    assert(parse_task(s, p) == Some((t, i + rt.len())));
}

#[verifier::rlimit(100)]
proof fn lemma_parse_render_after_id(s: Seq<char>, i: int, t: TaskView, j1: int)
    requires
        0 <= i,
        i + render_task(t).len() <= s.len(),
        s.subrange(i, i + render_task(t).len()) == render_task(t),
        j1 == i + 7 + escape(t.id).len() + 1,
    ensures
        parse_task_after_id(s, i, t.id, j1) == Some((t, i + render_task(t).len())),
{
    reveal_strlit("{\"id\":\"");
    reveal_strlit("\",\"index\":");
    reveal_strlit(",\"title\":\"");
    reveal_strlit("\",\"is_complited\":");
    reveal_strlit(",\"created_at\":\"");
    reveal_strlit("\"id\"");
    reveal_strlit("\"index\"");
    reveal_strlit("\"title\"");
    reveal_strlit("\"is_complited\"");
    reveal_strlit("\"created_at\"");
    reveal_strlit("true");
    reveal_strlit("false");
    let rt = render_task(t);
    let d = dec_rep(t.index as int);
    let o3: int = 7 + escape(t.id).len() as int + 1;
    let o4: int = o3 + 9;
    let o5: int = o4 + d.len();
    lemma_rt_char(s, i, rt, o3);
    assert(rt[o3] == lit_index()[1]);
    assert(s[i + o3] == ',');
    assert(skip_ws(s, i + o3) == i + o3);
    lemma_rt_char(s, i, rt, o3 + 1);
    assert(rt[o3 + 1] == lit_index()[2]);
    assert(s[i + o3 + 1] == '"');
    assert(skip_ws(s, i + o3 + 1) == i + o3 + 1);
    assert(rt.subrange(o3 + 1, o3 + 8) =~= key_index()) by {
        assert forall|k: int|
            0 <= k < 7 implies rt.subrange(o3 + 1, o3 + 8)[k] == key_index()[k] by {
            assert(rt[o3 + 1 + k] == lit_index()[2 + k]);
        }
    }
    lemma_seg_at(s, i, rt, o3 + 1, key_index());
    assert(parse_lit(s, i + o3 + 1, key_index()));
    lemma_rt_char(s, i, rt, o3 + 8);
    assert(rt[o3 + 8] == lit_index()[9]);
    assert(s[i + o3 + 8] == ':');
    assert(skip_ws(s, i + o3 + 8) == i + o3 + 8);
    lemma_dec_rep_digits(t.index as int);
    assert(rt.subrange(o4, o4 + d.len()) =~= d);
    lemma_seg_at(s, i, rt, o4, d);
    assert(s.subrange(i + o4, i + o4 + d.len() as int)[0] == s[i + o4]);
    assert(s[i + o4] == d[0]);
    assert(is_digit(s[i + o4]));
    assert(!is_ws(s[i + o4]));
    assert(skip_ws(s, i + o4) == i + o4);
    lemma_rt_char(s, i, rt, o5);
    assert(rt[o5] == lit_title()[0]);
    assert(s[i + o5] == ',');
    assert(!is_digit(s[i + o5]));
    lemma_parse_number_rep(s, i + o4, t.index as int);
    assert(parse_number(s, i + o4) == Some((t.index as int, i + o5)));
    assert((t.index as int) as u32 == t.index);
    lemma_parse_render_after_index(s, i, t, i + o5);
    assert(parse_task_after_id(s, i, t.id, j1) == Some((t, i + rt.len())));
}

#[verifier::rlimit(100)]
proof fn lemma_parse_render_after_index(s: Seq<char>, i: int, t: TaskView, j2: int)
    requires
        0 <= i,
        i + render_task(t).len() <= s.len(),
        s.subrange(i, i + render_task(t).len()) == render_task(t),
        j2 == i + 7 + escape(t.id).len() + 1 + 9 + dec_rep(t.index as int).len(),
    ensures
        parse_task_after_index(s, i, t.id, t.index as int, j2) == Some(
            (t, i + render_task(t).len()),
        ),
{
    reveal_strlit("{\"id\":\"");
    reveal_strlit("\",\"index\":");
    reveal_strlit(",\"title\":\"");
    reveal_strlit("\",\"is_complited\":");
    reveal_strlit(",\"created_at\":\"");
    reveal_strlit("\"id\"");
    reveal_strlit("\"index\"");
    reveal_strlit("\"title\"");
    reveal_strlit("\"is_complited\"");
    reveal_strlit("\"created_at\"");
    reveal_strlit("true");
    reveal_strlit("false");
    let rt = render_task(t);
    let e_ti = escape(t.title);
    let o5: int = j2 - i;
    let o6: int = o5 + 10;
    let o7: int = o6 + e_ti.len() + 1;
    lemma_rt_char(s, i, rt, o5);
    assert(rt[o5] == lit_title()[0]);
    assert(s[i + o5] == ',');
    assert(skip_ws(s, i + o5) == i + o5);
    lemma_rt_char(s, i, rt, o5 + 1);
    assert(rt[o5 + 1] == lit_title()[1]);
    assert(s[i + o5 + 1] == '"');
    assert(skip_ws(s, i + o5 + 1) == i + o5 + 1);
    assert(rt.subrange(o5 + 1, o5 + 8) =~= key_title()) by {
        assert forall|k: int|
            0 <= k < 7 implies rt.subrange(o5 + 1, o5 + 8)[k] == key_title()[k] by {
            assert(rt[o5 + 1 + k] == lit_title()[1 + k]);
        }
    }
    lemma_seg_at(s, i, rt, o5 + 1, key_title());
    assert(parse_lit(s, i + o5 + 1, key_title()));
    lemma_rt_char(s, i, rt, o5 + 8);
    assert(rt[o5 + 8] == lit_title()[8]);
    assert(s[i + o5 + 8] == ':');
    assert(skip_ws(s, i + o5 + 8) == i + o5 + 8);
    lemma_rt_char(s, i, rt, o5 + 9);
    assert(rt[o5 + 9] == lit_title()[9]);
    assert(s[i + o5 + 9] == '"');
    assert(skip_ws(s, i + o5 + 9) == i + o5 + 9);
    assert(rt.subrange(o6, o6 + (e_ti.len() + 1)) =~= e_ti.push('"')) by {
        assert forall|k: int|
            0 <= k < e_ti.len() + 1 implies rt.subrange(o6, o6 + (e_ti.len() + 1))[k]
            == e_ti.push('"')[k] by {
            if k == e_ti.len() {
                assert(rt[o6 + k] == lit_completed()[0]);
            }
        }
    }
    lemma_seg_at(s, i, rt, o6, e_ti.push('"'));
    lemma_parse_escape(s, i + o6, Seq::empty(), t.title);
    assert(Seq::empty() + t.title =~= t.title);
    assert(parse_string_from(s, i + o6, Seq::empty()) == Some((t.title, i + o7)));
    lemma_parse_render_after_title(s, i, t, i + o7);
    assert(parse_task_after_index(s, i, t.id, t.index as int, j2) == Some((t, i + rt.len())));
}

#[verifier::rlimit(100)]
proof fn lemma_parse_render_after_title(s: Seq<char>, i: int, t: TaskView, j3: int)
    requires
        0 <= i,
        i + render_task(t).len() <= s.len(),
        s.subrange(i, i + render_task(t).len()) == render_task(t),
        j3 == i + 7 + escape(t.id).len() + 1 + 9 + dec_rep(t.index as int).len() + 10 + escape(
            t.title,
        ).len() + 1,
    ensures
        parse_task_after_title(s, i, t.id, t.index as int, t.title, j3) == Some(
            (t, i + render_task(t).len()),
        ),
{
    reveal_strlit("{\"id\":\"");
    reveal_strlit("\",\"index\":");
    reveal_strlit(",\"title\":\"");
    reveal_strlit("\",\"is_complited\":");
    reveal_strlit(",\"created_at\":\"");
    reveal_strlit("\"id\"");
    reveal_strlit("\"index\"");
    reveal_strlit("\"title\"");
    reveal_strlit("\"is_complited\"");
    reveal_strlit("\"created_at\"");
    reveal_strlit("true");
    reveal_strlit("false");
    let rt = render_task(t);
    let b = bool_rep(t.is_complete);
    let o7: int = j3 - i;
    let o8: int = o7 + 16;
    let o9: int = o8 + b.len();
    lemma_rt_char(s, i, rt, o7);
    assert(rt[o7] == lit_completed()[1]);
    assert(s[i + o7] == ',');
    assert(skip_ws(s, i + o7) == i + o7);
    lemma_rt_char(s, i, rt, o7 + 1);
    assert(rt[o7 + 1] == lit_completed()[2]);
    assert(s[i + o7 + 1] == '"');
    assert(skip_ws(s, i + o7 + 1) == i + o7 + 1);
    assert(rt.subrange(o7 + 1, o7 + 15) =~= key_completed()) by {
        assert forall|k: int|
            0 <= k < 14 implies rt.subrange(o7 + 1, o7 + 15)[k] == key_completed()[k] by {
            assert(rt[o7 + 1 + k] == lit_completed()[2 + k]);
        }
    }
    lemma_seg_at(s, i, rt, o7 + 1, key_completed());
    assert(parse_lit(s, i + o7 + 1, key_completed()));
    lemma_rt_char(s, i, rt, o7 + 15);
    assert(rt[o7 + 15] == lit_completed()[16]);
    assert(s[i + o7 + 15] == ':');
    assert(skip_ws(s, i + o7 + 15) == i + o7 + 15);
    lemma_rt_char(s, i, rt, o8);
    assert(rt[o8] == b[0]);
    assert(s[i + o8] == b[0]);
    assert(b[0] == 't' || b[0] == 'f');
    assert(!is_ws(s[i + o8]));
    assert(skip_ws(s, i + o8) == i + o8);
    assert(rt.subrange(o8, o8 + b.len()) =~= b);
    lemma_seg_at(s, i, rt, o8, b);
    lemma_parse_bool_rep(s, i + o8, t.is_complete);
    assert(parse_bool(s, i + o8) == Some((t.is_complete, i + o9)));
    lemma_parse_render_after_completed(s, i, t, i + o9);
    assert(parse_task_after_title(s, i, t.id, t.index as int, t.title, j3) == Some(
        (t, i + rt.len()),
    ));
}

#[verifier::rlimit(100)]
proof fn lemma_parse_render_after_completed(s: Seq<char>, i: int, t: TaskView, j4: int)
    requires
        0 <= i,
        i + render_task(t).len() <= s.len(),
        s.subrange(i, i + render_task(t).len()) == render_task(t),
        j4 == i + 7 + escape(t.id).len() + 1 + 9 + dec_rep(t.index as int).len() + 10 + escape(
            t.title,
        ).len() + 1 + 16 + bool_rep(t.is_complete).len(),
    ensures
        parse_task_after_completed(s, i, t.id, t.index as int, t.title, t.is_complete, j4)
            == Some((t, i + render_task(t).len())),
{
    reveal_strlit("{\"id\":\"");
    reveal_strlit("\",\"index\":");
    reveal_strlit(",\"title\":\"");
    reveal_strlit("\",\"is_complited\":");
    reveal_strlit(",\"created_at\":\"");
    reveal_strlit("\"id\"");
    reveal_strlit("\"index\"");
    reveal_strlit("\"title\"");
    reveal_strlit("\"is_complited\"");
    reveal_strlit("\"created_at\"");
    reveal_strlit("true");
    reveal_strlit("false");
    let rt = render_task(t);
    let e_cr = escape(t.created_at);
    let o9: int = j4 - i;
    let o10: int = o9 + 15;
    let o11: int = o10 + e_cr.len() + 1;
    assert(rt.len() == o11 + 1);
    lemma_rt_char(s, i, rt, o9);
    assert(rt[o9] == lit_created()[0]);
    assert(s[i + o9] == ',');
    assert(skip_ws(s, i + o9) == i + o9);
    lemma_rt_char(s, i, rt, o9 + 1);
    assert(rt[o9 + 1] == lit_created()[1]);
    assert(s[i + o9 + 1] == '"');
    assert(skip_ws(s, i + o9 + 1) == i + o9 + 1);
    assert(rt.subrange(o9 + 1, o9 + 13) =~= key_created()) by {
        assert forall|k: int|
            0 <= k < 12 implies rt.subrange(o9 + 1, o9 + 13)[k] == key_created()[k] by {
            assert(rt[o9 + 1 + k] == lit_created()[1 + k]);
        }
    }
    lemma_seg_at(s, i, rt, o9 + 1, key_created());
    assert(parse_lit(s, i + o9 + 1, key_created()));
    lemma_rt_char(s, i, rt, o9 + 13);
    assert(rt[o9 + 13] == lit_created()[13]);
    assert(s[i + o9 + 13] == ':');
    assert(skip_ws(s, i + o9 + 13) == i + o9 + 13);
    lemma_rt_char(s, i, rt, o9 + 14);
    assert(rt[o9 + 14] == lit_created()[14]);
    assert(s[i + o9 + 14] == '"');
    assert(skip_ws(s, i + o9 + 14) == i + o9 + 14);
    assert(rt.subrange(o10, o10 + (e_cr.len() + 1)) =~= e_cr.push('"')) by {
        assert forall|k: int|
            0 <= k < e_cr.len() + 1 implies rt.subrange(o10, o10 + (e_cr.len() + 1))[k]
            == e_cr.push('"')[k] by {
            if k == e_cr.len() {
                assert(rt[o10 + k] == seq!['"', '}'][0]);
            }
        }
    }
    lemma_seg_at(s, i, rt, o10, e_cr.push('"'));
    lemma_parse_escape(s, i + o10, Seq::empty(), t.created_at);
    assert(Seq::empty() + t.created_at =~= t.created_at);
    assert(parse_string_from(s, i + o10, Seq::empty()) == Some((t.created_at, i + o11)));
    lemma_rt_char(s, i, rt, o11);
    assert(rt[o11] == seq!['"', '}'][1]);
    assert(s[i + o11] == '}');
    assert(skip_ws(s, i + o11) == i + o11);
    assert(parse_task_after_completed(s, i, t.id, t.index as int, t.title, t.is_complete, j4)
        == Some((t, i + o11 + 1)));
}

proof fn lemma_parse_items_render(s: Seq<char>, i: int, acc: Seq<TaskView>, ts: Seq<TaskView>)
    requires
        ts.len() >= 1,
        0 <= i,
        s[i] == '\n',
        i + 1 + render_items(ts).len() + 2 == s.len(),
        s.subrange(i + 1, s.len() as int) == render_items(ts) + seq!['\n', ']'],
    ensures
        parse_items(s, i, acc) == Some((acc + ts, s.len() as int)),
    decreases ts.len(),
{
    reveal_strlit("{\"id\":\"");
    reveal_strlit("\",\"index\":");
    reveal_strlit(",\"title\":\"");
    reveal_strlit("\",\"is_complited\":");
    reveal_strlit(",\"created_at\":\"");
    reveal_strlit("\"id\"");
    reveal_strlit("\"index\"");
    reveal_strlit("\"title\"");
    reveal_strlit("\"is_complited\"");
    reveal_strlit("\"created_at\"");
    reveal_strlit("true");
    reveal_strlit("false");
    let t0 = ts[0];
    let rt = render_task(t0);
    let w = render_items(ts) + seq!['\n', ']'];
    assert(rt.len() >= lit_obj_open().len());
    assert(rt.len() >= 7);
    let ib = i + 1;
    let j = ib + rt.len();
    assert(s.subrange(ib, ib + rt.len() as int) =~= rt) by {
        assert forall|k: int|
            0 <= k < rt.len() implies s.subrange(ib, ib + rt.len() as int)[k] == rt[k] by {
            assert(s.subrange(ib, ib + rt.len() as int)[k] == s[ib + k]);
            assert(s.subrange(ib, s.len() as int)[k] == s[ib + k]);
            assert(w[k] == rt[k]);
        }
    }
    assert(s.subrange(ib, s.len() as int)[0] == s[ib]);
    assert(w[0] == rt[0]);
    assert(rt[0] == lit_obj_open()[0]);
    assert(s[ib] == '{');
    assert(is_ws(s[i]));
    assert(!is_ws(s[ib]));
    assert(skip_ws(s, ib) == ib);
    assert(skip_ws(s, i) == skip_ws(s, ib));
    lemma_parse_render_task(s, i, ib, t0);
    assert(parse_task(s, i) == Some((t0, j)));
    if ts.len() == 1 {
        assert(render_items(ts) == rt);
        assert(s.subrange(ib, s.len() as int)[j - ib] == s[j]);
        assert(w[j - ib] == '\n');
        assert(s.subrange(ib, s.len() as int)[j - ib + 1] == s[j + 1]);
        assert(w[j - ib + 1] == ']');
        assert(s[j] == '\n' && s[j + 1] == ']' && j + 2 == s.len());
        assert(!is_ws(s[j + 1]));
        assert(skip_ws(s, j + 1) == j + 1);
        assert(skip_ws(s, j) == j + 1);
        assert(s[j + 1] != ',');
        assert(acc.push(t0) =~= acc + ts);
        assert(parse_items(s, i, acc) == Some((acc + ts, s.len() as int)));
    } else {
        let rest = ts.drop_first();
        assert(render_items(ts) == rt + seq![',', '\n'] + render_items(rest));
        assert(s.subrange(ib, s.len() as int)[j - ib] == s[j]);
        assert(w[j - ib] == ',');
        assert(s.subrange(ib, s.len() as int)[j - ib + 1] == s[j + 1]);
        assert(w[j - ib + 1] == '\n');
        assert(s[j] == ',' && s[j + 1] == '\n');
        assert(!is_ws(s[j]));
        assert(skip_ws(s, j) == j);
        assert(s.subrange(j + 2, s.len() as int) =~= render_items(rest) + seq!['\n', ']']) by {
            assert forall|k: int|
                0 <= k < s.len() - j - 2 implies s.subrange(j + 2, s.len() as int)[k] == (
            render_items(rest) + seq!['\n', ']'])[k] by {
                assert(s.subrange(j + 2, s.len() as int)[k] == s[j + 2 + k]);
                assert(s.subrange(ib, s.len() as int)[j - ib + 2 + k] == s[j + 2 + k]);
                assert(w[j - ib + 2 + k] == (render_items(rest) + seq!['\n', ']'])[k]);
            }
        }
        lemma_parse_items_render(s, j + 1, acc.push(t0), rest);
        assert(acc.push(t0) + rest =~= acc + ts);
        assert(parse_items(s, i, acc) == Some((acc + ts, s.len() as int)));
    }
}

proof fn lemma_escape_snoc(v: Seq<char>, c: char)
    ensures
        escape(v.push(c)) == escape(v) + esc_char(c),
    decreases v.len(),
{
    if v.len() == 0 {
        assert(v.push(c).drop_first() =~= Seq::<char>::empty());
        assert(v.push(c)[0] == c);
        assert(escape(v.push(c)) == esc_char(c) + escape(v.push(c).drop_first()));
        assert(escape(Seq::<char>::empty()) == Seq::<char>::empty());
        assert(escape(v.push(c)) =~= escape(v) + esc_char(c));
    } else {
        assert(v.push(c).drop_first() =~= v.drop_first().push(c));
        lemma_escape_snoc(v.drop_first(), c);
        assert(v.push(c)[0] == v[0]);
        assert(escape(v.push(c)) == esc_char(v[0]) + escape(v.push(c).drop_first()));
        assert(escape(v.push(c).drop_first()) == escape(v.drop_first()) + esc_char(c));
        assert(escape(v.push(c)) =~= escape(v) + esc_char(c));
    }
}

proof fn lemma_items_snoc(ts: Seq<TaskView>, t: TaskView)
    requires
        ts.len() >= 1,
    ensures
        render_items(ts.push(t)) == render_items(ts) + seq![',', '\n'] + render_task(t),
    decreases ts.len(),
{
    if ts.len() == 1 {
        assert(ts.push(t).drop_first() =~= seq![t]);
        assert(render_items(seq![t]) == render_task(t));
        assert(render_items(ts.push(t)) =~= render_items(ts) + seq![',', '\n'] + render_task(t));
    } else {
        assert(ts.push(t).drop_first() =~= ts.drop_first().push(t));
        lemma_items_snoc(ts.drop_first(), t);
        assert(render_items(ts.push(t)) =~= render_items(ts) + seq![',', '\n'] + render_task(t));
    }
}

/// Appends one lowercase hex digit.
fn push_hex_nibble(out: &mut String, d: u32)
    requires
        d < 16,
    ensures
        final(out)@ == old(out)@ + seq![hex_digit(d as int)],
{
    if d == 0 {
        out.append("0");
        proof {
            reveal_strlit("0");
            assert("0"@ =~= seq![hex_digit(0)]);
        }
    } else if d == 1 {
        out.append("1");
        proof {
            reveal_strlit("1");
            assert("1"@ =~= seq![hex_digit(1)]);
        }
    } else if d == 2 {
        out.append("2");
        proof {
            reveal_strlit("2");
            assert("2"@ =~= seq![hex_digit(2)]);
        }
    } else if d == 3 {
        out.append("3");
        proof {
            reveal_strlit("3");
            assert("3"@ =~= seq![hex_digit(3)]);
        }
    } else if d == 4 {
        out.append("4");
        proof {
            reveal_strlit("4");
            assert("4"@ =~= seq![hex_digit(4)]);
        }
    } else if d == 5 {
        out.append("5");
        proof {
            reveal_strlit("5");
            assert("5"@ =~= seq![hex_digit(5)]);
        }
    } else if d == 6 {
        out.append("6");
        proof {
            reveal_strlit("6");
            assert("6"@ =~= seq![hex_digit(6)]);
        }
    } else if d == 7 {
        out.append("7");
        proof {
            reveal_strlit("7");
            assert("7"@ =~= seq![hex_digit(7)]);
        }
    } else if d == 8 {
        out.append("8");
        proof {
            reveal_strlit("8");
            assert("8"@ =~= seq![hex_digit(8)]);
        }
    } else if d == 9 {
        out.append("9");
        proof {
            reveal_strlit("9");
            assert("9"@ =~= seq![hex_digit(9)]);
        }
    } else if d == 10 {
        out.append("a");
        proof {
            reveal_strlit("a");
            assert("a"@ =~= seq![hex_digit(10)]);
        }
    } else if d == 11 {
        out.append("b");
        proof {
            reveal_strlit("b");
            assert("b"@ =~= seq![hex_digit(11)]);
        }
    } else if d == 12 {
        out.append("c");
        proof {
            reveal_strlit("c");
            assert("c"@ =~= seq![hex_digit(12)]);
        }
    } else if d == 13 {
        out.append("d");
        proof {
            reveal_strlit("d");
            assert("d"@ =~= seq![hex_digit(13)]);
        }
    } else if d == 14 {
        out.append("e");
        proof {
            reveal_strlit("e");
            assert("e"@ =~= seq![hex_digit(14)]);
        }
    } else {
        out.append("f");
        proof {
            reveal_strlit("f");
            assert("f"@ =~= seq![hex_digit(15)]);
        }
    }
}

/// Appends the escaped form of `s`.
fn push_escaped(out: &mut String, s: &str)
    ensures
        final(out)@ == old(out)@ + escape(s@),
{
    let n = s.unicode_len();
    let mut i: usize = 0;
    proof {
        assert(s@.take(0) =~= Seq::<char>::empty());
        assert(old(out)@ + escape(s@.take(0)) =~= old(out)@);
    }
    while i < n
        invariant
            n == s@.len(),
            i <= n,
            out@ == old(out)@ + escape(s@.take(i as int)),
        decreases n - i,
    {
        let c = s.get_char(i);
        proof {
            assert(s@.take(i + 1) =~= s@.take(i as int).push(c));
            lemma_escape_snoc(s@.take(i as int), c);
        }
        if c == '"' {
            out.append("\\\"");
            proof {
                reveal_strlit("\\\"");
                assert("\\\""@ =~= seq!['\\', '"']);
            }
        } else if c == '\\' {
            out.append("\\\\");
            proof {
                reveal_strlit("\\\\");
                assert("\\\\"@ =~= seq!['\\', '\\']);
            }
        } else if c == '\n' {
            out.append("\\n");
            proof {
                reveal_strlit("\\n");
                assert("\\n"@ =~= seq!['\\', 'n']);
            }
        } else if c == '\r' {
            out.append("\\r");
            proof {
                reveal_strlit("\\r");
                assert("\\r"@ =~= seq!['\\', 'r']);
            }
        } else if c == '\t' {
            out.append("\\t");
            proof {
                reveal_strlit("\\t");
                assert("\\t"@ =~= seq!['\\', 't']);
            }
        } else if (c as u32) < 32 {
            out.append("\\u00");
            push_hex_nibble(out, (c as u32) / 16);
            push_hex_nibble(out, (c as u32) % 16);
            proof {
                reveal_strlit("\\u00");
                assert("\\u00"@ =~= seq!['\\', 'u', '0', '0']);
                assert(out@ =~= old(out)@ + escape(s@.take(i as int)) + esc_char(c));
            }
        } else {
            let piece = s.substring_char(i, i + 1);
            out.append(piece);
            proof {
                assert(piece@ =~= seq![c]);
                assert(esc_char(c) == seq![c]);
            }
        }
        proof {
            assert(out@ =~= old(out)@ + escape(s@.take(i + 1)));
        }
        i = i + 1;
    }
    proof {
        assert(s@.take(n as int) =~= s@);
    }
}

/// Appends the decimal form of `n`.
pub(crate) fn push_dec(out: &mut String, n: u32)
    ensures
        final(out)@ == old(out)@ + dec_rep(n as int),
    decreases n,
{
    if n >= 10 {
        push_dec(out, n / 10);
    }
    let d = n % 10;
    if d == 0 {
        out.append("0");
        proof {
            reveal_strlit("0");
            assert("0"@ =~= seq![digit_char(d as int)]);
        }
    } else if d == 1 {
        out.append("1");
        proof {
            reveal_strlit("1");
            assert("1"@ =~= seq![digit_char(d as int)]);
        }
    } else if d == 2 {
        out.append("2");
        proof {
            reveal_strlit("2");
            assert("2"@ =~= seq![digit_char(d as int)]);
        }
    } else if d == 3 {
        out.append("3");
        proof {
            reveal_strlit("3");
            assert("3"@ =~= seq![digit_char(d as int)]);
        }
    } else if d == 4 {
        out.append("4");
        proof {
            reveal_strlit("4");
            assert("4"@ =~= seq![digit_char(d as int)]);
        }
    } else if d == 5 {
        out.append("5");
        proof {
            reveal_strlit("5");
            assert("5"@ =~= seq![digit_char(d as int)]);
        }
    } else if d == 6 {
        out.append("6");
        proof {
            reveal_strlit("6");
            assert("6"@ =~= seq![digit_char(d as int)]);
        }
    } else if d == 7 {
        out.append("7");
        proof {
            reveal_strlit("7");
            assert("7"@ =~= seq![digit_char(d as int)]);
        }
    } else if d == 8 {
        out.append("8");
        proof {
            reveal_strlit("8");
            assert("8"@ =~= seq![digit_char(d as int)]);
        }
    } else {
        out.append("9");
        proof {
            reveal_strlit("9");
            assert("9"@ =~= seq![digit_char(d as int)]);
        }
    }
    proof {
        if n <= 9 {
            assert(dec_rep(n as int) == seq![digit_char(n as int)]);
            assert(out@ =~= old(out)@ + dec_rep(n as int));
        } else {
            assert(dec_rep(n as int) == dec_rep(n as int / 10).push(digit_char(n as int % 10)));
            assert(out@ =~= old(out)@ + dec_rep(n as int));
        }
    }
}

/// Appends one task object.
fn push_task(out: &mut String, t: &Task)
    ensures
        final(out)@ == old(out)@ + render_task(t@),
{
    out.append("{\"id\":\"");
    push_escaped(out, t.id.as_str());
    out.append("\",\"index\":");
    push_dec(out, t.index);
    out.append(",\"title\":\"");
    push_escaped(out, t.title.as_str());
    out.append("\",\"is_complited\":");
    if t.is_complete {
        out.append("true");
    } else {
        out.append("false");
    }
    out.append(",\"created_at\":\"");
    push_escaped(out, t.created_at.as_str());
    out.append("\"}");
    proof {
        reveal_strlit("\"}");
        assert("\"}"@ =~= seq!['"', '}']);
        assert(out@ =~= old(out)@ + render_task(t@));
    }
}

/// Renders the whole collection as the store document.
pub fn encode_store(list: &TodoList) -> (r: String)
    ensures
        r@ == render_doc(list@),
{
    let tasks = list.tasks();
    let ghost tv = list@;
    let mut out = String::new();
    if tasks.len() == 0 {
        out.append("[]");
        proof {
            reveal_strlit("[]");
            assert("[]"@ =~= seq!['[', ']']);
            assert(out@ =~= render_doc(tv));
        }
        return out;
    }
    out.append("[\n");
    let mut i: usize = 0;
    proof {
        reveal_strlit("[\n");
        assert("[\n"@ =~= seq!['[', '\n']);
        assert(render_items(tv.take(0)) =~= Seq::<char>::empty());
        assert(out@ =~= seq!['[', '\n'] + render_items(tv.take(0)));
    }
    while i < tasks.len()
        invariant
            tv == tasks@.map_values(|t: Task| t@),
            tv.len() == tasks@.len(),
            tv.len() >= 1,
            i <= tv.len(),
            out@ == seq!['[', '\n'] + render_items(tv.take(i as int)),
        decreases tasks@.len() - i,
    {
        if i > 0 {
            out.append(",\n");
        }
        push_task(&mut out, &tasks[i]);
        proof {
            reveal_strlit(",\n");
            assert(",\n"@ =~= seq![',', '\n']);
            assert((tasks@[i as int])@ == tv[i as int]);
            if i == 0 {
                assert(tv.take(1) =~= seq![tv[0]]);
                assert(render_items(seq![tv[0]]) == render_task(tv[0]));
                assert(out@ =~= seq!['[', '\n'] + render_items(tv.take(i + 1)));
            } else {
                assert(tv.take(i + 1) =~= tv.take(i as int).push(tv[i as int]));
                lemma_items_snoc(tv.take(i as int), tv[i as int]);
                assert(out@ =~= seq!['[', '\n'] + render_items(tv.take(i + 1)));
            }
        }
        i = i + 1;
    }
    out.append("\n]");
    proof {
        reveal_strlit("\n]");
        assert("\n]"@ =~= seq!['\n', ']']);
        assert(tv.take(tv.len() as int) =~= tv);
        assert(out@ =~= render_doc(tv));
    }
    out
}

proof fn lemma_ws_prefix_char(s: Seq<char>, a: int)
    requires
        0 <= a <= s.len(),
        forall|k: int| 0 <= k < a ==> is_uws(#[trigger] s[k]),
        a < s.len() ==> !is_uws(s[a]),
    ensures
        ws_prefix_len(s) == a,
    decreases s.len(),
{
    if a == 0 {
    } else {
        assert(is_uws(s[0]));
        assert(forall|k: int| 0 <= k < s.len() - 1 ==> s.drop_first()[k] == s[k + 1]);
        lemma_ws_prefix_char(s.drop_first(), a - 1);
    }
}

proof fn lemma_ws_suffix_char(s: Seq<char>, b: int)
    requires
        0 <= b <= s.len(),
        forall|k: int| b <= k < s.len() ==> is_uws(#[trigger] s[k]),
        b > 0 ==> !is_uws(s[b - 1]),
    ensures
        ws_suffix_len(s) == s.len() - b,
    decreases s.len(),
{
    if b == s.len() {
    } else {
        assert(is_uws(s.last()));
        assert(forall|k: int| 0 <= k < s.len() - 1 ==> s.drop_last()[k] == s[k]);
        lemma_ws_suffix_char(s.drop_last(), b);
    }
}

/// Checks that `lit` stands at position `i` and steps past it.
fn expect_lit(t: &str, i: usize, lit: &str) -> (r: Result<usize, TodoError>)
    ensures
        match r {
            Ok(j) => {
                &&& parse_lit(t@, i as int, lit@)
                &&& j == i + lit@.len()
                &&& i <= j <= t@.len()
            },
            Err(e) => {
                &&& e == TodoError::Decode
                &&& !parse_lit(t@, i as int, lit@)
            },
        },
{
    let n = t.unicode_len();
    let l = lit.unicode_len();
    if i > n || l > n - i {
        return Err(TodoError::Decode);
    }
    let mut k: usize = 0;
    while k < l
        invariant
            n == t@.len(),
            l == lit@.len(),
            i + l <= n,
            k <= l,
            forall|q: int| 0 <= q < k ==> t@[i + q] == #[trigger] lit@[q],
        decreases l - k,
    {
        let a = t.get_char(i + k);
        let b = lit.get_char(k);
        if a != b {
            proof {
                if parse_lit(t@, i as int, lit@) {
                    assert(t@.subrange(i as int, i + lit@.len() as int)[k as int] == t@[i + k]);
                }
            }
            return Err(TodoError::Decode);
        }
        k = k + 1;
    }
    proof {
        assert(t@.subrange(i as int, i + lit@.len() as int) =~= lit@) by {
            assert forall|q: int|
                0 <= q < lit@.len() implies t@.subrange(i as int, i + lit@.len() as int)[q]
                == lit@[q] by {
                assert(t@.subrange(i as int, i + lit@.len() as int)[q] == t@[i + q]);
            }
        }
    }
    Ok(i + l)
}

/// Relies on std's char::from_u32: Some exactly for a unicode scalar
/// value (below the surrogate range or above it, up to 0x10FFFF), and
/// the returned character carries that code point.
pub assume_specification[ char::from_u32 ](v: u32) -> (r: Option<char>)
    ensures
        (r is Some) <==> (v < 0xD800 || (0xE000 <= v && v <= 0x10FFFF)),
        r is Some ==> r->0 as u32 == v,
;

/// Relies on std's FromIterator for String: collecting characters
/// yields the string of exactly those characters, in order.
#[verifier::external_body]
fn string_from_chars(v: &Vec<char>) -> (r: String)
    ensures
        r@ == v@,
{
    v.iter().collect()
}

/// Steps past JSON whitespace.
fn skip_ws_at(t: &str, i: usize) -> (j: usize)
    requires
        i <= t@.len(),
    ensures
        j == skip_ws(t@, i as int),
        i <= j <= t@.len(),
{
    let n = t.unicode_len();
    let mut j = i;
    while j < n
        invariant
            n == t@.len(),
            i <= j <= n,
            skip_ws(t@, i as int) == skip_ws(t@, j as int),
        ensures
            i <= j <= n,
            skip_ws(t@, i as int) == skip_ws(t@, j as int),
            j == n || !is_ws(t@[j as int]),
        decreases n - j,
    {
        let c = t.get_char(j);
        if !(c == ' ' || c == '\t' || c == '\n' || c == '\r') {
            break ;
        }
        j = j + 1;
    }
    proof {
        assert(skip_ws(t@, j as int) == j);
    }
    j
}

/// Checks for one literal character.
fn expect_char(t: &str, i: usize, c: char) -> (r: Result<usize, TodoError>)
    ensures
        match r {
            Ok(j) => {
                &&& i < t@.len()
                &&& t@[i as int] == c
                &&& j == i + 1
            },
            Err(e) => {
                &&& e == TodoError::Decode
                &&& !(i < t@.len() && t@[i as int] == c)
            },
        },
{
    let n = t.unicode_len();
    if i < n {
        let ch = t.get_char(i);
        if ch == c {
            return Ok(i + 1);
        }
    }
    Err(TodoError::Decode)
}

/// One hex digit's value.
fn hex_digit_at(c: char) -> (r: Option<u32>)
    ensures
        (r is Some) <==> is_hex(c),
        r is Some ==> r->0 == hex_val(c) && r->0 < 16,
{
    if c >= '0' && c <= '9' {
        Some((c as u32) - ('0' as u32))
    } else if c >= 'a' && c <= 'f' {
        Some(10 + (c as u32) - ('a' as u32))
    } else if c >= 'A' && c <= 'F' {
        Some(10 + (c as u32) - ('A' as u32))
    } else {
        None
    }
}

/// Reads a quoted string body from `i` up to its closing quote.
fn parse_string_at(t: &str, i: usize) -> (r: Result<(String, usize), TodoError>)
    ensures
        match r {
            Ok(p) => {
                &&& parse_string_from(t@, i as int, Seq::empty()) == Some((p.0@, p.1 as int))
                &&& i < p.1 <= t@.len()
            },
            Err(e) => {
                &&& e == TodoError::Decode
                &&& parse_string_from(t@, i as int, Seq::empty()) is None
            },
        },
{
    let n = t.unicode_len();
    let mut out: Vec<char> = Vec::new();
    let mut j = i;
    loop
        invariant
            n == t@.len(),
            i <= j,
            parse_string_from(t@, i as int, Seq::empty()) == parse_string_from(
                t@,
                j as int,
                out@,
            ),
        decreases n - j,
    {
        if j >= n {
            return Err(TodoError::Decode);
        }
        let c = t.get_char(j);
        if c == '"' {
            let done = string_from_chars(&out);
            return Ok((done, j + 1));
        } else if c == '\\' {
            if j + 1 >= n {
                return Err(TodoError::Decode);
            }
            let c2 = t.get_char(j + 1);
            if c2 == 'u' {
                if n - j < 6 {
                    return Err(TodoError::Decode);
                }
                let h1 = match hex_digit_at(t.get_char(j + 2)) {
                    Some(h) => h,
                    None => {
                        return Err(TodoError::Decode);
                    },
                };
                let h2 = match hex_digit_at(t.get_char(j + 3)) {
                    Some(h) => h,
                    None => {
                        return Err(TodoError::Decode);
                    },
                };
                let h3 = match hex_digit_at(t.get_char(j + 4)) {
                    Some(h) => h,
                    None => {
                        return Err(TodoError::Decode);
                    },
                };
                let h4 = match hex_digit_at(t.get_char(j + 5)) {
                    Some(h) => h,
                    None => {
                        return Err(TodoError::Decode);
                    },
                };
                let v = ((h1 * 16 + h2) * 16 + h3) * 16 + h4;
                match char::from_u32(v) {
                    Some(ch) => {
                        proof {
                            lemma_char_of(ch);
                            assert(valid_bmp(v as int));
                            assert(char_of(v as int) == ch);
                        }
                        out.push(ch);
                        j = j + 6;
                    },
                    None => {
                        proof {
                            assert(!valid_bmp(v as int));
                        }
                        return Err(TodoError::Decode);
                    },
                }
            } else {
                if c2 == '"' {
                    out.push('"');
                } else if c2 == '\\' {
                    out.push('\\');
                } else if c2 == '/' {
                    out.push('/');
                } else if c2 == 'n' {
                    out.push('\n');
                } else if c2 == 'r' {
                    out.push('\r');
                } else if c2 == 't' {
                    out.push('\t');
                } else if c2 == 'b' {
                    out.push('\u{8}');
                } else if c2 == 'f' {
                    out.push('\u{c}');
                } else {
                    proof {
                        assert(unesc_char(c2) is None);
                    }
                    return Err(TodoError::Decode);
                }
                j = j + 2;
            }
        } else {
            out.push(c);
            j = j + 1;
        }
    }
}

/// Reads a decimal number at `i`: at least one digit, no leading zero,
/// at most u32::MAX.
fn parse_number_at(t: &str, i: usize) -> (r: Result<(u32, usize), TodoError>)
    ensures
        match r {
            Ok(p) => {
                &&& parse_number(t@, i as int) == Some((p.0 as int, p.1 as int))
                &&& i < p.1 <= t@.len()
            },
            Err(e) => {
                &&& e == TodoError::Decode
                &&& parse_number(t@, i as int) is None
            },
        },
{
    let n = t.unicode_len();
    if i >= n {
        return Err(TodoError::Decode);
    }
    let c0 = t.get_char(i);
    if !(c0 >= '0' && c0 <= '9') {
        return Err(TodoError::Decode);
    }
    if c0 == '0' {
        return Ok((0, i + 1));
    }
    let mut acc: u64 = 0;
    let mut j = i;
    while j < n
        invariant
            n == t@.len(),
            i <= j <= n,
            i < n,
            is_digit(t@[i as int]),
            t@[i as int] != '0',
            acc <= u32::MAX,
            parse_number_from(t@, i as int, 0) == parse_number_from(t@, j as int, acc as int),
            j == i ==> acc == 0,
        ensures
            i <= j <= n,
            acc <= u32::MAX,
            parse_number_from(t@, i as int, 0) == parse_number_from(t@, j as int, acc as int),
            j == n || !is_digit(t@[j as int]),
            j == i ==> acc == 0,
        decreases n - j,
    {
        let c = t.get_char(j);
        if !(c >= '0' && c <= '9') {
            break ;
        }
        let d = (c as u32) - ('0' as u32);
        let next = acc * 10 + (d as u64);
        if next > (u32::MAX as u64) {
            return Err(TodoError::Decode);
        }
        acc = next;
        j = j + 1;
    }
    proof {
        assert(j > i);
    }
    Ok((acc as u32, j))
}

fn parse_bool_at(t: &str, i: usize) -> (r: Result<(bool, usize), TodoError>)
    ensures
        match r {
            Ok(p) => {
                &&& parse_bool(t@, i as int) == Some((p.0, p.1 as int))
                &&& i < p.1 <= t@.len()
            },
            Err(e) => {
                &&& e == TodoError::Decode
                &&& parse_bool(t@, i as int) is None
            },
        },
{
    proof {
        reveal_strlit("true");
        reveal_strlit("false");
    }
    match expect_lit(t, i, "true") {
        Ok(j) => Ok((true, j)),
        Err(_) => match expect_lit(t, i, "false") {
            Ok(j) => Ok((false, j)),
            Err(e) => Err(e),
        },
    }
}

/// Reads one task object at `i`.
#[verifier::rlimit(100)]
fn parse_task_at(t: &str, i: usize) -> (r: Result<(Task, usize), TodoError>)
    requires
        i <= t@.len(),
    ensures
        match r {
            Ok(p) => {
                &&& parse_task(t@, i as int) == Some((p.0@, p.1 as int))
                &&& i < p.1 <= t@.len()
            },
            Err(e) => {
                &&& e == TodoError::Decode
                &&& parse_task(t@, i as int) is None
            },
        },
{
    let a0 = skip_ws_at(t, i);
    let a1 = match expect_char(t, a0, '{') {
        Ok(j) => j,
        Err(e) => {
            return Err(e);
        },
    };
    let k1 = skip_ws_at(t, a1);
    let k1e = match expect_lit(t, k1, "\"id\"") {
        Ok(j) => j,
        Err(e) => {
            return Err(e);
        },
    };
    let c1 = skip_ws_at(t, k1e);
    let c1e = match expect_char(t, c1, ':') {
        Ok(j) => j,
        Err(e) => {
            return Err(e);
        },
    };
    let q1 = skip_ws_at(t, c1e);
    let q1e = match expect_char(t, q1, '"') {
        Ok(j) => j,
        Err(e) => {
            return Err(e);
        },
    };
    let (id, j1) = match parse_string_at(t, q1e) {
        Ok(p) => p,
        Err(e) => {
            return Err(e);
        },
    };
    let m1 = skip_ws_at(t, j1);
    let m1e = match expect_char(t, m1, ',') {
        Ok(j) => j,
        Err(e) => {
            return Err(e);
        },
    };
    let k2 = skip_ws_at(t, m1e);
    let k2e = match expect_lit(t, k2, "\"index\"") {
        Ok(j) => j,
        Err(e) => {
            return Err(e);
        },
    };
    let c2 = skip_ws_at(t, k2e);
    let c2e = match expect_char(t, c2, ':') {
        Ok(j) => j,
        Err(e) => {
            return Err(e);
        },
    };
    let v2 = skip_ws_at(t, c2e);
    let (idx, j2) = match parse_number_at(t, v2) {
        Ok(p) => p,
        Err(e) => {
            return Err(e);
        },
    };
    let m2 = skip_ws_at(t, j2);
    let m2e = match expect_char(t, m2, ',') {
        Ok(j) => j,
        Err(e) => {
            return Err(e);
        },
    };
    let k3 = skip_ws_at(t, m2e);
    let k3e = match expect_lit(t, k3, "\"title\"") {
        Ok(j) => j,
        Err(e) => {
            return Err(e);
        },
    };
    let c3 = skip_ws_at(t, k3e);
    let c3e = match expect_char(t, c3, ':') {
        Ok(j) => j,
        Err(e) => {
            return Err(e);
        },
    };
    let q3 = skip_ws_at(t, c3e);
    let q3e = match expect_char(t, q3, '"') {
        Ok(j) => j,
        Err(e) => {
            return Err(e);
        },
    };
    let (title, j3) = match parse_string_at(t, q3e) {
        Ok(p) => p,
        Err(e) => {
            return Err(e);
        },
    };
    let m3 = skip_ws_at(t, j3);
    let m3e = match expect_char(t, m3, ',') {
        Ok(j) => j,
        Err(e) => {
            return Err(e);
        },
    };
    let k4 = skip_ws_at(t, m3e);
    let k4e = match expect_lit(t, k4, "\"is_complited\"") {
        Ok(j) => j,
        Err(e) => {
            return Err(e);
        },
    };
    let c4 = skip_ws_at(t, k4e);
    let c4e = match expect_char(t, c4, ':') {
        Ok(j) => j,
        Err(e) => {
            return Err(e);
        },
    };
    let vb = skip_ws_at(t, c4e);
    let (done, j4) = match parse_bool_at(t, vb) {
        Ok(p) => p,
        Err(e) => {
            return Err(e);
        },
    };
    let m4 = skip_ws_at(t, j4);
    let m4e = match expect_char(t, m4, ',') {
        Ok(j) => j,
        Err(e) => {
            return Err(e);
        },
    };
    let k5 = skip_ws_at(t, m4e);
    let k5e = match expect_lit(t, k5, "\"created_at\"") {
        Ok(j) => j,
        Err(e) => {
            return Err(e);
        },
    };
    let c5 = skip_ws_at(t, k5e);
    let c5e = match expect_char(t, c5, ':') {
        Ok(j) => j,
        Err(e) => {
            return Err(e);
        },
    };
    let q5 = skip_ws_at(t, c5e);
    let q5e = match expect_char(t, q5, '"') {
        Ok(j) => j,
        Err(e) => {
            return Err(e);
        },
    };
    let (created, j5) = match parse_string_at(t, q5e) {
        Ok(p) => p,
        Err(e) => {
            return Err(e);
        },
    };
    let m5 = skip_ws_at(t, j5);
    let m5e = match expect_char(t, m5, '}') {
        Ok(j) => j,
        Err(e) => {
            return Err(e);
        },
    };
    let task = Task { id, index: idx, title, is_complete: done, created_at: created };
    Ok((task, m5e))
}

/// Unicode whitespace, as the trim of the store file removes.
fn is_unicode_ws(c: char) -> (b: bool)
    ensures
        b == is_uws(c),
{
    c == ' ' || c == '\t' || c == '\n' || c == '\r' || c == '\u{b}' || c == '\u{c}' || c
        == '\u{85}' || c == '\u{a0}' || c == '\u{1680}' || ('\u{2000}' <= c && c <= '\u{200a}')
        || c == '\u{2028}' || c == '\u{2029}' || c == '\u{202f}' || c == '\u{205f}' || c
        == '\u{3000}'
}

/// Decodes the store file's contents: a blank file is the empty
/// collection; anything else must be a well-formed store document.
pub fn decode_store(s: &str) -> (r: Result<TodoList, TodoError>)
    ensures
        match r {
            Ok(list) => if is_blank(s@) {
                list@ == Seq::<TaskView>::empty()
            } else {
                parse_doc(trim(s@)) == Some(list@)
            },
            Err(e) => {
                &&& e == TodoError::Decode
                &&& !is_blank(s@)
                &&& parse_doc(trim(s@)) is None
            },
        },
{
    let n = s.unicode_len();
    let mut a: usize = 0;
    while a < n
        invariant
            n == s@.len(),
            a <= n,
            forall|k: int| 0 <= k < a ==> is_uws(#[trigger] s@[k]),
        ensures
            a <= n,
            forall|k: int| 0 <= k < a ==> is_uws(#[trigger] s@[k]),
            a == n || !is_uws(s@[a as int]),
        decreases n - a,
    {
        let c = s.get_char(a);
        if !is_unicode_ws(c) {
            break ;
        }
        a = a + 1;
    }
    if a == n {
        proof {
            assert(is_blank(s@));
        }
        return Ok(TodoList::new());
    }
    proof {
        assert(!is_uws(s@[a as int]));
        assert(!is_blank(s@));
        lemma_ws_prefix_char(s@, a as int);
    }
    let mut b: usize = n;
    while b > a
        invariant
            n == s@.len(),
            a < n,
            a <= b <= n,
            !is_uws(s@[a as int]),
            forall|k: int| b <= k < n ==> is_uws(#[trigger] s@[k]),
        ensures
            a <= b <= n,
            forall|k: int| b <= k < n ==> is_uws(#[trigger] s@[k]),
            b == a || !is_uws(s@[b - 1]),
        decreases b,
    {
        let c = s.get_char(b - 1);
        if !is_unicode_ws(c) {
            break ;
        }
        b = b - 1;
    }
    proof {
        if b == a {
            assert(is_uws(s@[a as int]));
        }
        assert(b > a);
        assert(!is_uws(s@[b - 1]));
        lemma_ws_suffix_char(s@, b as int);
        assert(trim(s@) == s@.subrange(a as int, b as int));
    }
    let t = s.substring_char(a, b);
    let ghost tv = trim(s@);
    proof {
        assert(t@ == tv);
    }
    let m = t.unicode_len();
    let a2 = skip_ws_at(t, 0);
    let a3 = match expect_char(t, a2, '[') {
        Ok(j) => j,
        Err(_) => {
            return Err(TodoError::Decode);
        },
    };
    let b2 = skip_ws_at(t, a3);
    if b2 < m && t.get_char(b2) == ']' {
        let e2 = skip_ws_at(t, b2 + 1);
        if e2 == m {
            return Ok(TodoList::new());
        }
        return Err(TodoError::Decode);
    }
    let mut acc: Vec<Task> = Vec::new();
    let mut i2: usize = a3;
    proof {
        assert(acc@.map_values(|x: Task| x@) =~= Seq::<TaskView>::empty());
    }
    loop
        invariant
            m == tv.len(),
            tv == t@,
            trim(s@) == tv,
            !is_blank(s@),
            skip_ws(tv, 0) == a2,
            a2 < m,
            tv[a2 as int] == '[',
            a3 == a2 + 1,
            skip_ws(tv, a3 as int) == b2,
            !(b2 < m && tv[b2 as int] == ']'),
            a3 <= i2 <= m,
            parse_items(tv, a3 as int, Seq::empty()) == parse_items(
                tv,
                i2 as int,
                acc@.map_values(|x: Task| x@),
            ),
        decreases m - i2,
    {
        let ghost accv = acc@.map_values(|x: Task| x@);
        let (task, j) = match parse_task_at(t, i2) {
            Ok(p) => p,
            Err(_) => {
                return Err(TodoError::Decode);
            },
        };
        let mm = skip_ws_at(t, j);
        if mm < m {
            let cj = t.get_char(mm);
            if cj == ',' {
                acc.push(task);
                proof {
                    assert(acc@.map_values(|x: Task| x@) =~= accv.push(task@));
                }
                i2 = mm + 1;
            } else if cj == ']' {
                acc.push(task);
                let e3 = skip_ws_at(t, mm + 1);
                if e3 == m {
                    proof {
                        assert(acc@.map_values(|x: Task| x@) =~= accv.push(task@));
                        assert(parse_items(tv, a3 as int, Seq::empty()) == Some(
                            (accv.push(task@), (mm + 1) as int),
                        ));
                    }
                    let list = TodoList::from_tasks(acc);
                    return Ok(list);
                }
                return Err(TodoError::Decode);
            } else {
                return Err(TodoError::Decode);
            }
        } else {
            return Err(TodoError::Decode);
        }
    }
}

/// Persistence round trip: a rendered store document is not blank, is
/// unchanged by trimming, and parses back to exactly the tasks it was
/// rendered from.
#[verifier::rlimit(100)]
#[verifier::spinoff_prover]
proof fn lemma_doc_shape(ts: Seq<TaskView>)
    requires
        ts.len() >= 1,
    ensures
        render_doc(ts).len() == 1 + 1 + render_items(ts).len() + 2,
        render_items(ts).len() >= 7,
        render_doc(ts)[0] == '[',
        render_doc(ts)[1] == '\n',
        render_doc(ts)[2] == '{',
        render_doc(ts).subrange(2, render_doc(ts).len() as int) == render_items(ts) + seq![
            '\n',
            ']',
        ],
    decreases 0int,
{
    reveal_strlit("{\"id\":\"");
    let s = render_doc(ts);
    assert(render_task(ts[0]).len() >= lit_obj_open().len());
    if ts.len() == 1 {
        assert(render_items(ts) == render_task(ts[0]));
    } else {
        assert(render_items(ts) == render_task(ts[0]) + seq![',', '\n'] + render_items(
            ts.drop_first(),
        ));
    }
    assert(render_items(ts).len() >= 7);
    assert(s[0] == '[' && s[1] == '\n');
    assert(s.subrange(2, s.len() as int) =~= render_items(ts) + seq!['\n', ']']) by {
        assert forall|k: int|
            0 <= k < s.len() - 2 implies s.subrange(2, s.len() as int)[k] == (render_items(ts)
            + seq!['\n', ']'])[k] by {
            assert(s.subrange(2, s.len() as int)[k] == s[2 + k]);
            assert(s[2 + k] == (seq!['[', '\n'] + render_items(ts) + seq!['\n', ']'])[2 + k]);
        }
    }
    assert(s[2] == '{') by {
        assert(s.subrange(2, s.len() as int)[0] == s[2]);
        assert((render_items(ts) + seq!['\n', ']'])[0] == render_items(ts)[0]);
        assert(render_items(ts)[0] == render_task(ts[0])[0]);
        assert(render_task(ts[0])[0] == lit_obj_open()[0]);
    }
}

#[verifier::rlimit(100)]
#[verifier::spinoff_prover]
proof fn lemma_round_trip_nonempty(ts: Seq<TaskView>)
    requires
        ts.len() >= 1,
    ensures
        parse_doc(render_doc(ts)) == Some(ts),
    decreases 0int,
{
    let s = render_doc(ts);
    lemma_doc_shape(ts);
    assert(!is_ws(s[0]));
    assert(skip_ws(s, 0) == 0);
    assert(is_ws(s[1]) && !is_ws(s[2]));
    assert(skip_ws(s, 2) == 2);
    assert(skip_ws(s, 1) == 2);
    assert(s[2] != ']');
    lemma_parse_items_render(s, 1, Seq::empty(), ts);
    assert(parse_items(s, 1, Seq::empty()) == Some((Seq::empty() + ts, s.len() as int)));
    assert(skip_ws(s, s.len() as int) == s.len());
    assert(Seq::empty() + ts =~= ts);
    assert(parse_doc(s) == Some(ts));
}

#[verifier::spinoff_prover]
proof fn lemma_round_trip_trim(ts: Seq<TaskView>)
    ensures
        !is_blank(render_doc(ts)),
        trim(render_doc(ts)) == render_doc(ts),
    decreases 0int,
{
    let s = render_doc(ts);
    if ts.len() == 0 {
        assert(s == seq!['[', ']']);
    } else {
        reveal_strlit("{\"id\":\"");
        if ts.len() == 1 {
            assert(render_items(ts) == render_task(ts[0]));
        } else {
            assert(render_items(ts) == render_task(ts[0]) + seq![',', '\n'] + render_items(
                ts.drop_first(),
            ));
        }
        assert(render_items(ts).len() >= 7);
        assert(s.len() > 2);
    }
    assert(s[0] == '[');
    assert(s.last() == ']');
    assert(!is_uws(s[0]));
    assert(ws_prefix_len(s) == 0);
    assert(!is_uws(s.last()));
    assert(ws_suffix_len(s) == 0);
    assert(trim(s) =~= s);
}

/// Persistence round trip: a rendered store document is not blank, is
/// unchanged by trimming, and parses back to exactly the tasks it was
/// rendered from.
pub proof fn lemma_store_round_trip(ts: Seq<TaskView>)
    ensures
        !is_blank(render_doc(ts)),
        trim(render_doc(ts)) == render_doc(ts),
        parse_doc(render_doc(ts)) == Some(ts),
{
    let s = render_doc(ts);
    lemma_round_trip_trim(ts);
    if ts.len() == 0 {
        assert(s == seq!['[', ']']);
        assert(s[0] == '[' && s[1] == ']');
        assert(!is_ws(s[0]) && !is_ws(s[1]));
        assert(skip_ws(s, 0) == 0);
        assert(skip_ws(s, 1) == 1);
        assert(skip_ws(s, 2) == 2);
        assert(Seq::<TaskView>::empty() =~= ts);
        assert(parse_doc(s) == Some(ts));
    } else {
        lemma_round_trip_nonempty(ts);
    }
}

} // verus!
