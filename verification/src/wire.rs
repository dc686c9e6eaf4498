//! The JSON wire format of a change event.
//!
//! One event travels as a single JSON object:
//! `{"timestamp": string, "table": string, "action": "INSERT"|"UPDATE"|"DELETE",
//!   "id": string, "record": string, "old": string|null}`.
//! Unknown extra members are ignored; a missing or ill-typed required member
//! makes the whole payload malformed. The encoder writes the members in the
//! order above and escapes text the way the decoder reads it back.

use vstd::prelude::*;
use vstd::string::StrSliceExecFns;

use crate::event::Action;
use crate::event::Payload;
use crate::event::PayloadView;

verus! {

// ---------------------------------------------------------------------------
// Character classes
// ---------------------------------------------------------------------------

/// JSON insignificant whitespace.
pub open spec fn is_ws(c: char) -> bool {
    c == ' ' || c == '\t' || c == '\n' || c == '\r'
}

pub open spec fn is_digit(c: char) -> bool {
    '0' <= c && c <= '9'
}

pub open spec fn is_hex(c: char) -> bool {
    is_digit(c) || ('a' <= c && c <= 'f') || ('A' <= c && c <= 'F')
}

/// Numeric value of one hex digit.
pub open spec fn hex_val(c: char) -> int {
    if is_digit(c) {
        (c as u32) - ('0' as u32)
    } else if 'a' <= c && c <= 'f' {
        (c as u32) - ('a' as u32) + 10
    } else {
        (c as u32) - ('A' as u32) + 10
    }
}

/// Lowercase hex digit for a value below 16.
pub open spec fn hex_digit(n: u32) -> char {
    if n == 0 { '0' } else if n == 1 { '1' } else if n == 2 { '2' } else if n == 3 { '3' }
    else if n == 4 { '4' } else if n == 5 { '5' } else if n == 6 { '6' } else if n == 7 { '7' }
    else if n == 8 { '8' } else if n == 9 { '9' } else if n == 10 { 'a' } else if n == 11 { 'b' }
    else if n == 12 { 'c' } else if n == 13 { 'd' } else if n == 14 { 'e' } else { 'f' }
}

// ---------------------------------------------------------------------------
// Encoding
// ---------------------------------------------------------------------------

/// How one character appears inside a JSON string literal: the quote and the
/// backslash take a two-character escape, the five named control characters
/// take theirs, every other control character takes a `\u00XX` escape, and
/// everything else stands for itself.
pub open spec fn escape_char(c: char) -> Seq<char> {
    if c == '"' {
        seq!['\\', '"']
    } else if c == '\\' {
        seq!['\\', '\\']
    } else if c == '\u{8}' {
        seq!['\\', 'b']
    } else if c == '\u{c}' {
        seq!['\\', 'f']
    } else if c == '\n' {
        seq!['\\', 'n']
    } else if c == '\r' {
        seq!['\\', 'r']
    } else if c == '\t' {
        seq!['\\', 't']
    } else if (c as u32) < 0x20 {
        seq!['\\', 'u', '0', '0', hex_digit((c as u32) / 16), hex_digit((c as u32) % 16)]
    } else {
        seq![c]
    }
}

/// A whole text escaped character by character.
pub open spec fn escape_seq(s: Seq<char>) -> Seq<char>
    decreases s.len(),
{
    if s.len() == 0 {
        Seq::empty()
    } else {
        escape_char(s[0]) + escape_seq(s.drop_first())
    }
}

/// A JSON string literal: quotes around the escaped text.
pub open spec fn json_string(s: Seq<char>) -> Seq<char> {
    seq!['"'] + escape_seq(s) + seq!['"']
}

/// The wire spelling of an action.
pub open spec fn action_chars(a: Action) -> Seq<char> {
    match a {
        Action::INSERT => "INSERT"@,
        Action::UPDATE => "UPDATE"@,
        Action::DELETE => "DELETE"@,
    }
}

/// The full wire text of one change event.
pub open spec fn json_of(p: PayloadView) -> Seq<char> {
    "{\"timestamp\":"@ + json_string(p.timestamp)
        + ",\"table\":"@ + json_string(p.table)
        + ",\"action\":"@ + json_string(action_chars(p.action))
        + ",\"id\":"@ + json_string(p.id)
        + ",\"record\":"@ + json_string(p.record)
        + ",\"old\":"@ + (match p.old {
            Some(s) => json_string(s),
            None => "null"@,
        })
        + "}"@
}

// ---------------------------------------------------------------------------
// Encoder
// ---------------------------------------------------------------------------

/// Collects the characters of a text into a vector.
pub fn chars_vec(s: &str) -> (v: Vec<char>)
    ensures
        v@ == s@,
{
    let n = s.unicode_len();
    let mut v: Vec<char> = Vec::new();
    let mut i: usize = 0;
    while i < n
        invariant
            n == s@.len(),
            i <= n,
            v@ == s@.take(i as int),
        decreases n - i,
    {
        let c = s.get_char(i);
        v.push(c);
        proof {
            assert(v@ =~= s@.take(i + 1 as int));
        }
        i = i + 1;
    }
    proof {
        assert(s@.take(n as int) =~= s@);
    }
    v
}

/// Turns a vector of characters back into an owned string.
///
/// Relies on `String`'s `FromIterator` implementation over `char`: collecting
/// the characters of the vector yields the string whose characters they are.
#[verifier::external_body]
fn string_from_chars(v: &Vec<char>) -> (s: String)
    ensures
        s@ == v@,
{
    v.iter().collect()
}

/// Appends the characters of a literal to the output.
fn push_str_chars(out: &mut Vec<char>, s: &str)
    ensures
        final(out)@ == old(out)@ + s@,
{
    let cs = chars_vec(s);
    out.extend_from_slice(cs.as_slice());
    proof {
        assert(out@ =~= old(out)@ + s@);
    }
}

proof fn lemma_escape_push(s: Seq<char>, c: char)
    ensures
        escape_seq(s.push(c)) == escape_seq(s) + escape_char(c),
    decreases s.len(),
{
    if s.len() == 0 {
        assert(s.push(c).drop_first() =~= s);
        assert(s.push(c)[0] == c);
        assert(escape_seq(s) =~= Seq::<char>::empty());
        assert(escape_seq(s.push(c)) =~= escape_char(c) + escape_seq(s));
        assert(escape_seq(s.push(c)) =~= escape_char(c));
        assert(escape_seq(s) + escape_char(c) =~= escape_char(c));
    } else {
        assert(s.push(c).drop_first() =~= s.drop_first().push(c));
        lemma_escape_push(s.drop_first(), c);
        assert(escape_seq(s.push(c)) =~= escape_seq(s) + escape_char(c));
    }
}

/// Appends one character in its escaped spelling.
fn push_escaped(out: &mut Vec<char>, c: char)
    ensures
        final(out)@ == old(out)@ + escape_char(c),
{
    if c == '"' {
        out.push('\\');
        out.push('"');
    } else if c == '\\' {
        out.push('\\');
        out.push('\\');
    } else if c == '\u{8}' {
        out.push('\\');
        out.push('b');
    } else if c == '\u{c}' {
        out.push('\\');
        out.push('f');
    } else if c == '\n' {
        out.push('\\');
        out.push('n');
    } else if c == '\r' {
        out.push('\\');
        out.push('r');
    } else if c == '\t' {
        out.push('\\');
        out.push('t');
    } else if (c as u32) < 0x20 {
        out.push('\\');
        out.push('u');
        out.push('0');
        out.push('0');
        out.push(hex_digit_exec((c as u32) / 16));
        out.push(hex_digit_exec((c as u32) % 16));
    } else {
        out.push(c);
    }
    proof {
        assert(out@ =~= old(out)@ + escape_char(c));
    }
}

/// Lowercase hex digit for a value below 16.
fn hex_digit_exec(n: u32) -> (c: char)
    requires
        n < 16,
    ensures
        c == hex_digit(n),
{
    if n == 0 { '0' } else if n == 1 { '1' } else if n == 2 { '2' } else if n == 3 { '3' }
    else if n == 4 { '4' } else if n == 5 { '5' } else if n == 6 { '6' } else if n == 7 { '7' }
    else if n == 8 { '8' } else if n == 9 { '9' } else if n == 10 { 'a' } else if n == 11 { 'b' }
    else if n == 12 { 'c' } else if n == 13 { 'd' } else if n == 14 { 'e' } else { 'f' }
}

/// Appends a JSON string literal for the given text.
fn push_json_string(out: &mut Vec<char>, s: &str)
    ensures
        final(out)@ == old(out)@ + json_string(s@),
{
    let cs = chars_vec(s);
    out.push('"');
    let n = cs.len();
    let mut i: usize = 0;
    while i < n
        invariant
            n == cs.len(),
            i <= n,
            cs@ == s@,
            out@ == old(out)@ + seq!['"'] + escape_seq(s@.take(i as int)),
        decreases n - i,
    {
        let c = cs[i];
        push_escaped(out, c);
        proof {
            assert(s@.take(i + 1 as int) =~= s@.take(i as int).push(s@[i as int]));
            lemma_escape_push(s@.take(i as int), s@[i as int]);
        }
        i = i + 1;
    }
    out.push('"');
    proof {
        assert(s@.take(n as int) =~= s@);
        assert(out@ =~= old(out)@ + json_string(s@));
    }
}

/// The wire spelling of an action.
pub fn action_str(a: &Action) -> (s: &'static str)
    ensures
        s@ == action_chars(*a),
{
    match a {
        Action::INSERT => "INSERT",
        Action::UPDATE => "UPDATE",
        Action::DELETE => "DELETE",
    }
}

/// Serializes one change event to its wire text.
///
/// The result is exactly [`json_of`] applied to the event's value, so one
/// event has one wire spelling, shared by every subscriber it is sent to.
pub fn encode_payload(p: &Payload) -> (s: String)
    ensures
        s@ == json_of(p@),
{
    let mut out: Vec<char> = Vec::new();
    push_str_chars(&mut out, "{\"timestamp\":");
    push_json_string(&mut out, p.timestamp.as_str());
    push_str_chars(&mut out, ",\"table\":");
    push_json_string(&mut out, p.table.as_str());
    push_str_chars(&mut out, ",\"action\":");
    push_json_string(&mut out, action_str(&p.action));
    push_str_chars(&mut out, ",\"id\":");
    push_json_string(&mut out, p.id.as_str());
    push_str_chars(&mut out, ",\"record\":");
    push_json_string(&mut out, p.record.as_str());
    push_str_chars(&mut out, ",\"old\":");
    match &p.old {
        Some(s) => push_json_string(&mut out, s.as_str()),
        None => push_str_chars(&mut out, "null"),
    }
    push_str_chars(&mut out, "}");
    proof {
        assert(out@ =~= json_of(p@));
    }
    string_from_chars(&out)
}


// ---------------------------------------------------------------------------
// Decoding: the grammar
// ---------------------------------------------------------------------------
//
// The decoder is a recursive-descent reading of the object grammar above.
// The functions below are the grammar itself, written over character
// sequences and positions; each executable function mirrors one of them
// exactly. The mutually recursive parts walk on a fuel bound; twice the
// input length plus a constant is ample, since every structural step of the
// grammar consumes input.

/// First position at or after `i` holding no whitespace.
pub open spec fn ws_end(s: Seq<char>, i: nat) -> nat
    decreases s.len() - i,
{
    if i >= s.len() {
        i
    } else if is_ws(s[i as int]) {
        ws_end(s, i + 1)
    } else {
        i
    }
}

/// First position at or after `i` holding no decimal digit.
pub open spec fn scan_digits(s: Seq<char>, i: nat) -> nat
    decreases s.len() - i,
{
    if i >= s.len() {
        i
    } else if is_digit(s[i as int]) {
        scan_digits(s, i + 1)
    } else {
        i
    }
}

/// The character a two-character escape stands for.
pub open spec fn unescape_simple(e: char) -> char {
    if e == 'b' {
        '\u{8}'
    } else if e == 'f' {
        '\u{c}'
    } else if e == 'n' {
        '\n'
    } else if e == 'r' {
        '\r'
    } else if e == 't' {
        '\t'
    } else {
        e
    }
}

pub open spec fn is_simple_escape(e: char) -> bool {
    e == '"' || e == '\\' || e == '/' || e == 'b' || e == 'f' || e == 'n' || e == 'r' || e == 't'
}

/// Four hex digits as a number.
pub open spec fn hex4(s: Seq<char>, i: nat) -> int {
    hex_val(s[i as int]) * 4096 + hex_val(s[i as int + 1]) * 256 + hex_val(s[i as int + 2]) * 16 + hex_val(
        s[i as int + 3],
    )
}

pub open spec fn hex4_ok(s: Seq<char>, i: nat) -> bool {
    is_hex(s[i as int]) && is_hex(s[i as int + 1]) && is_hex(s[i as int + 2]) && is_hex(s[i as int + 3])
}

/// A string literal's content from just after its opening quote: the decoded
/// text and the position after the closing quote. Escapes cover the simple
/// pairs, `\uXXXX`, and surrogate pairs for characters beyond the basic
/// plane; an unescaped control character or a lone surrogate is malformed.
pub open spec fn string_body(s: Seq<char>, i: nat) -> Option<(Seq<char>, nat)>
    decreases s.len() - i,
{
    if i >= s.len() {
        None
    } else {
        let c = s[i as int];
        if c == '"' {
            Some((Seq::empty(), i + 1))
        } else if c == '\\' {
            if i + 1 >= s.len() {
                None
            } else {
                let e = s[i as int + 1];
                if is_simple_escape(e) {
                    match string_body(s, i + 2) {
                        Some(p) => Some((seq![unescape_simple(e)] + p.0, p.1)),
                        None => None,
                    }
                } else if e == 'u' {
                    if i + 6 > s.len() || !hex4_ok(s, i + 2) {
                        None
                    } else {
                        let code = hex4(s, i + 2);
                        if 0xD800 <= code < 0xDC00 {
                            if i + 12 > s.len() || s[i as int + 6] != '\\' || s[i as int + 7] != 'u'
                                || !hex4_ok(s, i + 8) {
                                None
                            } else {
                                let lo = hex4(s, i + 8);
                                if 0xDC00 <= lo < 0xE000 {
                                    let cp = 0x10000 + (code - 0xD800) * 0x400 + (lo - 0xDC00);
                                    match string_body(s, i + 12) {
                                        Some(p) => Some((seq![((cp as u32) as char)] + p.0, p.1)),
                                        None => None,
                                    }
                                } else {
                                    None
                                }
                            }
                        } else if 0xDC00 <= code < 0xE000 {
                            None
                        } else {
                            match string_body(s, i + 6) {
                                Some(p) => Some((seq![((code as u32) as char)] + p.0, p.1)),
                                None => None,
                            }
                        }
                    }
                } else {
                    None
                }
            }
        } else if (c as u32) < 0x20 {
            None
        } else {
            match string_body(s, i + 1) {
                Some(p) => Some((seq![c] + p.0, p.1)),
                None => None,
            }
        }
    }
}

/// A number from `i`, which must start it: the position after it.
pub open spec fn number_end(s: Seq<char>, i: nat) -> Option<nat> {
    let j0 = if i < s.len() && s[i as int] == '-' {
        i + 1
    } else {
        i
    };
    if j0 >= s.len() || !is_digit(s[j0 as int]) {
        None
    } else {
        let j1 = if s[j0 as int] == '0' {
            j0 + 1
        } else {
            scan_digits(s, j0)
        };
        let frac = if j1 < s.len() && s[j1 as int] == '.' {
            let j2 = scan_digits(s, j1 + 1);
            if j2 == j1 + 1 {
                None
            } else {
                Some(j2)
            }
        } else {
            Some(j1)
        };
        match frac {
            None => None,
            Some(j2) => {
                if j2 < s.len() && (s[j2 as int] == 'e' || s[j2 as int] == 'E') {
                    let j3 = if j2 + 1 < s.len() && (s[j2 as int + 1] == '+' || s[j2 as int + 1] == '-') {
                        j2 + 2
                    } else {
                        j2 + 1
                    };
                    let j4 = scan_digits(s, j3);
                    if j4 == j3 {
                        None
                    } else {
                        Some(j4)
                    }
                } else {
                    Some(j2)
                }
            },
        }
    }
}

/// Does the literal word stand at `i`?
pub open spec fn word_at(s: Seq<char>, i: nat, w: Seq<char>) -> bool {
    i + w.len() <= s.len() && s.subrange(i as int, (i + w.len()) as int) == w
}

/// Any JSON value from `i`: the position after it. Used to pass over unknown
/// members.
pub open spec fn value_end(s: Seq<char>, i: nat, fuel: nat) -> Option<nat>
    decreases fuel,
{
    if fuel == 0 || i >= s.len() {
        None
    } else {
        let c = s[i as int];
        if c == '"' {
            match string_body(s, i + 1) {
                Some(p) => Some(p.1),
                None => None,
            }
        } else if c == '{' {
            object_end(s, i + 1, (fuel - 1) as nat)
        } else if c == '[' {
            array_end(s, i + 1, (fuel - 1) as nat)
        } else if c == '-' || is_digit(c) {
            number_end(s, i)
        } else if word_at(s, i, "true"@) {
            Some(i + 4)
        } else if word_at(s, i, "false"@) {
            Some(i + 5)
        } else if word_at(s, i, "null"@) {
            Some(i + 4)
        } else {
            None
        }
    }
}

/// The rest of an object from just after its `{`.
pub open spec fn object_end(s: Seq<char>, i: nat, fuel: nat) -> Option<nat>
    decreases fuel,
{
    if fuel == 0 {
        None
    } else {
        let j = ws_end(s, i);
        if j >= s.len() {
            None
        } else if s[j as int] == '}' {
            Some(j + 1)
        } else {
            members_end(s, j, (fuel - 1) as nat)
        }
    }
}

/// Members of an object from the first character of a key.
pub open spec fn members_end(s: Seq<char>, i: nat, fuel: nat) -> Option<nat>
    decreases fuel,
{
    if fuel == 0 || i >= s.len() || s[i as int] != '"' {
        None
    } else {
        match string_body(s, i + 1) {
            None => None,
            Some(k) => {
                let jc = ws_end(s, k.1);
                if jc >= s.len() || s[jc as int] != ':' {
                    None
                } else {
                    let jv = ws_end(s, jc + 1);
                    match value_end(s, jv, (fuel - 1) as nat) {
                        None => None,
                        Some(je) => {
                            let jn = ws_end(s, je);
                            if jn >= s.len() {
                                None
                            } else if s[jn as int] == '}' {
                                Some(jn + 1)
                            } else if s[jn as int] == ',' {
                                members_end(s, ws_end(s, jn + 1), (fuel - 1) as nat)
                            } else {
                                None
                            }
                        },
                    }
                }
            },
        }
    }
}

/// The rest of an array from just after its `[`.
pub open spec fn array_end(s: Seq<char>, i: nat, fuel: nat) -> Option<nat>
    decreases fuel,
{
    if fuel == 0 {
        None
    } else {
        let j = ws_end(s, i);
        if j >= s.len() {
            None
        } else if s[j as int] == ']' {
            Some(j + 1)
        } else {
            elements_end(s, j, (fuel - 1) as nat)
        }
    }
}

/// Elements of an array from the first character of a value.
pub open spec fn elements_end(s: Seq<char>, i: nat, fuel: nat) -> Option<nat>
    decreases fuel,
{
    if fuel == 0 {
        None
    } else {
        match value_end(s, i, (fuel - 1) as nat) {
            None => None,
            Some(je) => {
                let jn = ws_end(s, je);
                if jn >= s.len() {
                    None
                } else if s[jn as int] == ']' {
                    Some(jn + 1)
                } else if s[jn as int] == ',' {
                    elements_end(s, ws_end(s, jn + 1), (fuel - 1) as nat)
                } else {
                    None
                }
            },
        }
    }
}

// ---------------------------------------------------------------------------
// Decoding: the event's members
// ---------------------------------------------------------------------------

/// The wire spelling of an action, read back.
pub open spec fn action_of(v: Seq<char>) -> Option<Action> {
    if v == "INSERT"@ {
        Some(Action::INSERT)
    } else if v == "UPDATE"@ {
        Some(Action::UPDATE)
    } else if v == "DELETE"@ {
        Some(Action::DELETE)
    } else {
        None
    }
}

/// The members collected so far while reading an event object. A member may
/// appear at most once; `old` distinguishes "seen as null" from "not seen"
/// with its own flag.
#[verifier::ext_equal]
pub struct Members {
    pub timestamp: Option<Seq<char>>,
    pub table: Option<Seq<char>>,
    pub action: Option<Action>,
    pub id: Option<Seq<char>>,
    pub record: Option<Seq<char>>,
    pub old_seen: bool,
    pub old: Option<Seq<char>>,
}

pub open spec fn no_members() -> Members {
    Members {
        timestamp: None,
        table: None,
        action: None,
        id: None,
        record: None,
        old_seen: false,
        old: None,
    }
}

/// A string value at `i` (which must open with a quote).
pub open spec fn string_at(s: Seq<char>, i: nat) -> Option<(Seq<char>, nat)> {
    if i < s.len() && s[i as int] == '"' {
        string_body(s, i + 1)
    } else {
        None
    }
}

/// Members of the event object from the first character of a key: the
/// collected members and the position after the closing `}`. A duplicate
/// member, an ill-typed value or an unknown action is malformed; unknown
/// keys are passed over.
pub open spec fn payload_members(s: Seq<char>, i: nat, acc: Members, fuel: nat) -> Option<
    (Members, nat),
>
    decreases fuel,
{
    if fuel == 0 || i >= s.len() || s[i as int] != '"' {
        None
    } else {
        match string_body(s, i + 1) {
            None => None,
            Some(k) => {
                let key = k.0;
                let jc = ws_end(s, k.1);
                if jc >= s.len() || s[jc as int] != ':' {
                    None
                } else {
                    let jv = ws_end(s, jc + 1);
                    let step: Option<(Members, nat)> = if key == "timestamp"@ {
                        if acc.timestamp is Some {
                            None
                        } else {
                            match string_at(s, jv) {
                                Some(p) => Some(
                                    (Members { timestamp: Some(p.0), ..acc }, p.1),
                                ),
                                None => None,
                            }
                        }
                    } else if key == "table"@ {
                        if acc.table is Some {
                            None
                        } else {
                            match string_at(s, jv) {
                                Some(p) => Some((Members { table: Some(p.0), ..acc }, p.1)),
                                None => None,
                            }
                        }
                    } else if key == "action"@ {
                        if acc.action is Some {
                            None
                        } else {
                            match string_at(s, jv) {
                                Some(p) => match action_of(p.0) {
                                    Some(a) => Some((Members { action: Some(a), ..acc }, p.1)),
                                    None => None,
                                },
                                None => None,
                            }
                        }
                    } else if key == "id"@ {
                        if acc.id is Some {
                            None
                        } else {
                            match string_at(s, jv) {
                                Some(p) => Some((Members { id: Some(p.0), ..acc }, p.1)),
                                None => None,
                            }
                        }
                    } else if key == "record"@ {
                        if acc.record is Some {
                            None
                        } else {
                            match string_at(s, jv) {
                                Some(p) => Some((Members { record: Some(p.0), ..acc }, p.1)),
                                None => None,
                            }
                        }
                    } else if key == "old"@ {
                        if acc.old_seen {
                            None
                        } else if word_at(s, jv, "null"@) {
                            Some((Members { old_seen: true, old: None, ..acc }, jv + 4))
                        } else {
                            match string_at(s, jv) {
                                Some(p) => Some(
                                    (Members { old_seen: true, old: Some(p.0), ..acc }, p.1),
                                ),
                                None => None,
                            }
                        }
                    } else {
                        match value_end(s, jv, (fuel - 1) as nat) {
                            Some(je) => Some((acc, je)),
                            None => None,
                        }
                    };
                    match step {
                        None => None,
                        Some(st) => {
                            let jn = ws_end(s, st.1);
                            if jn >= s.len() {
                                None
                            } else if s[jn as int] == '}' {
                                Some((st.0, jn + 1))
                            } else if s[jn as int] == ',' {
                                payload_members(s, ws_end(s, jn + 1), st.0, (fuel - 1) as nat)
                            } else {
                                None
                            }
                        },
                    }
                }
            },
        }
    }
}

/// The event an object's members make, if every required one is present.
pub open spec fn members_view(m: Members) -> Option<PayloadView> {
    if m.timestamp is Some && m.table is Some && m.action is Some && m.id is Some
        && m.record is Some {
        Some(
            PayloadView {
                timestamp: m.timestamp->0,
                table: m.table->0,
                action: m.action->0,
                id: m.id->0,
                record: m.record->0,
                old: m.old,
            },
        )
    } else {
        None
    }
}

/// What a whole payload text means: the event it encodes, or nothing if it is
/// malformed. The text must be one object with every required member, and
/// nothing but whitespace around it.
pub open spec fn payload_from_json(s: Seq<char>) -> Option<PayloadView> {
    let i0 = ws_end(s, 0);
    if i0 >= s.len() || s[i0 as int] != '{' {
        None
    } else {
        let j = ws_end(s, i0 + 1);
        match payload_members(s, j, no_members(), 2 * s.len() + 4) {
            None => None,
            Some(p) => {
                if ws_end(s, p.1) == s.len() {
                    members_view(p.0)
                } else {
                    None
                }
            },
        }
    }
}


// ---------------------------------------------------------------------------
// Decoding: the decoder
// ---------------------------------------------------------------------------

/// Converts a Unicode scalar value to its character.
///
/// Relies on `char::from_u32`: it returns the character for exactly the
/// Unicode scalar values (below the surrogate range, or between it and the
/// last code point), and nothing otherwise.
#[verifier::external_body]
fn char_from_u32(u: u32) -> (r: Option<char>)
    ensures
        r matches Some(c) ==> c as u32 == u,
        r is Some <==> (u < 0xD800 || (0xE000 <= u && u < 0x110000)),
{
    char::from_u32(u)
}

fn ws_end_run(cs: &Vec<char>, i: usize) -> (r: usize)
    requires
        i <= cs@.len(),
    ensures
        r == ws_end(cs@, i as nat),
        i <= r <= cs@.len(),
    decreases cs@.len() - i,
{
    let n = cs.len();
    if i >= n {
        i
    } else {
        let c = cs[i];
        if c == ' ' || c == '\t' || c == '\n' || c == '\r' {
            ws_end_run(cs, i + 1)
        } else {
            i
        }
    }
}

fn scan_digits_run(cs: &Vec<char>, i: usize) -> (r: usize)
    requires
        i <= cs@.len(),
    ensures
        r == scan_digits(cs@, i as nat),
        i <= r <= cs@.len(),
    decreases cs@.len() - i,
{
    let n = cs.len();
    if i >= n {
        i
    } else {
        let c = cs[i];
        if '0' <= c && c <= '9' {
            scan_digits_run(cs, i + 1)
        } else {
            i
        }
    }
}

fn hexv(c: char) -> (r: u32)
    requires
        is_hex(c),
    ensures
        r == hex_val(c),
        r < 16,
{
    if '0' <= c && c <= '9' {
        (c as u32) - ('0' as u32)
    } else if 'a' <= c && c <= 'f' {
        (c as u32) - ('a' as u32) + 10
    } else {
        (c as u32) - ('A' as u32) + 10
    }
}

fn is_hex_run(c: char) -> (r: bool)
    ensures
        r == is_hex(c),
{
    ('0' <= c && c <= '9') || ('a' <= c && c <= 'f') || ('A' <= c && c <= 'F')
}

/// Reads four hex digits at `i`.
fn hex4_run(cs: &Vec<char>, i: usize) -> (r: Option<u32>)
    requires
        i + 4 <= cs@.len(),
    ensures
        r is Some <==> hex4_ok(cs@, i as nat),
        r matches Some(v) ==> v == hex4(cs@, i as nat) && v < 0x10000,
{
    let n = cs.len();
    assert(i + 4 <= n);
    if is_hex_run(cs[i]) && is_hex_run(cs[i + 1]) && is_hex_run(cs[i + 2]) && is_hex_run(
        cs[i + 3],
    ) {
        Some(hexv(cs[i]) * 4096 + hexv(cs[i + 1]) * 256 + hexv(cs[i + 2]) * 16 + hexv(cs[i + 3]))
    } else {
        None
    }
}

/// Decodes a string literal's content from just after its opening quote,
/// appending the text to `out`; returns the position after the closing quote.
fn string_body_run(cs: &Vec<char>, i: usize, out: &mut Vec<char>) -> (r: Option<usize>)
    requires
        i <= cs@.len(),
    ensures
        ({
            let sp = string_body(cs@, i as nat);
            match sp {
                Some(p) => r matches Some(j) && j == p.1 && j <= cs@.len() && final(out)@ == old(
                    out,
                )@ + p.0,
                None => r is None,
            }
        }),
    decreases cs@.len() - i,
{
    let n = cs.len();
    if i >= n {
        return None;
    }
    let c = cs[i];
    if c == '"' {
        proof {
            assert(out@ =~= out@ + Seq::<char>::empty());
        }
        Some(i + 1)
    } else if c == '\\' {
        if i + 1 >= n {
            return None;
        }
        let e = cs[i + 1];
        if e == '"' || e == '\\' || e == '/' || e == 'b' || e == 'f' || e == 'n' || e == 'r' || e
            == 't' {
            let u: char = if e == 'b' {
                '\u{8}'
            } else if e == 'f' {
                '\u{c}'
            } else if e == 'n' {
                '\n'
            } else if e == 'r' {
                '\r'
            } else if e == 't' {
                '\t'
            } else {
                e
            };
            assert(u == unescape_simple(e));
            out.push(u);
            let res = string_body_run(cs, i + 2, out);
            proof {
                match string_body(cs@, (i + 2) as nat) {
                    Some(p) => {
                    assert(old(out)@ + (seq![u] + p.0) =~= (old(out)@ + seq![u]) + p.0);
                    },
                    None => {},
                }
            }
            res
        } else if e == 'u' {
            if n - i < 6 {
                return None;
            }
            let hi = hex4_run(cs, i + 2);
            match hi {
                None => None,
                Some(code) => {
                    if 0xD800 <= code && code < 0xDC00 {
                        if n - i < 12 {
                            return None;
                        }
                        if cs[i + 6] != '\\' || cs[i + 7] != 'u' {
                            return None;
                        }
                        let lo4 = hex4_run(cs, i + 8);
                        match lo4 {
                            None => None,
                            Some(lo) => {
                                if 0xDC00 <= lo && lo < 0xE000 {
                                    let cp: u32 = 0x10000 + (code - 0xD800) * 0x400 + (lo
                                        - 0xDC00);
                                    let ch = char_from_u32(cp);
                                    match ch {
                                        Some(chv) => {
                                            proof {
                                                vstd::utf8::char_u32_cast(chv, cp);
                                            }
                                            out.push(chv);
                                            let res = string_body_run(cs, i + 12, out);
                                            proof {
                                                match string_body(cs@, (i + 12) as nat) {
                                                    Some(p) => {
                                                    assert(old(out)@ + (seq![chv] + p.0) =~= (old(
                                                        out,
                                                    )@ + seq![chv]) + p.0);
                                                    },
                                                    None => {},
                                                }
                                            }
                                            res
                                        },
                                        None => {
                                            proof {
                                                assert(false);
                                            }
                                            None
                                        },
                                    }
                                } else {
                                    None
                                }
                            },
                        }
                    } else if 0xDC00 <= code && code < 0xE000 {
                        None
                    } else {
                        let ch = char_from_u32(code);
                        match ch {
                            Some(chv) => {
                                proof {
                                    vstd::utf8::char_u32_cast(chv, code);
                                }
                                out.push(chv);
                                let res = string_body_run(cs, i + 6, out);
                                proof {
                                    match string_body(cs@, (i + 6) as nat) {
                                        Some(p) => {
                                        assert(old(out)@ + (seq![chv] + p.0) =~= (old(out)@ + seq![
                                            chv,
                                        ]) + p.0);
                                        },
                                        None => {},
                                    }
                                }
                                res
                            },
                            None => {
                                proof {
                                    assert(false);
                                }
                                None
                            },
                        }
                    }
                },
            }
        } else {
            None
        }
    } else if (c as u32) < 0x20 {
        None
    } else {
        out.push(c);
        let res = string_body_run(cs, i + 1, out);
        proof {
            match string_body(cs@, (i + 1) as nat) {
                Some(p) => {
                assert(old(out)@ + (seq![c] + p.0) =~= (old(out)@ + seq![c]) + p.0);
                },
                None => {},
            }
        }
        res
    }
}

/// Passes over a number starting at `i`.
fn number_end_run(cs: &Vec<char>, i: usize) -> (r: Option<usize>)
    requires
        i <= cs@.len(),
    ensures
        ({
            let sp = number_end(cs@, i as nat);
            match sp {
                Some(j) => r matches Some(je) && je == j && je <= cs@.len(),
                None => r is None,
            }
        }),
{
    let n = cs.len();
    let j0: usize = if i < n && cs[i] == '-' {
        i + 1
    } else {
        i
    };
    if j0 >= n {
        return None;
    }
    let d0 = cs[j0];
    if !('0' <= d0 && d0 <= '9') {
        return None;
    }
    let j1: usize = if d0 == '0' {
        j0 + 1
    } else {
        scan_digits_run(cs, j0)
    };
    let j2opt: Option<usize> = if j1 < n && cs[j1] == '.' {
        let j2 = scan_digits_run(cs, j1 + 1);
        if j2 == j1 + 1 {
            None
        } else {
            Some(j2)
        }
    } else {
        Some(j1)
    };
    match j2opt {
        None => None,
        Some(j2) => {
            if j2 < n && (cs[j2] == 'e' || cs[j2] == 'E') {
                let j3: usize = if j2 + 1 < n && (cs[j2 + 1] == '+' || cs[j2 + 1] == '-') {
                    j2 + 2
                } else {
                    j2 + 1
                };
                let j4 = scan_digits_run(cs, j3);
                if j4 == j3 {
                    None
                } else {
                    Some(j4)
                }
            } else {
                Some(j2)
            }
        },
    }
}

/// Does the word stand at `i`?
fn is_word(cs: &Vec<char>, i: usize, w: &Vec<char>) -> (r: bool)
    requires
        i <= cs@.len(),
    ensures
        r == word_at(cs@, i as nat, w@),
{
    let n = cs.len();
    let m = w.len();
    if n - i < m {
        return false;
    }
    let mut k: usize = 0;
    while k < m
        invariant
            n == cs@.len(),
            m == w@.len(),
            i + m <= n,
            k <= m,
            forall|t: int| 0 <= t < k ==> cs@[i + t] == w@[t],
        decreases m - k,
    {
        if cs[i + k] != w[k] {
            proof {
                assert(cs@.subrange(i as int, i + m as int)[k as int] == cs@[i + k]);
            }
            return false;
        }
        k = k + 1;
    }
    proof {
        assert(cs@.subrange(i as int, i + m as int) =~= w@);
    }
    true
}

/// Are the two texts the same?
fn eq_chars(v: &Vec<char>, w: &Vec<char>) -> (r: bool)
    ensures
        r == (v@ == w@),
{
    let n = v.len();
    if n != w.len() {
        return false;
    }
    let mut k: usize = 0;
    while k < n
        invariant
            n == v@.len(),
            n == w@.len(),
            k <= n,
            forall|t: int| 0 <= t < k ==> v@[t] == w@[t],
        decreases n - k,
    {
        if v[k] != w[k] {
            return false;
        }
        k = k + 1;
    }
    proof {
        assert(v@ =~= w@);
    }
    true
}

fn value_end_run(cs: &Vec<char>, i: usize, fuel: u128) -> (r: Option<usize>)
    requires
        i <= cs@.len(),
    ensures
        ({
            let sp = value_end(cs@, i as nat, fuel as nat);
            match sp {
                Some(j) => r matches Some(je) && je == j && je <= cs@.len(),
                None => r is None,
            }
        }),
    decreases fuel,
{
    let n = cs.len();
    if fuel == 0 || i >= n {
        return None;
    }
    let c = cs[i];
    if c == '"' {
        let mut scratch: Vec<char> = Vec::new();
        string_body_run(cs, i + 1, &mut scratch)
    } else if c == '{' {
        object_end_run(cs, i + 1, fuel - 1)
    } else if c == '[' {
        array_end_run(cs, i + 1, fuel - 1)
    } else if c == '-' || ('0' <= c && c <= '9') {
        number_end_run(cs, i)
    } else {
        proof {
            reveal_strlit("true");
            reveal_strlit("false");
            reveal_strlit("null");
        }
        let tru = chars_vec("true");
        assert(tru@.len() == 4);
        if is_word(cs, i, &tru) {
            return Some(i + 4);
        }
        let fal = chars_vec("false");
        assert(fal@.len() == 5);
        if is_word(cs, i, &fal) {
            return Some(i + 5);
        }
        let nul = chars_vec("null");
        assert(nul@.len() == 4);
        if is_word(cs, i, &nul) {
            return Some(i + 4);
        }
        None
    }
}

fn object_end_run(cs: &Vec<char>, i: usize, fuel: u128) -> (r: Option<usize>)
    requires
        i <= cs@.len(),
    ensures
        ({
            let sp = object_end(cs@, i as nat, fuel as nat);
            match sp {
                Some(j) => r matches Some(je) && je == j && je <= cs@.len(),
                None => r is None,
            }
        }),
    decreases fuel,
{
    if fuel == 0 {
        return None;
    }
    let n = cs.len();
    let j = ws_end_run(cs, i);
    if j >= n {
        None
    } else if cs[j] == '}' {
        Some(j + 1)
    } else {
        members_end_run(cs, j, fuel - 1)
    }
}

fn members_end_run(cs: &Vec<char>, i: usize, fuel: u128) -> (r: Option<usize>)
    requires
        i <= cs@.len(),
    ensures
        ({
            let sp = members_end(cs@, i as nat, fuel as nat);
            match sp {
                Some(j) => r matches Some(je) && je == j && je <= cs@.len(),
                None => r is None,
            }
        }),
    decreases fuel,
{
    let n = cs.len();
    if fuel == 0 || i >= n {
        return None;
    }
    if cs[i] != '"' {
        return None;
    }
    let mut key: Vec<char> = Vec::new();
    match string_body_run(cs, i + 1, &mut key) {
        None => None,
        Some(jk) => {
            let jc = ws_end_run(cs, jk);
            if jc >= n {
                return None;
            }
            if cs[jc] != ':' {
                return None;
            }
            let jv = ws_end_run(cs, jc + 1);
            match value_end_run(cs, jv, fuel - 1) {
                None => None,
                Some(je) => {
                    let jn = ws_end_run(cs, je);
                    if jn >= n {
                        None
                    } else if cs[jn] == '}' {
                        Some(jn + 1)
                    } else if cs[jn] == ',' {
                        let jm = ws_end_run(cs, jn + 1);
                        members_end_run(cs, jm, fuel - 1)
                    } else {
                        None
                    }
                },
            }
        },
    }
}

fn array_end_run(cs: &Vec<char>, i: usize, fuel: u128) -> (r: Option<usize>)
    requires
        i <= cs@.len(),
    ensures
        ({
            let sp = array_end(cs@, i as nat, fuel as nat);
            match sp {
                Some(j) => r matches Some(je) && je == j && je <= cs@.len(),
                None => r is None,
            }
        }),
    decreases fuel,
{
    if fuel == 0 {
        return None;
    }
    let n = cs.len();
    let j = ws_end_run(cs, i);
    if j >= n {
        None
    } else if cs[j] == ']' {
        Some(j + 1)
    } else {
        elements_end_run(cs, j, fuel - 1)
    }
}

fn elements_end_run(cs: &Vec<char>, i: usize, fuel: u128) -> (r: Option<usize>)
    requires
        i <= cs@.len(),
    ensures
        ({
            let sp = elements_end(cs@, i as nat, fuel as nat);
            match sp {
                Some(j) => r matches Some(je) && je == j && je <= cs@.len(),
                None => r is None,
            }
        }),
    decreases fuel,
{
    if fuel == 0 {
        return None;
    }
    let n = cs.len();
    match value_end_run(cs, i, fuel - 1) {
        None => None,
        Some(je) => {
            let jn = ws_end_run(cs, je);
            if jn >= n {
                None
            } else if cs[jn] == ']' {
                Some(jn + 1)
            } else if cs[jn] == ',' {
                let jm = ws_end_run(cs, jn + 1);
                elements_end_run(cs, jm, fuel - 1)
            } else {
                None
            }
        },
    }
}


/// The members collected so far, as the decoder holds them.
struct MembersRun {
    timestamp: Option<Vec<char>>,
    table: Option<Vec<char>>,
    action: Option<Action>,
    id: Option<Vec<char>>,
    record: Option<Vec<char>>,
    old_seen: bool,
    old: Option<Vec<char>>,
}

spec fn members_run_view(m: &MembersRun) -> Members {
    Members {
        timestamp: match m.timestamp {
            Some(v) => Some(v@),
            None => None,
        },
        table: match m.table {
            Some(v) => Some(v@),
            None => None,
        },
        action: m.action,
        id: match m.id {
            Some(v) => Some(v@),
            None => None,
        },
        record: match m.record {
            Some(v) => Some(v@),
            None => None,
        },
        old_seen: m.old_seen,
        old: match m.old {
            Some(v) => Some(v@),
            None => None,
        },
    }
}

/// A string value at `i`, which must open with a quote.
fn string_at_run(cs: &Vec<char>, i: usize) -> (r: Option<(Vec<char>, usize)>)
    requires
        i <= cs@.len(),
    ensures
        ({
            let sp = string_at(cs@, i as nat);
            match sp {
                Some(p) => r matches Some(q) && q.0@ == p.0 && q.1 == p.1 && q.1 <= cs@.len(),
                None => r is None,
            }
        }),
{
    let n = cs.len();
    if i < n && cs[i] == '"' {
        let mut val: Vec<char> = Vec::new();
        match string_body_run(cs, i + 1, &mut val) {
            Some(j) => Some((val, j)),
            None => None,
        }
    } else {
        None
    }
}

fn payload_members_run(cs: &Vec<char>, i: usize, acc: MembersRun, fuel: u128) -> (r: Option<
    (MembersRun, usize),
>)
    requires
        i <= cs@.len(),
    ensures
        ({
            let sp = payload_members(cs@, i as nat, members_run_view(&acc), fuel as nat);
            match sp {
                Some(p) => r matches Some(q) && members_run_view(&q.0) == p.0 && q.1 == p.1
                    && q.1 <= cs@.len(),
                None => r is None,
            }
        }),
    decreases fuel,
{
    let n = cs.len();
    if fuel == 0 || i >= n {
        return None;
    }
    if cs[i] != '"' {
        return None;
    }
    let mut key: Vec<char> = Vec::new();
    let jk = match string_body_run(cs, i + 1, &mut key) {
        Some(j) => j,
        None => {
            return None;
        },
    };
    let jc = ws_end_run(cs, jk);
    if jc >= n {
        return None;
    }
    if cs[jc] != ':' {
        return None;
    }
    let jv = ws_end_run(cs, jc + 1);
    let k_timestamp = chars_vec("timestamp");
    let k_table = chars_vec("table");
    let k_action = chars_vec("action");
    let k_id = chars_vec("id");
    let k_record = chars_vec("record");
    let k_old = chars_vec("old");
    let step: Option<(MembersRun, usize)> = if eq_chars(&key, &k_timestamp) {
        if acc.timestamp.is_some() {
            None
        } else {
            match string_at_run(cs, jv) {
                Some(p) => Some((MembersRun { timestamp: Some(p.0), ..acc }, p.1)),
                None => None,
            }
        }
    } else if eq_chars(&key, &k_table) {
        if acc.table.is_some() {
            None
        } else {
            match string_at_run(cs, jv) {
                Some(p) => Some((MembersRun { table: Some(p.0), ..acc }, p.1)),
                None => None,
            }
        }
    } else if eq_chars(&key, &k_action) {
        if acc.action.is_some() {
            None
        } else {
            match string_at_run(cs, jv) {
                Some(p) => {
                    let k_ins = chars_vec("INSERT");
                    let k_upd = chars_vec("UPDATE");
                    let k_del = chars_vec("DELETE");
                    let a: Option<Action> = if eq_chars(&p.0, &k_ins) {
                        Some(Action::INSERT)
                    } else if eq_chars(&p.0, &k_upd) {
                        Some(Action::UPDATE)
                    } else if eq_chars(&p.0, &k_del) {
                        Some(Action::DELETE)
                    } else {
                        None
                    };
                    assert(a == action_of(p.0@));
                    match a {
                        Some(av) => Some((MembersRun { action: Some(av), ..acc }, p.1)),
                        None => None,
                    }
                },
                None => None,
            }
        }
    } else if eq_chars(&key, &k_id) {
        if acc.id.is_some() {
            None
        } else {
            match string_at_run(cs, jv) {
                Some(p) => Some((MembersRun { id: Some(p.0), ..acc }, p.1)),
                None => None,
            }
        }
    } else if eq_chars(&key, &k_record) {
        if acc.record.is_some() {
            None
        } else {
            match string_at_run(cs, jv) {
                Some(p) => Some((MembersRun { record: Some(p.0), ..acc }, p.1)),
                None => None,
            }
        }
    } else if eq_chars(&key, &k_old) {
        if acc.old_seen {
            None
        } else {
            proof {
                reveal_strlit("null");
            }
            let nul = chars_vec("null");
            assert(nul@.len() == 4);
            if is_word(cs, jv, &nul) {
                Some((MembersRun { old_seen: true, old: None, ..acc }, jv + 4))
            } else {
                match string_at_run(cs, jv) {
                    Some(p) => Some((MembersRun { old_seen: true, old: Some(p.0), ..acc }, p.1)),
                    None => None,
                }
            }
        }
    } else {
        match value_end_run(cs, jv, fuel - 1) {
            Some(je) => Some((acc, je)),
            None => None,
        }
    };
    match step {
        None => None,
        Some(st) => {
            let jn = ws_end_run(cs, st.1);
            if jn >= n {
                None
            } else if cs[jn] == '}' {
                Some((st.0, jn + 1))
            } else if cs[jn] == ',' {
                let jm = ws_end_run(cs, jn + 1);
                payload_members_run(cs, jm, st.0, fuel - 1)
            } else {
                None
            }
        },
    }
}

/// Parses one payload text into the event it encodes.
///
/// Returns the event exactly when [`payload_from_json`] gives one for the
/// text, and nothing on any malformed payload: such a payload is discarded by
/// the feed, never fatal to it.
pub fn parse_payload(s: &str) -> (r: Option<Payload>)
    ensures
        ({
            let sp = payload_from_json(s@);
            match sp {
                Some(pv) => r matches Some(p) && p@ == pv,
                None => r is None,
            }
        }),
{
    let cs = chars_vec(s);
    let n = cs.len();
    let i0 = ws_end_run(&cs, 0);
    if i0 >= n {
        return None;
    }
    if cs[i0] != '{' {
        return None;
    }
    let j = ws_end_run(&cs, i0 + 1);
    let fuel: u128 = 2 * (n as u128) + 4;
    let start = MembersRun {
        timestamp: None,
        table: None,
        action: None,
        id: None,
        record: None,
        old_seen: false,
        old: None,
    };
    assert(members_run_view(&start) =~= no_members());
    match payload_members_run(&cs, j, start, fuel) {
        None => None,
        Some(q) => {
            let jend = ws_end_run(&cs, q.1);
            if jend != n {
                return None;
            }
            let MembersRun { timestamp, table, action, id, record, old_seen: _, old: old_v } = q.0;
            match (timestamp, table, action, id, record) {
                (Some(ts), Some(tb), Some(ac), Some(idv), Some(rc)) => {
                    let p = Payload {
                        timestamp: string_from_chars(&ts),
                        table: string_from_chars(&tb),
                        action: ac,
                        id: string_from_chars(&idv),
                        record: string_from_chars(&rc),
                        old: match &old_v {
                            Some(v) => Some(string_from_chars(v)),
                            None => None,
                        },
                    };
                    proof {
                        assert(p@ =~= payload_from_json(s@)->0);
                    }
                    Some(p)
                },
                _ => None,
            }
        },
    }
}


// ---------------------------------------------------------------------------
// The encoder and the decoder agree
// ---------------------------------------------------------------------------

proof fn lemma_hex_digit_is_hex(m: u32)
    requires
        m < 16,
    ensures
        is_hex(hex_digit(m)),
{
}

proof fn lemma_hex_digit_val(m: u32)
    requires
        m < 16,
    ensures
        hex_val(hex_digit(m)) == m,
{
}

/// Reading a string body at an offset ignores everything before the offset.
proof fn lemma_string_body_shift(pre: Seq<char>, t: Seq<char>, i: nat)
    ensures
        ({
            let a = string_body(pre + t, (pre.len() + i) as nat);
            match string_body(t, i) {
                Some(p) => a == Some((p.0, (pre.len() + p.1) as nat)),
                None => a is None,
            }
        }),
    decreases t.len() - i,
{
    let u = pre + t;
    let k = (pre.len() + i) as nat;
    if i >= t.len() {
    } else {
        assert(u[k as int] == t[i as int]);
        let c = t[i as int];
        if c == '"' {
        } else if c == '\\' {
            if i + 1 >= t.len() {
            } else {
                assert(u[k as int + 1] == t[i as int + 1]);
                let e = t[i as int + 1];
                if is_simple_escape(e) {
                    lemma_string_body_shift(pre, t, i + 2);
                } else if e == 'u' {
                    if i + 6 > t.len() {
                    } else {
                        assert(u[k as int + 2] == t[i as int + 2]);
                        assert(u[k as int + 3] == t[i as int + 3]);
                        assert(u[k as int + 4] == t[i as int + 4]);
                        assert(u[k as int + 5] == t[i as int + 5]);
                        assert(hex4_ok(u, (k + 2) as nat) == hex4_ok(t, (i + 2) as nat));
                        if hex4_ok(t, (i + 2) as nat) {
                            assert(hex4(u, (k + 2) as nat) == hex4(t, (i + 2) as nat));
                            let code = hex4(t, (i + 2) as nat);
                            if 0xD800 <= code < 0xDC00 {
                                if i + 12 > t.len() {
                                } else {
                                    assert(u[k as int + 6] == t[i as int + 6]);
                                    assert(u[k as int + 7] == t[i as int + 7]);
                                    assert(u[k as int + 8] == t[i as int + 8]);
                                    assert(u[k as int + 9] == t[i as int + 9]);
                                    assert(u[k as int + 10] == t[i as int + 10]);
                                    assert(u[k as int + 11] == t[i as int + 11]);
                                    assert(hex4_ok(u, (k + 8) as nat) == hex4_ok(
                                        t,
                                        (i + 8) as nat,
                                    ));
                                    if t[i as int + 6] == '\\' && t[i as int + 7] == 'u'
                                        && hex4_ok(t, (i + 8) as nat) {
                                        assert(hex4(u, (k + 8) as nat) == hex4(t, (i + 8) as nat));
                                        let lo = hex4(t, (i + 8) as nat);
                                        if 0xDC00 <= lo < 0xE000 {
                                            lemma_string_body_shift(pre, t, i + 12);
                                        }
                                    }
                                }
                            } else if 0xDC00 <= code < 0xE000 {
                            } else {
                                lemma_string_body_shift(pre, t, i + 6);
                            }
                        }
                    }
                }
            }
        } else if (c as u32) < 0x20 {
        } else {
            lemma_string_body_shift(pre, t, i + 1);
        }
    }
}

/// The escaped spelling of a text, followed by the closing quote, reads back
/// as exactly that text.
proof fn lemma_escaped_reads_back(s: Seq<char>, rest: Seq<char>)
    ensures
        string_body(escape_seq(s) + seq!['"'] + rest, 0) == Some(
            (s, (escape_seq(s).len() + 1) as nat),
        ),
    decreases s.len(),
{
    let t = escape_seq(s) + seq!['"'] + rest;
    if s.len() == 0 {
        assert(escape_seq(s) =~= Seq::<char>::empty());
        assert(t[0] == '"');
        assert(string_body(t, 0) == Some((Seq::<char>::empty(), 1 as nat)));
    } else {
        let c = s[0];
        let sd = s.drop_first();
        let tail = escape_seq(sd) + seq!['"'] + rest;
        lemma_escaped_reads_back(sd, rest);
        let ec = escape_char(c);
        assert(escape_seq(s) == ec + escape_seq(sd));
        assert(t =~= ec + tail);
        assert(seq![c] + sd =~= s);
        if c == '"' || c == '\\' || c == '\u{8}' || c == '\u{c}' || c == '\n' || c == '\r' || c
            == '\t' {
            let e: char = if c == '"' {
                '"'
            } else if c == '\\' {
                '\\'
            } else if c == '\u{8}' {
                'b'
            } else if c == '\u{c}' {
                'f'
            } else if c == '\n' {
                'n'
            } else if c == '\r' {
                'r'
            } else {
                't'
            };
            assert(ec =~= seq!['\\', e]);
            assert(t[0] == '\\' && t[1] == e);
            assert(is_simple_escape(e));
            assert(unescape_simple(e) == c);
            lemma_string_body_shift(ec, tail, 0);
            assert(string_body(t, 0) == Some((s, (escape_seq(s).len() + 1) as nat)));
        } else if (c as u32) < 0x20 {
            let cu = c as u32;
            let h1 = hex_digit(cu / 16);
            let h2 = hex_digit(cu % 16);
            assert(ec =~= seq!['\\', 'u', '0', '0', h1, h2]);
            assert(t[0] == '\\' && t[1] == 'u');
            assert(!is_simple_escape('u'));
            assert(t[2] == '0' && t[3] == '0' && t[4] == h1 && t[5] == h2);
            lemma_hex_digit_is_hex(cu / 16);
            lemma_hex_digit_is_hex(cu % 16);
            assert(is_hex('0'));
            assert(hex4_ok(t, 2));
            lemma_hex_digit_val(cu / 16);
            lemma_hex_digit_val(cu % 16);
            assert(hex_val('0') == 0);
            assert(hex4(t, 2) == (cu / 16) * 16 + (cu % 16));
            assert(hex4(t, 2) == cu);
            let code = hex4(t, 2);
            assert(!(0xD800 <= code < 0xDC00) && !(0xDC00 <= code < 0xE000));
            vstd::utf8::char_u32_cast(c, cu);
            assert(((code as u32) as char) == c);
            lemma_string_body_shift(ec, tail, 0);
            assert(string_body(t, 0) == Some((s, (escape_seq(s).len() + 1) as nat)));
        } else {
            assert(ec =~= seq![c]);
            assert(t[0] == c);
            assert(c != '"' && c != '\\' && (c as u32) >= 0x20);
            lemma_string_body_shift(ec, tail, 0);
            assert(string_body(t, 0) == Some((s, (escape_seq(s).len() + 1) as nat)));
        }
    }
}

/// A string literal written by the encoder decodes back to exactly the text
/// it encodes, leaving the input just after the closing quote: the escapes
/// the encoder chooses are read the same way by the decoder.
pub proof fn lemma_string_literal_round_trip(s: Seq<char>, rest: Seq<char>)
    ensures
        string_at(json_string(s) + rest, 0) == Some((s, json_string(s).len())),
{
    let tail = escape_seq(s) + seq!['"'] + rest;
    let t = json_string(s) + rest;
    assert(t =~= seq!['"'] + tail);
    assert(t[0] == '"');
    lemma_escaped_reads_back(s, rest);
    lemma_string_body_shift(seq!['"'], tail, 0);
    assert(string_at(t, 0) == Some((s, (1 + escape_seq(s).len() + 1) as nat)));
    assert(json_string(s).len() == escape_seq(s).len() + 2);
}

} // verus!
