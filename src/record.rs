//! The log record of a transaction: one line holding a JSON object with the
//! fields `from`, `to`, `value` and `data`, in that order.

use vstd::prelude::*;

use vstd::string::StringExecFns;

use crate::text::chars_of;
use crate::tx::{Tx, TxModel};

verus! {

#[verifier::external_type_specification]
#[verifier::external_body]
pub struct ExJsonError(serde_json::Error);

/// What a JSON string literal (quotes included) denotes, or `None` when it
/// is not a well-formed literal.
pub uninterp spec fn json_string_value(token: Seq<char>) -> Option<Seq<char>>;

/// A character that a JSON string holds as itself, with no escape.
pub open spec fn plain_json_char(c: char) -> bool {
    c != '"' && c != '\\' && c as u32 >= 0x20
}

/// A quoted run of plain characters.
pub open spec fn plain_json_token(t: Seq<char>) -> bool {
    &&& t.len() >= 2
    &&& t[0] == '"'
    &&& t.last() == '"'
    &&& forall|i: int| 1 <= i < t.len() - 1 ==> plain_json_char(#[trigger] t[i])
}

pub open spec fn hex_digit(d: int) -> char {
    seq!['0', '1', '2', '3', '4', '5', '6', '7', '8', '9', 'a', 'b', 'c', 'd', 'e', 'f'][d]
}

/// How a character is written inside a JSON string literal: quote and
/// backslash escaped, the five short escapes, other control characters as
/// `\u00` and two lowercase hex digits, everything else as itself.
pub open spec fn json_escape(c: char) -> Seq<char> {
    if c == '"' {
        seq!['\\', '"']
    } else if c == '\\' {
        seq!['\\', '\\']
    } else if c == '\u{8}' {
        seq!['\\', 'b']
    } else if c == '\t' {
        seq!['\\', 't']
    } else if c == '\n' {
        seq!['\\', 'n']
    } else if c == '\u{c}' {
        seq!['\\', 'f']
    } else if c == '\r' {
        seq!['\\', 'r']
    } else if (c as u32) < 0x20 {
        seq!['\\', 'u', '0', '0', hex_digit((c as u32) as int / 16), hex_digit((c as u32) as int % 16)]
    } else {
        seq![c]
    }
}

/// The escaped characters of `s`, in order.
pub open spec fn json_escaped(s: Seq<char>) -> Seq<char>
    decreases s.len(),
{
    if s.len() == 0 {
        Seq::empty()
    } else {
        json_escaped(s.drop_last()) + json_escape(s.last())
    }
}

/// The JSON string literal that writes `s`, quotes included.
pub open spec fn json_quote(s: Seq<char>) -> Seq<char> {
    seq!['"'] + json_escaped(s) + seq!['"']
}

/// Relies on serde_json::from_str::<String>: decodes one JSON string
/// literal, fails on a malformed one, and gives the contents of a literal
/// that holds no escape and no control character.
#[verifier::external_body]
fn decode_json_string(token: &str) -> (r: Result<String, serde_json::Error>)
    ensures
        r is Ok <==> json_string_value(token@) is Some,
        r matches Ok(v) ==> json_string_value(token@) == Some(v@),
        plain_json_token(token@) ==> r is Ok,
        r matches Ok(v) ==> (plain_json_token(token@) ==> v@ == token@.subrange(1, token@.len() - 1)),
{
    serde_json::from_str::<String>(token)
}

/// Relies on serde_json::to_string on a str: writes it as a JSON string
/// literal into a vector, which cannot fail.
#[verifier::external_body]
fn encode_json_string(s: &str) -> (r: Result<String, serde_json::Error>)
    ensures
        r is Ok,
        r matches Ok(v) ==> v@ == json_quote(s@),
{
    serde_json::to_string(s)
}

/// Relies on String's FromIterator<char>: the string of exactly these characters.
#[verifier::external_body]
fn string_from_chars(cs: &Vec<char>) -> (r: String)
    ensures
        r@ == cs@,
{
    cs.iter().collect()
}

/// JSON whitespace.
pub open spec fn is_ws(c: char) -> bool {
    c == ' ' || c == '\t' || c == '\n' || c == '\r'
}

pub open spec fn is_digit(c: char) -> bool {
    '0' <= c && c <= '9'
}

pub open spec fn digit_value(c: char) -> nat {
    (c as u32 - '0' as u32) as nat
}

/// The number that a string of decimal digits denotes.
pub open spec fn digits_value(d: Seq<char>) -> nat
    decreases d.len(),
{
    if d.len() == 0 {
        0
    } else {
        digits_value(d.drop_last()) * 10 + digit_value(d.last())
    }
}

/// The first position at or after `i` that does not hold whitespace.
pub open spec fn skip_ws(l: Seq<char>, i: int) -> int
    decreases l.len() - i,
{
    if 0 <= i < l.len() && is_ws(l[i]) {
        skip_ws(l, i + 1)
    } else {
        i
    }
}

/// The first position at or after `i` that does not hold a digit.
pub open spec fn digits_end(l: Seq<char>, i: int) -> int
    decreases l.len() - i,
{
    if 0 <= i < l.len() && is_digit(l[i]) {
        digits_end(l, i + 1)
    } else {
        i
    }
}

/// The position of the quote that closes a string whose contents start at
/// `i`, skipping escaped characters; -1 if there is none.
pub open spec fn str_close(l: Seq<char>, i: int) -> int
    decreases l.len() - i,
{
    if i < 0 || i >= l.len() {
        -1
    } else if l[i] == '"' {
        i
    } else if l[i] == '\\' {
        if i + 1 < l.len() {
            str_close(l, i + 2)
        } else {
            -1
        }
    } else {
        str_close(l, i + 1)
    }
}

/// After optional whitespace, the character `c`; the position after it.
pub open spec fn punct_after(l: Seq<char>, i: int, c: char) -> Option<int> {
    let j = skip_ws(l, i);
    if 0 <= j < l.len() && l[j] == c {
        Some(j + 1)
    } else {
        None
    }
}

/// After optional whitespace, the quoted `key` and a colon; the position after it.
pub open spec fn key_after(l: Seq<char>, i: int, key: Seq<char>) -> Option<int> {
    let j = skip_ws(l, i);
    if 0 <= j && j + key.len() <= l.len() && l.subrange(j, j + key.len()) == key {
        punct_after(l, j + key.len(), ':')
    } else {
        None
    }
}

/// After optional whitespace, a string literal; where it starts and ends.
pub open spec fn string_after(l: Seq<char>, i: int) -> Option<(int, int)> {
    let j = skip_ws(l, i);
    if 0 <= j < l.len() && l[j] == '"' {
        let k = str_close(l, j + 1);
        if k >= 0 {
            Some((j, k + 1))
        } else {
            None
        }
    } else {
        None
    }
}

/// After optional whitespace, an unsigned integer without leading zeros that
/// fits in 64 bits; its value and the position after it.
pub open spec fn number_after(l: Seq<char>, i: int) -> Option<(u64, int)> {
    let j = skip_ws(l, i);
    let k = digits_end(l, j);
    if k == j || (l[j] == '0' && k > j + 1) || digits_value(l.subrange(j, k)) > u64::MAX {
        None
    } else {
        Some((digits_value(l.subrange(j, k)) as u64, k))
    }
}

/// A field whose value is a string literal: the literal and the position after it.
pub open spec fn str_field(l: Seq<char>, i: int, key: Seq<char>) -> Option<(Seq<char>, int)> {
    match key_after(l, i, key) {
        None => None,
        Some(a) => match string_after(l, a) {
            None => None,
            Some((s, e)) => Some((l.subrange(s, e), e)),
        },
    }
}

/// The parts of a record line, string literals still quoted.
pub struct RawRecord {
    pub from: Seq<char>,
    pub to: Seq<char>,
    pub value: u64,
    pub data: Seq<char>,
}

/// The parts of a well-formed record line, or `None`.
pub open spec fn record_syntax(l: Seq<char>) -> Option<RawRecord> {
    match punct_after(l, 0, '{') {
        None => None,
        Some(a) => match str_field(l, a, "\"from\""@) {
            None => None,
            Some((f, b)) => match punct_after(l, b, ',') {
                None => None,
                Some(c) => match str_field(l, c, "\"to\""@) {
                    None => None,
                    Some((t, d)) => match punct_after(l, d, ',') {
                        None => None,
                        Some(e) => match key_after(l, e, "\"value\""@) {
                            None => None,
                            Some(g) => match number_after(l, g) {
                                None => None,
                                Some((v, h)) => match punct_after(l, h, ',') {
                                    None => None,
                                    Some(m) => match str_field(l, m, "\"data\""@) {
                                        None => None,
                                        Some((dt, n)) => match punct_after(l, n, '}') {
                                            None => None,
                                            Some(z) => if skip_ws(l, z) == l.len() {
                                                Some(RawRecord { from: f, to: t, value: v, data: dt })
                                            } else {
                                                None
                                            },
                                        },
                                    },
                                },
                            },
                        },
                    },
                },
            },
        },
    }
}

/// Line `l` is a record whose three string literals all decode.
pub open spec fn line_ok(l: Seq<char>) -> bool {
    &&& record_syntax(l) is Some
    &&& json_string_value(record_syntax(l)->Some_0.from) is Some
    &&& json_string_value(record_syntax(l)->Some_0.to) is Some
    &&& json_string_value(record_syntax(l)->Some_0.data) is Some
}

/// Line `l` is a record of transaction `t`.
pub open spec fn decodes_to(l: Seq<char>, t: TxModel) -> bool {
    &&& line_ok(l)
    &&& t.from == json_string_value(record_syntax(l)->Some_0.from)->Some_0
    &&& t.to == json_string_value(record_syntax(l)->Some_0.to)->Some_0
    &&& t.value == record_syntax(l)->Some_0.value
    &&& t.data == json_string_value(record_syntax(l)->Some_0.data)->Some_0
}

fn skip_ws_exec(l: &Vec<char>, i: usize) -> (r: usize)
    requires
        i <= l@.len(),
    ensures
        r == skip_ws(l@, i as int),
        i <= r <= l@.len(),
{
    let mut j = i;
    while j < l.len() && (l[j] == ' ' || l[j] == '\t' || l[j] == '\n' || l[j] == '\r')
        invariant
            i <= j <= l@.len(),
            skip_ws(l@, i as int) == skip_ws(l@, j as int),
        decreases l@.len() - j,
    {
        j = j + 1;
    }
    j
}

fn punct_exec(l: &Vec<char>, i: usize, c: char) -> (r: Option<usize>)
    requires
        i <= l@.len(),
    ensures
        r is None <==> punct_after(l@, i as int, c) is None,
        r matches Some(k) ==> k <= l@.len() && punct_after(l@, i as int, c) == Some(k as int),
{
    let j = skip_ws_exec(l, i);
    if j < l.len() && l[j] == c {
        Some(j + 1)
    } else {
        None
    }
}

fn key_exec(l: &Vec<char>, i: usize, key: &Vec<char>) -> (r: Option<usize>)
    requires
        i <= l@.len(),
    ensures
        r is None <==> key_after(l@, i as int, key@) is None,
        r matches Some(k) ==> k <= l@.len() && key_after(l@, i as int, key@) == Some(k as int),
{
    let j = skip_ws_exec(l, i);
    if key.len() > l.len() - j {
        return None;
    }
    assert(l@.len() <= usize::MAX);
    let mut k: usize = 0;
    while k < key.len()
        invariant
            j <= l@.len(),
            j == skip_ws(l@, i as int),
            l@.len() <= usize::MAX,
            j + key@.len() <= l@.len(),
            k <= key@.len(),
            forall|m: int| 0 <= m < k ==> l@[j + m] == key@[m],
        decreases key@.len() - k,
    {
        if l[j + k] != key[k] {
            assert(l@.subrange(j as int, j + key@.len())[k as int] != key@[k as int]);
            return None;
        }
        k = k + 1;
    }
    assert(l@.subrange(j as int, j + key@.len()) =~= key@);
    punct_exec(l, j + key.len(), ':')
}

fn string_exec(l: &Vec<char>, i: usize) -> (r: Option<(usize, usize)>)
    requires
        i <= l@.len(),
    ensures
        r is None <==> string_after(l@, i as int) is None,
        r matches Some((s, e)) ==> s < e <= l@.len() && string_after(l@, i as int) == Some(
            (s as int, e as int),
        ),
{
    let j = skip_ws_exec(l, i);
    if j >= l.len() || l[j] != '"' {
        return None;
    }
    let mut k = j + 1;
    while k < l.len() && l[k] != '"'
        invariant
            j < k <= l@.len(),
            j < l@.len(),
            j == skip_ws(l@, i as int),
            l@[j as int] == '"',
            str_close(l@, j + 1) == str_close(l@, k as int),
        decreases l@.len() - k,
    {
        if l[k] == '\\' {
            if k + 1 < l.len() {
                k = k + 2;
            } else {
                return None;
            }
        } else {
            k = k + 1;
        }
    }
    if k >= l.len() {
        None
    } else {
        Some((j, k + 1))
    }
}

fn number_exec(l: &Vec<char>, i: usize) -> (r: Option<(u64, usize)>)
    requires
        i <= l@.len(),
    ensures
        r is None <==> number_after(l@, i as int) is None,
        r matches Some((v, e)) ==> e <= l@.len() && number_after(l@, i as int) == Some(
            (v, e as int),
        ),
{
    let j = skip_ws_exec(l, i);
    let mut k = j;
    let mut v: u64 = 0;
    let mut overflow = false;
    while k < l.len() && '0' <= l[k] && l[k] <= '9'
        invariant
            j <= k <= l@.len(),
            digits_end(l@, j as int) == digits_end(l@, k as int),
            forall|m: int| j <= m < k ==> is_digit(#[trigger] l@[m]),
            !overflow ==> v == digits_value(l@.subrange(j as int, k as int)),
            overflow ==> digits_value(l@.subrange(j as int, k as int)) > u64::MAX,
        decreases l@.len() - k,
    {
        let d = (l[k] as u32 - '0' as u32) as u64;
        let ghost before = digits_value(l@.subrange(j as int, k as int));
        assert(l@.subrange(j as int, k + 1).drop_last() =~= l@.subrange(j as int, k as int));
        assert(digits_value(l@.subrange(j as int, k + 1)) == before * 10 + d);
        if !overflow {
            if v > (u64::MAX - d) / 10 {
                overflow = true;
                assert(before * 10 + d > u64::MAX) by (nonlinear_arith)
                    requires
                        before == v,
                        v > (u64::MAX - d) / 10,
                        d <= 9,
                ;
            } else {
                assert(v * 10 + d <= u64::MAX) by (nonlinear_arith)
                    requires
                        v <= (u64::MAX - d) / 10,
                        d <= 9,
                ;
                v = v * 10 + d;
            }
        } else {
            assert(before * 10 + d > u64::MAX) by (nonlinear_arith)
                requires
                    before > u64::MAX,
            ;
        }
        k = k + 1;
    }
    if k == j || (l[j] == '0' && k > j + 1) || overflow {
        None
    } else {
        Some((v, k))
    }
}

fn str_field_exec(l: &Vec<char>, i: usize, key: &Vec<char>) -> (r: Option<(String, usize)>)
    requires
        i <= l@.len(),
    ensures
        r is None <==> str_field(l@, i as int, key@) is None,
        r matches Some((s, e)) ==> e <= l@.len() && str_field(l@, i as int, key@) == Some(
            (s@, e as int),
        ),
{
    let a = key_exec(l, i, key)?;
    let (s, e) = string_exec(l, a)?;
    let mut token: Vec<char> = Vec::new();
    let mut m = s;
    while m < e
        invariant
            s <= m <= e <= l@.len(),
            token@ == l@.subrange(s as int, m as int),
        decreases e - m,
    {
        token.push(l[m]);
        m = m + 1;
    }
    Some((string_from_chars(&token), e))
}

/// The transaction that a log line records. `None` when the line is not a
/// well-formed record, or when a string literal in it does not decode.
pub fn parse_record(l: &Vec<char>) -> (r: Option<Tx>)
    ensures
        r is Some <==> line_ok(l@),
        r matches Some(t) ==> decodes_to(l@, t@),
{
    let k_from = chars_of("\"from\"");
    let k_to = chars_of("\"to\"");
    let k_value = chars_of("\"value\"");
    let k_data = chars_of("\"data\"");
    let a = punct_exec(l, 0, '{')?;
    let (f, b) = str_field_exec(l, a, &k_from)?;
    let c = punct_exec(l, b, ',')?;
    let (t, d) = str_field_exec(l, c, &k_to)?;
    let e = punct_exec(l, d, ',')?;
    let g = key_exec(l, e, &k_value)?;
    let (v, h) = number_exec(l, g)?;
    let m = punct_exec(l, h, ',')?;
    let (dt, n) = str_field_exec(l, m, &k_data)?;
    let z = punct_exec(l, n, '}')?;
    if skip_ws_exec(l, z) != l.len() {
        return None;
    }
    let from = match decode_json_string(f.as_str()) {
        Ok(s) => s,
        Err(_) => return None,
    };
    let to = match decode_json_string(t.as_str()) {
        Ok(s) => s,
        Err(_) => return None,
    };
    let data = match decode_json_string(dt.as_str()) {
        Ok(s) => s,
        Err(_) => return None,
    };
    Some(Tx { from, to, value: v, data })
}

pub open spec fn digit_char(d: nat) -> char {
    seq!['0', '1', '2', '3', '4', '5', '6', '7', '8', '9'][d as int]
}

/// The decimal digits of `n`, without leading zeros.
pub open spec fn decimal(n: nat) -> Seq<char>
    decreases n,
{
    if n < 10 {
        seq![digit_char(n)]
    } else {
        decimal(n / 10).push(digit_char(n % 10))
    }
}

/// A record line built from the JSON literals of its three strings.
pub open spec fn record_shape(
    from_lit: Seq<char>,
    to_lit: Seq<char>,
    value: u64,
    data_lit: Seq<char>,
) -> Seq<char> {
    "{\"from\":"@ + from_lit + ",\"to\":"@ + to_lit + ",\"value\":"@ + decimal(value as nat)
        + ",\"data\":"@ + data_lit + "}"@
}

/// The record line of transaction `t`.
pub open spec fn record_text(t: TxModel) -> Seq<char> {
    record_shape(json_quote(t.from), json_quote(t.to), t.value, json_quote(t.data))
}

fn push_decimal(n: u64, out: &mut Vec<char>)
    ensures
        final(out)@ == old(out)@ + decimal(n as nat),
    decreases n,
{
    let digits: Vec<char> = vec!['0', '1', '2', '3', '4', '5', '6', '7', '8', '9'];
    assert(digits@ == seq!['0', '1', '2', '3', '4', '5', '6', '7', '8', '9']);
    if n >= 10 {
        push_decimal(n / 10, out);
    }
    out.push(digits[(n % 10) as usize]);
    assert(out@ =~= old(out)@ + decimal(n as nat));
}

/// The record line whose string fields are written by the given JSON
/// literals.
pub fn frame_record(from_lit: &str, to_lit: &str, value: u64, data_lit: &str) -> (r: String)
    ensures
        r@ == record_shape(from_lit@, to_lit@, value, data_lit@),
{
    let mut digits: Vec<char> = Vec::new();
    push_decimal(value, &mut digits);
    assert(digits@ =~= decimal(value as nat));
    let digits = string_from_chars(&digits);
    let mut r = String::from_str("{\"from\":");
    r.append(from_lit);
    r.append(",\"to\":");
    r.append(to_lit);
    r.append(",\"value\":");
    r.append(digits.as_str());
    r.append(",\"data\":");
    r.append(data_lit);
    r.append("}");
    r
}

/// The record line of `t`.
pub fn encode_record(t: &Tx) -> (r: Result<String, serde_json::Error>)
    ensures
        r matches Ok(s) && s@ == record_text(t@),
{
    let from_lit = encode_json_string(t.from.as_str())?;
    let to_lit = encode_json_string(t.to.as_str())?;
    let data_lit = encode_json_string(t.data.as_str())?;
    Ok(frame_record(from_lit.as_str(), to_lit.as_str(), t.value, data_lit.as_str()))
}

/// A written character never closes the literal early: scanning its
/// escape leaves the scan where the escape ends.
proof fn lemma_escape_unit(l: Seq<char>, q: int, c: char)
    requires
        0 <= q,
        q + json_escape(c).len() <= l.len(),
        l.subrange(q, q + json_escape(c).len()) == json_escape(c),
    ensures
        str_close(l, q) == str_close(l, q + json_escape(c).len()),
{
    let u = json_escape(c);
    assert(l[q] == u[0]);
    if u.len() == 2 {
        assert(l[q] == '\\');
    } else if u.len() == 6 {
        let n = (c as u32) as int;
        assert(0 <= n / 16 < 16 && 0 <= n % 16 < 16);
        assert(l[q + 2] == u[2] && l[q + 3] == u[3] && l[q + 4] == u[4] && l[q + 5] == u[5]);
        assert(str_close(l, q + 5) == str_close(l, q + 6));
        assert(str_close(l, q + 4) == str_close(l, q + 5));
        assert(str_close(l, q + 3) == str_close(l, q + 4));
        assert(str_close(l, q + 2) == str_close(l, q + 3));
    }
}

/// Scanning the escaped text of a string never stops inside it.
proof fn lemma_escaped_scan(l: Seq<char>, p: int, s: Seq<char>)
    requires
        0 <= p,
        p + json_escaped(s).len() <= l.len(),
        l.subrange(p, p + json_escaped(s).len()) == json_escaped(s),
    ensures
        str_close(l, p) == str_close(l, p + json_escaped(s).len()),
    decreases s.len(),
{
    if s.len() > 0 {
        let e0 = json_escaped(s.drop_last());
        let u = json_escape(s.last());
        assert(json_escaped(s) == e0 + u);
        assert(l.subrange(p, p + e0.len()) =~= e0) by {
            assert forall|i: int| 0 <= i < e0.len() implies l.subrange(p, p + e0.len())[i] == e0[i] by {
                assert(l.subrange(p, p + json_escaped(s).len())[i] == json_escaped(s)[i]);
            }
        }
        assert(l.subrange(p + e0.len(), p + e0.len() + u.len()) =~= u) by {
            assert forall|i: int| 0 <= i < u.len() implies l.subrange(
                p + e0.len(),
                p + e0.len() + u.len(),
            )[i] == u[i] by {
                assert(l.subrange(p, p + json_escaped(s).len())[e0.len() + i] == json_escaped(s)[e0.len()
                    + i]);
            }
        }
        lemma_escaped_scan(l, p, s.drop_last());
        lemma_escape_unit(l, p + e0.len(), s.last());
    }
}

/// A literal written at position `p` is read back as one string token.
proof fn lemma_quote_scan(l: Seq<char>, p: int, s: Seq<char>)
    requires
        0 <= p,
        p + json_quote(s).len() <= l.len(),
        l.subrange(p, p + json_quote(s).len()) == json_quote(s),
    ensures
        string_after(l, p) == Some((p, p + json_quote(s).len())),
{
    let q = json_quote(s);
    let e = json_escaped(s);
    assert(l[p] == q[0]);
    assert(l[p + 1 + e.len()] == q[1 + e.len() as int]);
    assert(l.subrange(p + 1, p + 1 + e.len()) =~= e) by {
        assert forall|i: int| 0 <= i < e.len() implies l.subrange(p + 1, p + 1 + e.len())[i] == e[i] by {
            assert(l.subrange(p, p + q.len())[1 + i] == q[1 + i]);
        }
    }
    lemma_escaped_scan(l, p + 1, s);
}

proof fn lemma_digit_char(k: nat)
    requires
        k < 10,
    ensures
        is_digit(digit_char(k)),
        digit_value(digit_char(k)) == k,
        digit_char(k) == '0' <==> k == 0,
{
    let t = seq!['0', '1', '2', '3', '4', '5', '6', '7', '8', '9'];
    assert(digit_char(k) == t[k as int]);
    if k == 0 {} else if k == 1 {} else if k == 2 {} else if k == 3 {} else if k == 4 {
    } else if k == 5 {} else if k == 6 {} else if k == 7 {} else if k == 8 {} else {}
}

/// The decimal digits of `n` are digits, denote `n`, and have no leading zero.
proof fn lemma_decimal(n: nat)
    ensures
        decimal(n).len() >= 1,
        forall|i: int| 0 <= i < decimal(n).len() ==> is_digit(#[trigger] decimal(n)[i]),
        digits_value(decimal(n)) == n,
        decimal(n)[0] == '0' ==> decimal(n).len() == 1,
    decreases n,
{
    if n >= 10 {
        lemma_decimal(n / 10);
        lemma_digit_char(n % 10);
        let d = decimal(n / 10);
        assert(decimal(n) == d.push(digit_char(n % 10)));
        assert(decimal(n).drop_last() =~= d);
        assert(decimal(n).last() == digit_char(n % 10));
        assert(digits_value(decimal(n)) == digits_value(d) * 10 + digit_value(digit_char(n % 10)));
        assert((n / 10) * 10 + n % 10 == n) by (nonlinear_arith);
        assert(decimal(n)[0] == d[0]);
        if decimal(n)[0] == '0' {
            assert(d.len() == 1);
            assert(d.drop_last() =~= Seq::<char>::empty());
            assert(digits_value(d.drop_last()) == 0);
            assert(d.last() == d[0]);
            assert(digits_value(d) == digit_value(d[0]));
            assert(n / 10 >= 1);
        }
    } else {
        lemma_digit_char(n);
        assert(decimal(n).drop_last() =~= Seq::<char>::empty());
        assert(digits_value(decimal(n).drop_last()) == 0);
        assert(decimal(n).last() == decimal(n)[0]);
        assert(digits_value(decimal(n)) == digit_value(decimal(n)[0]));
    }
}

/// A run of digits is scanned to its end.
proof fn lemma_digits_run(l: Seq<char>, p: int, q: int)
    requires
        0 <= p <= q <= l.len(),
        forall|i: int| p <= i < q ==> is_digit(#[trigger] l[i]),
    ensures
        digits_end(l, p) == digits_end(l, q),
    decreases q - p,
{
    if p < q {
        lemma_digits_run(l, p + 1, q);
    }
}

/// Splits the front of `l` that is `a + b` into its two parts.
proof fn lemma_peel(l: Seq<char>, o: int, a: Seq<char>, b: Seq<char>)
    requires
        0 <= o <= l.len(),
        l.subrange(0, o) == a + b,
    ensures
        l.subrange(0, a.len() as int) == a,
        l.subrange(a.len() as int, o) == b,
{
    assert(l.subrange(0, o).len() == o);
    assert(a.len() + b.len() == o);
    assert(l.subrange(0, a.len() as int) =~= a) by {
        assert forall|i: int| 0 <= i < a.len() implies l.subrange(0, a.len() as int)[i] == a[i] by {
            assert(l.subrange(0, o)[i] == (a + b)[i]);
        }
    }
    assert(l.subrange(a.len() as int, o) =~= b) by {
        assert forall|i: int| 0 <= i < b.len() implies l.subrange(a.len() as int, o)[i] == b[i] by {
            let k = a.len() + i;
            assert(l.subrange(0, o)[k] == (a + b)[k]);
            assert((a + b)[k] == b[i]);
            assert(l.subrange(0, o)[k] == l[k]);
        }
    }
}

/// The characters of a piece found at position `o` of `l`.
proof fn lemma_piece_at(l: Seq<char>, o: int, p: Seq<char>, i: int)
    requires
        0 <= o,
        o + p.len() <= l.len(),
        l.subrange(o, o + p.len()) == p,
        0 <= i < p.len(),
    ensures
        l[o + i] == p[i],
{
    assert(l.subrange(o, o + p.len())[i] == p[i]);
}

/// The parser reads a line laid out as a record back into its parts.
proof fn lemma_parse_layout(
    l: Seq<char>,
    q1: Seq<char>,
    q2: Seq<char>,
    d: Seq<char>,
    q3: Seq<char>,
    s1: Seq<char>,
    s2: Seq<char>,
    s3: Seq<char>,
    v: u64,
    n1: int,
    n2: int,
    nd: int,
    n3: int,
)
    requires
        q1 == json_quote(s1),
        q2 == json_quote(s2),
        q3 == json_quote(s3),
        d == decimal(v as nat),
        n1 == q1.len(),
        n2 == q2.len(),
        nd == d.len(),
        n3 == q3.len(),
        l.len() == 8 + n1 + 6 + n2 + 9 + nd + 8 + n3 + 1,
        l.subrange(0, 8) == seq!['{', '"', 'f', 'r', 'o', 'm', '"', ':'],
        l.subrange(8, 8 + n1) == q1,
        l.subrange(8 + n1, 8 + n1 + 6) == seq![',', '"', 't', 'o', '"', ':'],
        l.subrange(14 + n1, 14 + n1 + n2) == q2,
        l.subrange(14 + n1 + n2, 23 + n1 + n2) == seq![
            ',',
            '"',
            'v',
            'a',
            'l',
            'u',
            'e',
            '"',
            ':',
        ],
        l.subrange(23 + n1 + n2, 23 + n1 + n2 + nd) == d,
        l.subrange(23 + n1 + n2 + nd, 31 + n1 + n2 + nd)
            == seq![',', '"', 'd', 'a', 't', 'a', '"', ':'],
        l.subrange(31 + n1 + n2 + nd, 31 + n1 + n2 + nd + n3)
            == q3,
        l[l.len() - 1] == '}',
    ensures
        record_syntax(l) == Some(RawRecord { from: q1, to: q2, value: v, data: q3 }),
{
    reveal_strlit("\"from\"");
    reveal_strlit("\"to\"");
    reveal_strlit("\"value\"");
    reveal_strlit("\"data\"");
    let kf = "\"from\""@;
    let kt = "\"to\""@;
    let kv = "\"value\""@;
    let kd = "\"data\""@;
    assert(kf =~= seq!['"', 'f', 'r', 'o', 'm', '"']);
    assert(kt =~= seq!['"', 't', 'o', '"']);
    assert(kv =~= seq!['"', 'v', 'a', 'l', 'u', 'e', '"']);
    assert(kd =~= seq!['"', 'd', 'a', 't', 'a', '"']);
    let e1: int = 8 + q1.len() as int;
    let e2: int = e1 + 6 + q2.len();
    let e3: int = e2 + 9 + d.len();
    let e4: int = e3 + 8 + q3.len();
    let pf = seq!['{', '"', 'f', 'r', 'o', 'm', '"', ':'];
    let pt = seq![',', '"', 't', 'o', '"', ':'];
    let pv = seq![',', '"', 'v', 'a', 'l', 'u', 'e', '"', ':'];
    let pd = seq![',', '"', 'd', 'a', 't', 'a', '"', ':'];
    lemma_decimal(v as nat);
    // `{` and the first field
    lemma_piece_at(l, 0, pf, 0);
    lemma_piece_at(l, 0, pf, 1);
    lemma_piece_at(l, 0, pf, 7);
    assert(l.subrange(1, 7) =~= kf) by {
        assert forall|i: int| 0 <= i < 6 implies l.subrange(1, 7)[i] == kf[i] by {
            lemma_piece_at(l, 0, pf, i + 1);
        }
    }
    assert(key_after(l, 1, kf) == Some(8int));
    lemma_quote_scan(l, 8, s1);
    assert(str_field(l, 1, kf) == Some((q1, e1)));
    // the second field
    lemma_piece_at(l, e1, pt, 0);
    lemma_piece_at(l, e1, pt, 1);
    lemma_piece_at(l, e1, pt, 5);
    assert(l.subrange(e1 + 1, e1 + 5) =~= kt) by {
        assert forall|i: int| 0 <= i < 4 implies l.subrange(e1 + 1, e1 + 5)[i] == kt[i] by {
            lemma_piece_at(l, e1, pt, i + 1);
        }
    }
    assert(key_after(l, e1 + 1, kt) == Some(e1 + 6));
    lemma_quote_scan(l, e1 + 6, s2);
    assert(str_field(l, e1 + 1, kt) == Some((q2, e2)));
    // the value
    lemma_piece_at(l, e2, pv, 0);
    lemma_piece_at(l, e2, pv, 1);
    lemma_piece_at(l, e2, pv, 8);
    assert(l.subrange(e2 + 1, e2 + 8) =~= kv) by {
        assert forall|i: int| 0 <= i < 7 implies l.subrange(e2 + 1, e2 + 8)[i] == kv[i] by {
            lemma_piece_at(l, e2, pv, i + 1);
        }
    }
    assert(key_after(l, e2 + 1, kv) == Some(e2 + 9));
    assert forall|i: int| e2 + 9 <= i < e3 implies is_digit(#[trigger] l[i]) by {
        lemma_piece_at(l, e2 + 9, d, i - (e2 + 9));
    }
    lemma_piece_at(l, e2 + 9, d, 0);
    lemma_digits_run(l, e2 + 9, e3);
    lemma_piece_at(l, e3, pd, 0);
    assert(digits_end(l, e3) == e3);
    assert(skip_ws(l, e2 + 9) == e2 + 9);
    assert(l.subrange(e2 + 9, e3) == d);
    assert(number_after(l, e2 + 9) == Some((v, e3)));
    // the last field and the closing brace
    lemma_piece_at(l, e3, pd, 1);
    lemma_piece_at(l, e3, pd, 7);
    assert(l.subrange(e3 + 1, e3 + 7) =~= kd) by {
        assert forall|i: int| 0 <= i < 6 implies l.subrange(e3 + 1, e3 + 7)[i] == kd[i] by {
            lemma_piece_at(l, e3, pd, i + 1);
        }
    }
    assert(key_after(l, e3 + 1, kd) == Some(e3 + 8));
    lemma_quote_scan(l, e3 + 8, s3);
    assert(str_field(l, e3 + 1, kd) == Some((q3, e4)));
    assert(punct_after(l, e4, '}') == Some(e4 + 1));
}

/// Every record line that is written reads back as a record whose parts are
/// exactly the literals written for its three strings, and its value.
#[verifier::rlimit(50)]
pub proof fn law_record_text_parses(t: TxModel)
    ensures
        record_syntax(record_text(t)) == Some(
            RawRecord {
                from: json_quote(t.from),
                to: json_quote(t.to),
                value: t.value,
                data: json_quote(t.data),
            },
        ),
{
    reveal_strlit("{\"from\":");
    reveal_strlit(",\"to\":");
    reveal_strlit(",\"value\":");
    reveal_strlit(",\"data\":");
    reveal_strlit("}");
    let p0 = "{\"from\":"@;
    let p1 = ",\"to\":"@;
    let p2 = ",\"value\":"@;
    let p3 = ",\"data\":"@;
    let p4 = "}"@;
    assert(p0 =~= seq!['{', '"', 'f', 'r', 'o', 'm', '"', ':']);
    assert(p1 =~= seq![',', '"', 't', 'o', '"', ':']);
    assert(p2 =~= seq![',', '"', 'v', 'a', 'l', 'u', 'e', '"', ':']);
    assert(p3 =~= seq![',', '"', 'd', 'a', 't', 'a', '"', ':']);
    assert(p4 =~= seq!['}']);
    let q1 = json_quote(t.from);
    let q2 = json_quote(t.to);
    let q3 = json_quote(t.data);
    let d = decimal(t.value as nat);
    let x2 = p0 + q1;
    let x3 = x2 + p1;
    let x4 = x3 + q2;
    let x5 = x4 + p2;
    let x6 = x5 + d;
    let x7 = x6 + p3;
    let x8 = x7 + q3;
    let l = record_text(t);
    assert(l == x8 + p4);
    assert(l.subrange(0, l.len() as int) =~= l);
    lemma_peel(l, l.len() as int, x8, p4);
    lemma_peel(l, x8.len() as int, x7, q3);
    lemma_peel(l, x7.len() as int, x6, p3);
    lemma_peel(l, x6.len() as int, x5, d);
    lemma_peel(l, x5.len() as int, x4, p2);
    lemma_peel(l, x4.len() as int, x3, q2);
    lemma_peel(l, x3.len() as int, x2, p1);
    lemma_peel(l, x2.len() as int, p0, q1);
    lemma_piece_at(l, x8.len() as int, p4, 0);
    let n1 = q1.len() as int;
    let n2 = q2.len() as int;
    let nd = d.len() as int;
    let n3 = q3.len() as int;
    assert(x2.len() == 8 + n1);
    assert(x3.len() == 14 + n1);
    assert(x4.len() == 14 + n1 + n2);
    assert(x5.len() == 23 + n1 + n2);
    assert(x6.len() == 23 + n1 + n2 + nd);
    assert(x7.len() == 31 + n1 + n2 + nd);
    assert(x8.len() == 31 + n1 + n2 + nd + n3);
    assert(l.len() == x8.len() + 1);
    lemma_parse_layout(
        l,
        q1,
        q2,
        d,
        q3,
        t.from,
        t.to,
        t.data,
        t.value,
        q1.len() as int,
        q2.len() as int,
        d.len() as int,
        q3.len() as int,
    );
}

} // verus!
