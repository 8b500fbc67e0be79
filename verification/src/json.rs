//! A small JSON model: values, a canonical text encoding, and a parser,
//! with a proof that parsing inverts encoding.
//!
//! Numbers are restricted to 64-bit integers, which is all the relay
//! protocol ever carries. The encoder writes the compact form with no
//! whitespace; inside strings it escapes only `"`, `\` and control
//! characters (the latter as `\u00XX`), and writes every other character
//! raw. The parser accepts that canonical form plus the usual two-character
//! escapes.

use vstd::prelude::*;

verus! {

use vstd::calc;
use vstd::string::StrSliceExecFns;

/// An in-memory JSON value.
#[derive(Debug, PartialEq)]
pub enum Json {
    Null,
    Bool(bool),
    Num(i64),
    Str(String),
    Arr(Vec<Json>),
    Obj(Vec<(String, Json)>),
}

/// The mathematical model of a JSON value.
pub enum JVal {
    Null,
    Bool(bool),
    Num(int),
    Str(Seq<char>),
    Arr(Seq<JVal>),
    Obj(Seq<(Seq<char>, JVal)>),
}

pub open spec fn jseq_view(s: Seq<Json>) -> Seq<JVal>
    decreases s,
{
    if s.len() == 0 {
        Seq::empty()
    } else {
        jseq_view(s.drop_last()).push(jview(s.last()))
    }
}

pub open spec fn jfields_view(s: Seq<(String, Json)>) -> Seq<(Seq<char>, JVal)>
    decreases s,
{
    if s.len() == 0 {
        Seq::empty()
    } else {
        jfields_view(s.drop_last()).push((s.last().0@, jview(s.last().1)))
    }
}

pub open spec fn jview(j: Json) -> JVal
    decreases j,
{
    match j {
        Json::Null => JVal::Null,
        Json::Bool(b) => JVal::Bool(b),
        Json::Num(n) => JVal::Num(n as int),
        Json::Str(s) => JVal::Str(s@),
        Json::Arr(v) => JVal::Arr(jseq_view(v@)),
        Json::Obj(v) => JVal::Obj(jfields_view(v@)),
    }
}

impl View for Json {
    type V = JVal;

    open spec fn view(&self) -> JVal {
        jview(*self)
    }
}

/// Every number in the value fits in an `i64`; holds of the view of any
/// `Json` value, and is what the parser can reproduce.
pub open spec fn jval_wf(v: JVal) -> bool
    decreases v, 0int,
{
    match v {
        JVal::Null => true,
        JVal::Bool(_) => true,
        JVal::Num(n) => i64::MIN <= n <= i64::MAX,
        JVal::Str(_) => true,
        JVal::Arr(elems) => jvals_wf(elems, 0),
        JVal::Obj(fields) => jfields_wf(fields, 0),
    }
}

pub open spec fn jvals_wf(elems: Seq<JVal>, k: int) -> bool
    decreases elems, elems.len() - k,
{
    k < 0 || k >= elems.len() || (jval_wf(elems[k]) && jvals_wf(elems, k + 1))
}

pub open spec fn jfields_wf(fields: Seq<(Seq<char>, JVal)>, k: int) -> bool
    decreases fields, fields.len() - k,
{
    k < 0 || k >= fields.len() || (jval_wf(fields[k].1) && jfields_wf(fields, k + 1))
}

// ---------------------------------------------------------------------------
// The canonical text encoding.
// ---------------------------------------------------------------------------

pub open spec fn is_digit(c: char) -> bool {
    '0' as u32 <= c as u32 <= '9' as u32
}

pub open spec fn digit_val(c: char) -> int {
    c as u32 - '0' as u32
}

pub open spec fn digit_char(d: int) -> char {
    (('0' as u32) + d) as char
}

pub open spec fn hex_char(d: int) -> char {
    if d < 10 {
        digit_char(d)
    } else {
        (('a' as u32) + (d - 10)) as char
    }
}

/// Decimal digits of `n`, most significant first.
pub open spec fn dec_digits(n: int) -> Seq<char>
    decreases n,
{
    if n < 10 {
        seq![digit_char(n)]
    } else {
        dec_digits(n / 10).push(digit_char(n % 10))
    }
}

pub open spec fn enc_int(n: int) -> Seq<char> {
    if n < 0 {
        seq!['-'] + dec_digits(-n)
    } else {
        dec_digits(n)
    }
}

/// Encoding of one character inside a string literal.
pub open spec fn enc_char(c: char) -> Seq<char> {
    if c == '"' {
        seq!['\\', '"']
    } else if c == '\\' {
        seq!['\\', '\\']
    } else if (c as u32) < 0x20 {
        seq!['\\', 'u', '0', '0', hex_char((c as u32) as int / 16), hex_char((c as u32) as int % 16)]
    } else {
        seq![c]
    }
}

/// Encoding of the body of a string literal, without the quotes.
pub open spec fn enc_str(s: Seq<char>) -> Seq<char>
    decreases s.len(),
{
    if s.len() == 0 {
        Seq::empty()
    } else {
        enc_str(s.drop_last()) + enc_char(s.last())
    }
}

/// The canonical text of a JSON value: compact, no whitespace.
pub open spec fn enc(v: JVal) -> Seq<char>
    decreases v, 0int,
{
    match v {
        JVal::Null => seq!['n', 'u', 'l', 'l'],
        JVal::Bool(b) => if b {
            seq!['t', 'r', 'u', 'e']
        } else {
            seq!['f', 'a', 'l', 's', 'e']
        },
        JVal::Num(n) => enc_int(n),
        JVal::Str(s) => seq!['"'] + enc_str(s) + seq!['"'],
        JVal::Arr(elems) => seq!['['] + enc_elems(elems, 0) + seq![']'],
        JVal::Obj(fields) => seq!['{'] + enc_fields(fields, 0) + seq!['}'],
    }
}

/// Comma-separated encodings of `elems[k..]`.
pub open spec fn enc_elems(elems: Seq<JVal>, k: int) -> Seq<char>
    decreases elems, elems.len() - k,
{
    if k < 0 || k >= elems.len() {
        Seq::empty()
    } else if k == elems.len() - 1 {
        enc(elems[k])
    } else {
        enc(elems[k]) + seq![','] + enc_elems(elems, k + 1)
    }
}

/// Encoding of one object member: a quoted key, a colon, and the value.
pub open spec fn enc_field(f: (Seq<char>, JVal)) -> Seq<char>
    decreases f, 0int,
{
    seq!['"'] + enc_str(f.0) + seq!['"', ':'] + enc(f.1)
}

/// Comma-separated encodings of `fields[k..]`.
pub open spec fn enc_fields(fields: Seq<(Seq<char>, JVal)>, k: int) -> Seq<char>
    decreases fields, fields.len() - k,
{
    if k < 0 || k >= fields.len() {
        Seq::empty()
    } else if k == fields.len() - 1 {
        enc_field(fields[k])
    } else {
        enc_field(fields[k]) + seq![','] + enc_fields(fields, k + 1)
    }
}

// ---------------------------------------------------------------------------
// The parser, as a mathematical function over positions in the text.
// Success carries the value read and the position just past it.
// ---------------------------------------------------------------------------

pub open spec fn is_hex(c: char) -> bool {
    is_digit(c) || 'a' as u32 <= c as u32 <= 'f' as u32
}

pub open spec fn hex_val(c: char) -> int {
    if is_digit(c) {
        digit_val(c)
    } else {
        c as u32 - 'a' as u32 + 10
    }
}

/// Reads decimal digits from `i` on, folding them onto `acc`; stops at the
/// first non-digit. Fails if the value would pass `bound`.
pub open spec fn sp_digits(s: Seq<char>, i: int, acc: int, bound: int) -> Option<(int, int)>
    decreases s.len() - i,
{
    if 0 <= i < s.len() && is_digit(s[i]) {
        if acc * 10 + digit_val(s[i]) > bound {
            None
        } else {
            sp_digits(s, i + 1, acc * 10 + digit_val(s[i]), bound)
        }
    } else {
        Some((acc, i))
    }
}

/// The largest magnitude a parsed number may have: one more than `i64::MAX`
/// when a minus sign was read, `i64::MAX` otherwise.
pub open spec fn num_bound(negative: bool) -> int {
    if negative {
        0x8000_0000_0000_0000
    } else {
        0x7fff_ffff_ffff_ffff
    }
}

/// Reads a number at `i` (an optional minus sign, then at least one digit).
pub open spec fn sp_num(s: Seq<char>, i: int) -> Option<(JVal, int)> {
    if 0 <= i < s.len() && s[i] == '-' {
        if i + 1 < s.len() && is_digit(s[i + 1]) {
            match sp_digits(s, i + 1, 0, num_bound(true)) {
                Some((m, j)) => Some((JVal::Num(-m), j)),
                None => None,
            }
        } else {
            None
        }
    } else if 0 <= i < s.len() && is_digit(s[i]) {
        match sp_digits(s, i, 0, num_bound(false)) {
            Some((m, j)) => Some((JVal::Num(m), j)),
            None => None,
        }
    } else {
        None
    }
}

/// Reads the body of a string literal starting at `i` (just past the opening
/// quote), accumulating the decoded characters onto `acc`; on success the
/// position is just past the closing quote.
pub open spec fn sp_str_body(s: Seq<char>, i: int, acc: Seq<char>) -> Option<(Seq<char>, int)>
    decreases s.len() - i,
{
    if i < 0 || i >= s.len() {
        None
    } else if s[i] == '"' {
        Some((acc, i + 1))
    } else if s[i] == '\\' {
        if i + 1 >= s.len() {
            None
        } else if s[i + 1] == '"' || s[i + 1] == '\\' || s[i + 1] == '/' {
            sp_str_body(s, i + 2, acc.push(s[i + 1]))
        } else if s[i + 1] == 'n' {
            sp_str_body(s, i + 2, acc.push('\n'))
        } else if s[i + 1] == 't' {
            sp_str_body(s, i + 2, acc.push('\t'))
        } else if s[i + 1] == 'r' {
            sp_str_body(s, i + 2, acc.push('\r'))
        } else if s[i + 1] == 'u' {
            if i + 6 <= s.len() && is_hex(s[i + 2]) && is_hex(s[i + 3]) && is_hex(s[i + 4])
                && is_hex(s[i + 5]) && hex_val(s[i + 2]) * 4096 + hex_val(s[i + 3]) * 256 + hex_val(
                s[i + 4],
            ) * 16 + hex_val(s[i + 5]) < 0x20 {
                sp_str_body(
                    s,
                    i + 6,
                    acc.push(
                        (hex_val(s[i + 2]) * 4096 + hex_val(s[i + 3]) * 256 + hex_val(s[i + 4]) * 16
                            + hex_val(s[i + 5])) as char,
                    ),
                )
            } else {
                None
            }
        } else {
            None
        }
    } else if (s[i] as u32) < 0x20 {
        None
    } else {
        sp_str_body(s, i + 1, acc.push(s[i]))
    }
}

/// Reads one JSON value at `i`.
pub open spec fn sp_value(s: Seq<char>, i: int) -> Option<(JVal, int)>
    decreases s.len() - i, 0int,
{
    if i < 0 || i >= s.len() {
        None
    } else if s[i] == 'n' {
        if s.len() - i >= 4 && s[i + 1] == 'u' && s[i + 2] == 'l' && s[i + 3] == 'l' {
            Some((JVal::Null, i + 4))
        } else {
            None
        }
    } else if s[i] == 't' {
        if s.len() - i >= 4 && s[i + 1] == 'r' && s[i + 2] == 'u' && s[i + 3] == 'e' {
            Some((JVal::Bool(true), i + 4))
        } else {
            None
        }
    } else if s[i] == 'f' {
        if s.len() - i >= 5 && s[i + 1] == 'a' && s[i + 2] == 'l' && s[i + 3] == 's' && s[i + 4]
            == 'e' {
            Some((JVal::Bool(false), i + 5))
        } else {
            None
        }
    } else if s[i] == '"' {
        match sp_str_body(s, i + 1, Seq::empty()) {
            Some((cs, j)) => Some((JVal::Str(cs), j)),
            None => None,
        }
    } else if s[i] == '[' {
        if i + 1 < s.len() && s[i + 1] == ']' {
            Some((JVal::Arr(Seq::empty()), i + 2))
        } else {
            match sp_elems(s, i + 1) {
                Some((elems, j)) => Some((JVal::Arr(elems), j)),
                None => None,
            }
        }
    } else if s[i] == '{' {
        if i + 1 < s.len() && s[i + 1] == '}' {
            Some((JVal::Obj(Seq::empty()), i + 2))
        } else {
            match sp_fields(s, i + 1) {
                Some((fields, j)) => Some((JVal::Obj(fields), j)),
                None => None,
            }
        }
    } else {
        sp_num(s, i)
    }
}

/// Reads a non-empty, comma-separated list of values at `i`, up to and past
/// the closing bracket.
pub open spec fn sp_elems(s: Seq<char>, i: int) -> Option<(Seq<JVal>, int)>
    decreases s.len() - i, 1int,
{
    match sp_value(s, i) {
        Some((v, j)) => if j <= i || j >= s.len() {
            None
        } else if s[j] == ',' {
            match sp_elems(s, j + 1) {
                Some((rest, k)) => Some((seq![v] + rest, k)),
                None => None,
            }
        } else if s[j] == ']' {
            Some((seq![v], j + 1))
        } else {
            None
        },
        None => None,
    }
}

/// Reads a non-empty, comma-separated list of object members at `i`, up to
/// and past the closing brace.
pub open spec fn sp_fields(s: Seq<char>, i: int) -> Option<(Seq<(Seq<char>, JVal)>, int)>
    decreases s.len() - i, 1int,
{
    if !(0 <= i < s.len() && s[i] == '"') {
        None
    } else {
        match sp_str_body(s, i + 1, Seq::empty()) {
            Some((key, j)) => if j <= i || !(j < s.len() && s[j] == ':') {
                None
            } else {
                match sp_value(s, j + 1) {
                    Some((v, k)) => if k <= j || k >= s.len() {
                        None
                    } else if s[k] == ',' {
                        match sp_fields(s, k + 1) {
                            Some((rest, m)) => Some((seq![(key, v)] + rest, m)),
                            None => None,
                        }
                    } else if s[k] == '}' {
                        Some((seq![(key, v)], k + 1))
                    } else {
                        None
                    },
                    None => None,
                }
            },
            None => None,
        }
    }
}

// ---------------------------------------------------------------------------
// Facts about the view helpers.
// ---------------------------------------------------------------------------

pub proof fn lemma_jseq_view(s: Seq<Json>)
    ensures
        jseq_view(s).len() == s.len(),
        forall|k: int| 0 <= k < s.len() ==> jseq_view(s)[k] == jview(s[k]),
    decreases s.len(),
{
    if s.len() > 0 {
        lemma_jseq_view(s.drop_last());
    }
}

pub proof fn lemma_jfields_view(s: Seq<(String, Json)>)
    ensures
        jfields_view(s).len() == s.len(),
        forall|k: int|
            0 <= k < s.len() ==> jfields_view(s)[k] == (s[k].0@, jview(s[k].1)),
    decreases s.len(),
{
    if s.len() > 0 {
        lemma_jfields_view(s.drop_last());
    }
}

// ---------------------------------------------------------------------------
// The executable encoder.
// ---------------------------------------------------------------------------

fn digit_to_char(d: u64) -> (c: char)
    requires
        d < 10,
    ensures
        c == digit_char(d as int),
{
    (('0' as u8) + (d as u8)) as char
}

fn hex_to_char(d: u32) -> (c: char)
    requires
        d < 16,
    ensures
        c == hex_char(d as int),
{
    if d < 10 {
        (('0' as u8) + (d as u8)) as char
    } else {
        (('a' as u8) + ((d - 10) as u8)) as char
    }
}

fn encode_digits(mag: u64, out: &mut Vec<char>)
    ensures
        final(out)@ == old(out)@ + dec_digits(mag as int),
    decreases mag,
{
    if mag < 10 {
        out.push(digit_to_char(mag));
    } else {
        encode_digits(mag / 10, out);
        out.push(digit_to_char(mag % 10));
    }
}

fn encode_num(n: i64, out: &mut Vec<char>)
    ensures
        final(out)@ == old(out)@ + enc_int(n as int),
{
    if n < 0 {
        out.push('-');
        let mag: u64 = if n == i64::MIN {
            9223372036854775808u64
        } else {
            (-n) as u64
        };
        assert(mag as int == -(n as int));
        encode_digits(mag, out);
    } else {
        encode_digits(n as u64, out);
    }
}

fn encode_char(c: char, out: &mut Vec<char>)
    ensures
        final(out)@ == old(out)@ + enc_char(c),
{
    if c == '"' {
        out.push('\\');
        out.push('"');
    } else if c == '\\' {
        out.push('\\');
        out.push('\\');
    } else {
        let code = c as u32;
        if code < 0x20 {
            out.push('\\');
            out.push('u');
            out.push('0');
            out.push('0');
            out.push(hex_to_char(code / 16));
            out.push(hex_to_char(code % 16));
        } else {
            out.push(c);
        }
    }
}

fn encode_str_body(s: &str, out: &mut Vec<char>)
    ensures
        final(out)@ == old(out)@ + enc_str(s@),
{
    let n = s.unicode_len();
    let mut i: usize = 0;
    while i < n
        invariant
            n == s@.len(),
            i <= n,
            out@ == old(out)@ + enc_str(s@.take(i as int)),
        decreases n - i,
    {
        let c = s.get_char(i);
        encode_char(c, out);
        proof {
            assert(s@.take(i + 1).drop_last() =~= s@.take(i as int));
            assert(s@.take(i + 1).last() == s@[i as int]);
        }
        i = i + 1;
    }
    proof {
        assert(s@.take(n as int) =~= s@);
    }
}

/// Appends the canonical text of `v` to `out`.
pub fn encode_value(v: &Json, out: &mut Vec<char>)
    ensures
        final(out)@ == old(out)@ + enc(v@),
    decreases v, 0int,
{
    match v {
        Json::Null => {
            out.push('n');
            out.push('u');
            out.push('l');
            out.push('l');
            assert(final(out)@ =~= old(out)@ + enc(v@));
        },
        Json::Bool(b) => {
            if *b {
                out.push('t');
                out.push('r');
                out.push('u');
                out.push('e');
            } else {
                out.push('f');
                out.push('a');
                out.push('l');
                out.push('s');
                out.push('e');
            }
            assert(final(out)@ =~= old(out)@ + enc(v@));
        },
        Json::Num(n) => {
            encode_num(*n, out);
        },
        Json::Str(s) => {
            out.push('"');
            encode_str_body(s.as_str(), out);
            out.push('"');
            assert(final(out)@ =~= old(out)@ + enc(v@));
        },
        Json::Arr(elems) => {
            proof {
                lemma_jseq_view(elems@);
            }
            out.push('[');
            let ghost ve: Seq<JVal> = jseq_view(elems@);
            let n = elems.len();
            let mut k: usize = 0;
            while k < n
                invariant
                    *v == Json::Arr(*elems),
                    n == elems@.len(),
                    ve == jseq_view(elems@),
                    ve.len() == n,
                    forall|m: int| 0 <= m < n ==> ve[m] == jview(elems@[m]),
                    k <= n,
                    k < n ==> out@ + enc_elems(ve, k as int) == old(out)@ + seq!['['] + enc_elems(
                        ve,
                        0,
                    ),
                    k == n && n > 0 ==> out@ == old(out)@ + seq!['['] + enc_elems(ve, 0),
                    k == n && n == 0 ==> out@ == old(out)@ + seq!['['],
                decreases n - k,
            {
                proof {
                    assert(decreases_to!(*v => v->Arr_0));
                    assert(v->Arr_0 == *elems);
                    assert(decreases_to!(*elems => elems@));
                    assert(decreases_to!(elems@ => elems@[k as int]));
                }
                encode_value(&elems[k], out);
                if k < n - 1 {
                    out.push(',');
                }
                k = k + 1;
            }
            out.push(']');
            assert(final(out)@ =~= old(out)@ + enc(v@));
        },
        Json::Obj(fields) => {
            proof {
                assert(decreases_to!(*v => v->Obj_0));
                assert(v->Obj_0 == *fields);
            }
            encode_obj(fields, out);
            assert(final(out)@ =~= old(out)@ + enc(v@));
        },
    }
}

/// Appends the canonical text of the object with the given members to `out`.
pub fn encode_obj(fields: &Vec<(String, Json)>, out: &mut Vec<char>)
    ensures
        final(out)@ == old(out)@ + enc(JVal::Obj(jfields_view(fields@))),
    decreases fields, 1int,
{
    proof {
        lemma_jfields_view(fields@);
    }
    out.push('{');
    let ghost vf: Seq<(Seq<char>, JVal)> = jfields_view(fields@);
    let n = fields.len();
    let mut k: usize = 0;
    while k < n
        invariant
            n == fields@.len(),
            vf == jfields_view(fields@),
            vf.len() == n,
            forall|m: int| 0 <= m < n ==> vf[m] == (fields@[m].0@, jview(fields@[m].1)),
            k <= n,
            k < n ==> out@ + enc_fields(vf, k as int) == old(out)@ + seq!['{'] + enc_fields(
                vf,
                0,
            ),
            k == n && n > 0 ==> out@ == old(out)@ + seq!['{'] + enc_fields(vf, 0),
            k == n && n == 0 ==> out@ == old(out)@ + seq!['{'],
        decreases n - k,
    {
        out.push('"');
        encode_str_body(fields[k].0.as_str(), out);
        out.push('"');
        out.push(':');
        proof {
            assert(decreases_to!(*fields => fields@));
            assert(decreases_to!(fields@ => fields@[k as int]));
            assert(decreases_to!(fields@[k as int] => fields@[k as int].1));
        }
        encode_value(&fields[k].1, out);
        proof {
            assert(enc_field(vf[k as int]) == seq!['"'] + enc_str(fields@[k as int].0@) + seq![
                '"',
                ':',
            ] + enc(jview(fields@[k as int].1)));
        }
        if k < n - 1 {
            out.push(',');
        }
        k = k + 1;
    }
    out.push('}');
    assert(final(out)@ =~= old(out)@ + enc(JVal::Obj(jfields_view(fields@))));
}

/// The canonical text of `v`.
pub fn to_text(v: &Json) -> (out: Vec<char>)
    ensures
        out@ == enc(v@),
{
    let mut out: Vec<char> = Vec::new();
    encode_value(v, &mut out);
    out
}

/// Reads a whole document: one value covering the entire text.
pub open spec fn sp_doc(s: Seq<char>) -> Option<JVal> {
    match sp_value(s, 0) {
        Some((v, j)) => if j == s.len() {
            Some(v)
        } else {
            None
        },
        None => None,
    }
}

// ---------------------------------------------------------------------------
// The executable parser.
// ---------------------------------------------------------------------------

/// Relies on `String::push`: appends exactly the given character.
pub assume_specification[ String::push ](s: &mut String, c: char)
    ensures
        final(s)@ == old(s)@.push(c),
;

fn is_digit_c(c: char) -> (b: bool)
    ensures
        b == is_digit(c),
{
    let u = c as u32;
    ('0' as u32) <= u && u <= ('9' as u32)
}

fn p_digits(s: &[char], i: usize, acc: u64, bound: u64) -> (r: Option<(u64, usize)>)
    requires
        i <= s@.len(),
        acc <= bound,
        9 <= bound <= 0x8000_0000_0000_0000,
    ensures
        match r {
            Some((m, j)) => sp_digits(s@, i as int, acc as int, bound as int) == Some(
                (m as int, j as int),
            ) && i <= j <= s@.len() && m <= bound && (i < s@.len() && is_digit(s@[i as int])
                ==> i < j),
            None => sp_digits(s@, i as int, acc as int, bound as int) is None,
        },
    decreases s@.len() - i,
{
    if i < s.len() && is_digit_c(s[i]) {
        let d: u64 = (s[i] as u32 - '0' as u32) as u64;
        assert(is_digit(s@[i as int]) && d == digit_val(s@[i as int]));
        if acc > (bound - d) / 10 {
            assert(acc * 10 + d > bound) by (nonlinear_arith)
                requires
                    acc > (bound - d) / 10,
                    d <= bound,
                    0 <= d,
            ;
            None
        } else {
            assert(acc * 10 + d <= bound) by (nonlinear_arith)
                requires
                    acc <= (bound - d) / 10,
                    d <= bound,
                    0 <= d,
            ;
            p_digits(s, i + 1, acc * 10 + d, bound)
        }
    } else {
        Some((acc, i))
    }
}

fn p_num(s: &[char], i: usize) -> (r: Option<(Json, usize)>)
    requires
        i <= s@.len(),
    ensures
        match r {
            Some((j, k)) => sp_num(s@, i as int) == Some((jview(j), k as int)) && i < k
                <= s@.len(),
            None => sp_num(s@, i as int) is None,
        },
{
    if i < s.len() && s[i] == '-' {
        if i + 1 < s.len() && is_digit_c(s[i + 1]) {
            match p_digits(s, i + 1, 0, 0x8000_0000_0000_0000u64) {
                Some((m, j)) => {
                    let n: i64 = if m == 0x8000_0000_0000_0000u64 {
                        i64::MIN
                    } else {
                        -(m as i64)
                    };
                    Some((Json::Num(n), j))
                },
                None => None,
            }
        } else {
            None
        }
    } else if i < s.len() && is_digit_c(s[i]) {
        match p_digits(s, i, 0, 0x7fff_ffff_ffff_ffffu64) {
            Some((m, j)) => Some((Json::Num(m as i64), j)),
            None => None,
        }
    } else {
        None
    }
}

fn hex_digit_val(c: char) -> (r: Option<u32>)
    ensures
        match r {
            Some(h) => is_hex(c) && h == hex_val(c) && h < 16,
            None => !is_hex(c),
        },
{
    let u = c as u32;
    if ('0' as u32) <= u && u <= ('9' as u32) {
        Some(u - '0' as u32)
    } else if ('a' as u32) <= u && u <= ('f' as u32) {
        Some(u - 'a' as u32 + 10)
    } else {
        None
    }
}

fn p_str_body(s: &[char], i: usize, acc: &mut String) -> (r: Option<usize>)
    requires
        i <= s@.len(),
    ensures
        match r {
            Some(j) => sp_str_body(s@, i as int, old(acc)@) == Some((final(acc)@, j as int)) && i
                < j <= s@.len(),
            None => sp_str_body(s@, i as int, old(acc)@) is None,
        },
    decreases s@.len() - i,
{
    if i >= s.len() {
        None
    } else if s[i] == '"' {
        Some(i + 1)
    } else if s[i] == '\\' {
        if i + 1 >= s.len() {
            None
        } else if s[i + 1] == '"' || s[i + 1] == '\\' || s[i + 1] == '/' {
            acc.push(s[i + 1]);
            p_str_body(s, i + 2, acc)
        } else if s[i + 1] == 'n' {
            acc.push('\n');
            p_str_body(s, i + 2, acc)
        } else if s[i + 1] == 't' {
            acc.push('\t');
            p_str_body(s, i + 2, acc)
        } else if s[i + 1] == 'r' {
            acc.push('\r');
            p_str_body(s, i + 2, acc)
        } else if s[i + 1] == 'u' {
            if s.len() - i >= 6 {
                let h0 = hex_digit_val(s[i + 2]);
                let h1 = hex_digit_val(s[i + 3]);
                let h2 = hex_digit_val(s[i + 4]);
                let h3 = hex_digit_val(s[i + 5]);
                match (h0, h1, h2, h3) {
                    (Some(a), Some(b), Some(c), Some(d)) => {
                        let code: u32 = a * 4096 + b * 256 + c * 16 + d;
                        if code < 0x20 {
                            acc.push((code as u8) as char);
                            p_str_body(s, i + 6, acc)
                        } else {
                            None
                        }
                    },
                    _ => None,
                }
            } else {
                None
            }
        } else {
            None
        }
    } else if (s[i] as u32) < 0x20 {
        None
    } else {
        acc.push(s[i]);
        p_str_body(s, i + 1, acc)
    }
}

fn p_value(s: &[char], i: usize) -> (r: Option<(Json, usize)>)
    requires
        i <= s@.len(),
    ensures
        match r {
            Some((j, k)) => sp_value(s@, i as int) == Some((jview(j), k as int)) && i < k
                <= s@.len(),
            None => sp_value(s@, i as int) is None,
        },
    decreases s@.len() - i, 0int,
{
    if i >= s.len() {
        None
    } else if s[i] == 'n' {
        if s.len() - i >= 4 && s[i + 1] == 'u' && s[i + 2] == 'l' && s[i + 3] == 'l' {
            Some((Json::Null, i + 4))
        } else {
            None
        }
    } else if s[i] == 't' {
        if s.len() - i >= 4 && s[i + 1] == 'r' && s[i + 2] == 'u' && s[i + 3] == 'e' {
            Some((Json::Bool(true), i + 4))
        } else {
            None
        }
    } else if s[i] == 'f' {
        if s.len() - i >= 5 && s[i + 1] == 'a' && s[i + 2] == 'l' && s[i + 3] == 's' && s[i + 4]
            == 'e' {
            Some((Json::Bool(false), i + 5))
        } else {
            None
        }
    } else if s[i] == '"' {
        let mut body = String::new();
        match p_str_body(s, i + 1, &mut body) {
            Some(j) => Some((Json::Str(body), j)),
            None => None,
        }
    } else if s[i] == '[' {
        if i + 1 < s.len() && s[i + 1] == ']' {
            assert(jseq_view(Seq::<Json>::empty()) =~= Seq::<JVal>::empty());
            Some((Json::Arr(Vec::new()), i + 2))
        } else {
            let mut elems: Vec<Json> = Vec::new();
            match p_elems(s, i + 1, &mut elems) {
                Some(j) => Some((Json::Arr(elems), j)),
                None => None,
            }
        }
    } else if s[i] == '{' {
        if i + 1 < s.len() && s[i + 1] == '}' {
            assert(jfields_view(Seq::<(String, Json)>::empty()) =~= Seq::<
                (Seq<char>, JVal),
            >::empty());
            Some((Json::Obj(Vec::new()), i + 2))
        } else {
            let mut fields: Vec<(String, Json)> = Vec::new();
            match p_fields(s, i + 1, &mut fields) {
                Some(j) => Some((Json::Obj(fields), j)),
                None => None,
            }
        }
    } else {
        p_num(s, i)
    }
}

fn p_elems(s: &[char], i: usize, out: &mut Vec<Json>) -> (r: Option<usize>)
    requires
        i <= s@.len(),
    ensures
        match r {
            Some(j) => sp_elems(s@, i as int) matches Some((es, jj)) && jj == j as int && i <= j
                <= s@.len() && jseq_view(final(out)@) == jseq_view(old(out)@) + es,
            None => sp_elems(s@, i as int) is None,
        },
    decreases s@.len() - i, 1int,
{
    match p_value(s, i) {
        Some((v, j)) => {
            if j <= i || j >= s.len() {
                return None;
            }
            proof {
                lemma_jseq_view_push(old(out)@, v);
            }
            if s[j] == ',' {
                out.push(v);
                match p_elems(s, j + 1, out) {
                    Some(k) => {
                        proof {
                            let es = sp_elems(s@, i as int).unwrap().0;
                            let rest = sp_elems(s@, j + 1).unwrap().0;
                            assert(jseq_view(final(out)@) =~= jseq_view(old(out)@) + es);
                        }
                        Some(k)
                    },
                    None => None,
                }
            } else if s[j] == ']' {
                out.push(v);
                proof {
                    assert(jseq_view(final(out)@) =~= jseq_view(old(out)@) + seq![jview(v)]);
                }
                Some(j + 1)
            } else {
                None
            }
        },
        None => None,
    }
}

fn p_fields(s: &[char], i: usize, out: &mut Vec<(String, Json)>) -> (r: Option<usize>)
    requires
        i <= s@.len(),
    ensures
        match r {
            Some(j) => sp_fields(s@, i as int) matches Some((fs, jj)) && jj == j as int && i <= j
                <= s@.len() && jfields_view(final(out)@) == jfields_view(old(out)@) + fs,
            None => sp_fields(s@, i as int) is None,
        },
    decreases s@.len() - i, 1int,
{
    if !(i < s.len() && s[i] == '"') {
        return None;
    }
    let mut key = String::new();
    match p_str_body(s, i + 1, &mut key) {
        Some(j) => {
            if !(j < s.len() && s[j] == ':') {
                return None;
            }
            match p_value(s, j + 1) {
                Some((v, k)) => {
                    if k <= j || k >= s.len() {
                        return None;
                    }
                    proof {
                        lemma_jfields_view_push(old(out)@, (key, v));
                    }
                    if s[k] == ',' {
                        out.push((key, v));
                        match p_fields(s, k + 1, out) {
                            Some(m) => {
                                proof {
                                    let fs = sp_fields(s@, i as int).unwrap().0;
                                    assert(jfields_view(final(out)@) =~= jfields_view(old(out)@)
                                        + fs);
                                }
                                Some(m)
                            },
                            None => None,
                        }
                    } else if s[k] == '}' {
                        let ghost kv = (key@, jview(v));
                        out.push((key, v));
                        proof {
                            assert(jfields_view(final(out)@) =~= jfields_view(old(out)@) + seq![
                                kv,
                            ]);
                        }
                        Some(k + 1)
                    } else {
                        None
                    }
                },
                None => None,
            }
        },
        None => None,
    }
}

pub proof fn lemma_jseq_view_push(s: Seq<Json>, x: Json)
    ensures
        jseq_view(s.push(x)) == jseq_view(s).push(jview(x)),
{
    assert(s.push(x).drop_last() =~= s);
    assert(s.push(x).last() == x);
}

pub proof fn lemma_jfields_view_push(s: Seq<(String, Json)>, x: (String, Json))
    ensures
        jfields_view(s.push(x)) == jfields_view(s).push((x.0@, jview(x.1))),
{
    assert(s.push(x).drop_last() =~= s);
    assert(s.push(x).last() == x);
}

// ---------------------------------------------------------------------------
// Parsing inverts encoding.
// ---------------------------------------------------------------------------

/// Ten to the `k`.
pub open spec fn pow10(k: int) -> int
    decreases k,
{
    if k <= 0 {
        1
    } else {
        10 * pow10(k - 1)
    }
}

/// The number a digit string stands for.
pub open spec fn digits_val(ds: Seq<char>) -> int
    decreases ds.len(),
{
    if ds.len() == 0 {
        0
    } else {
        digits_val(ds.drop_last()) * 10 + digit_val(ds.last())
    }
}

/// From a window equality `s[i .. i+|w|] == w`, the same for any sub-window.
proof fn lemma_window(s: Seq<char>, i: int, w: Seq<char>, a: int, b: int)
    requires
        0 <= i,
        i + w.len() <= s.len(),
        s.subrange(i, i + w.len()) == w,
        0 <= a <= b <= w.len(),
    ensures
        s.subrange(i + a, i + b) == w.subrange(a, b),
{
    assert forall|t: int| 0 <= t < b - a implies s.subrange(i + a, i + b)[t] == w.subrange(
        a,
        b,
    )[t] by {
        assert(s.subrange(i, i + w.len() as int)[a + t] == s[i + a + t]);
    }
    assert(s.subrange(i + a, i + b) =~= w.subrange(a, b));
}

/// From a window equality, the character at any offset inside the window.
proof fn lemma_window_char(s: Seq<char>, i: int, w: Seq<char>, k: int)
    requires
        0 <= i,
        i + w.len() <= s.len(),
        s.subrange(i, i + w.len()) == w,
        0 <= k < w.len(),
    ensures
        s[i + k] == w[k],
{
    assert(s.subrange(i, i + w.len() as int)[k] == s[i + k]);
}

proof fn lemma_digit_char(d: int)
    requires
        0 <= d < 10,
    ensures
        is_digit(digit_char(d)),
        digit_val(digit_char(d)) == d,
        digit_char(d) as u32 == 48 + d,
{
}

proof fn lemma_hex_char(d: int)
    requires
        0 <= d < 16,
    ensures
        is_hex(hex_char(d)),
        hex_val(hex_char(d)) == d,
{
    if d < 10 {
        lemma_digit_char(d);
    }
}

proof fn lemma_dec_digits(n: int)
    requires
        n >= 0,
    ensures
        dec_digits(n).len() >= 1,
        forall|t: int| 0 <= t < dec_digits(n).len() ==> is_digit(#[trigger] dec_digits(n)[t]),
        digits_val(dec_digits(n)) == n,
    decreases n,
{
    if n < 10 {
        lemma_digit_char(n);
        assert(dec_digits(n) == seq![digit_char(n)]);
        assert(dec_digits(n).drop_last() =~= Seq::<char>::empty());
        assert(digits_val(Seq::<char>::empty()) == 0);
    } else {
        lemma_dec_digits(n / 10);
        lemma_digit_char(n % 10);
        assert(dec_digits(n) == dec_digits(n / 10).push(digit_char(n % 10)));
        assert(dec_digits(n).drop_last() =~= dec_digits(n / 10));
    }
}

proof fn lemma_pow10_pos(k: int)
    ensures
        pow10(k) >= 1,
    decreases k,
{
    if k > 0 {
        lemma_pow10_pos(k - 1);
    }
}

/// A digit string read from the front: the first digit weighs `pow10` of the rest.
proof fn lemma_digits_val_front(ds: Seq<char>)
    requires
        ds.len() > 0,
    ensures
        digits_val(ds) == digit_val(ds[0]) * pow10(ds.len() - 1) + digits_val(ds.skip(1)),
    decreases ds.len(),
{
    if ds.len() == 1 {
        assert(ds.drop_last() =~= Seq::<char>::empty());
        assert(ds.skip(1) =~= Seq::<char>::empty());
    } else {
        lemma_digits_val_front(ds.drop_last());
        assert(ds.skip(1).drop_last() =~= ds.drop_last().skip(1));
        assert(ds.skip(1).last() == ds.last());
        assert(ds.drop_last()[0] == ds[0]);
        let l = ds.len();
        assert(digits_val(ds) == digits_val(ds.drop_last()) * 10 + digit_val(ds.last()));
        assert(digits_val(ds.drop_last()) == digit_val(ds[0]) * pow10(l - 2) + digits_val(
            ds.drop_last().skip(1),
        ));
        assert((digit_val(ds[0]) * pow10(l - 2) + digits_val(ds.drop_last().skip(1))) * 10
            + digit_val(ds.last()) == digit_val(ds[0]) * (10 * pow10(l - 2)) + (digits_val(
            ds.drop_last().skip(1),
        ) * 10 + digit_val(ds.last()))) by (nonlinear_arith);
        assert(pow10(l - 1) == 10 * pow10(l - 2));
        assert(digits_val(ds.skip(1)) == digits_val(ds.drop_last().skip(1)) * 10 + digit_val(
            ds.last(),
        ));
    }
}

/// The parser reads any in-bounds digit string, left to right.
proof fn lemma_sp_digits(s: Seq<char>, i: int, ds: Seq<char>, acc: int, bound: int)
    requires
        0 <= i,
        0 <= acc,
        i + ds.len() <= s.len(),
        s.subrange(i, i + ds.len()) == ds,
        forall|t: int| 0 <= t < ds.len() ==> is_digit(#[trigger] ds[t]),
        i + ds.len() == s.len() || !is_digit(s[i + ds.len()]),
        acc * pow10(ds.len() as int) + digits_val(ds) <= bound,
    ensures
        sp_digits(s, i, acc, bound) == Some((acc * pow10(ds.len() as int) + digits_val(ds), i + ds.len())),
    decreases ds.len(),
{
    lemma_pow10_pos(ds.len() as int);
    lemma_pow10_pos(ds.len() - 1);
    if ds.len() == 0 {
        assert(digits_val(ds) == 0);
    } else {
        assert(s[i] == ds[0]);
        lemma_digits_val_front(ds);
        let d0 = digit_val(ds[0]);
        let a2 = acc * 10 + d0;
        let rest = ds.skip(1);
        assert(digits_val(rest) >= 0) by {
            lemma_digits_val_nonneg(rest);
        }
        assert(a2 * pow10(rest.len() as int) + digits_val(rest) == acc * pow10(ds.len() as int) + digits_val(
            ds,
        )) by (nonlinear_arith)
            requires
                a2 == acc * 10 + d0,
                pow10(ds.len() as int) == 10 * pow10(rest.len() as int),
                digits_val(ds) == d0 * pow10(rest.len() as int) + digits_val(rest),
                rest.len() == ds.len() - 1,
        {
        }
        assert(a2 <= a2 * pow10(rest.len() as int) + digits_val(rest)) by (nonlinear_arith)
            requires
                a2 >= 0,
                pow10(rest.len() as int) >= 1,
                digits_val(rest) >= 0,
        {
        }
        assert(s.subrange(i + 1, i + 1 + rest.len() as int) =~= rest);
        lemma_sp_digits(s, i + 1, rest, a2, bound);
    }
}

proof fn lemma_digits_val_nonneg(ds: Seq<char>)
    requires
        forall|t: int| 0 <= t < ds.len() ==> is_digit(#[trigger] ds[t]),
    ensures
        digits_val(ds) >= 0,
    decreases ds.len(),
{
    if ds.len() > 0 {
        assert(forall|t: int| 0 <= t < ds.len() - 1 ==> ds.drop_last()[t] == ds[t]);
        assert(forall|t: int|
            0 <= t < ds.drop_last().len() ==> is_digit(#[trigger] ds.drop_last()[t]));
        lemma_digits_val_nonneg(ds.drop_last());
    }
}

/// The parser reads any encoded number whose text is followed by a non-digit.
proof fn lemma_sp_num(s: Seq<char>, i: int, n: int)
    requires
        0 <= i,
        i64::MIN <= n <= i64::MAX,
        i + enc_int(n).len() <= s.len(),
        s.subrange(i, i + enc_int(n).len()) == enc_int(n),
        i + enc_int(n).len() == s.len() || !is_digit(s[i + enc_int(n).len()]),
    ensures
        sp_num(s, i) == Some((JVal::Num(n), i + enc_int(n).len())),
{
    if n >= 0 {
        lemma_dec_digits(n);
        lemma_window_char(s, i, enc_int(n), 0);
        assert(s[i] == dec_digits(n)[0]);
        lemma_pow10_pos(dec_digits(n).len() as int);
        lemma_sp_digits(s, i, dec_digits(n), 0, num_bound(false));
        assert(is_digit(s[i]));
        assert(!(s[i] == '-'));
    } else {
        let m = -n;
        lemma_dec_digits(m);
        let ds = dec_digits(m);
        assert(enc_int(n) == seq!['-'] + ds);
        lemma_window_char(s, i, enc_int(n), 0);
        assert(s[i] == '-');
        lemma_window(s, i, enc_int(n), 1, enc_int(n).len() as int);
        assert(enc_int(n).subrange(1, enc_int(n).len() as int) =~= ds);
        assert(s.subrange(i + 1, i + 1 + ds.len()) == ds);
        lemma_window_char(s, i, enc_int(n), 1);
        assert(s[i + 1] == ds[0]);
        lemma_sp_digits(s, i + 1, ds, 0, num_bound(true));
        assert(sp_digits(s, i + 1, 0, num_bound(true)) == Some(
            (0 * pow10(ds.len() as int) + digits_val(ds), i + 1 + ds.len()),
        ));
        assert(0 * pow10(ds.len() as int) + digits_val(ds) == m);
    }
}

proof fn lemma_enc_str_front(cs: Seq<char>)
    requires
        cs.len() > 0,
    ensures
        enc_str(cs) == enc_char(cs[0]) + enc_str(cs.skip(1)),
    decreases cs.len(),
{
    if cs.len() == 1 {
        assert(cs.drop_last() =~= Seq::<char>::empty());
        assert(cs.skip(1) =~= Seq::<char>::empty());
        assert(enc_str(Seq::<char>::empty()) == Seq::<char>::empty());
        assert(enc_str(cs) == enc_str(cs.drop_last()) + enc_char(cs.last()));
        assert(enc_char(cs[0]) + enc_str(cs.skip(1)) =~= enc_char(cs[0]));
        assert(enc_str(cs) =~= enc_char(cs[0]));
    } else {
        lemma_enc_str_front(cs.drop_last());
        assert(cs.drop_last()[0] == cs[0]);
        assert(cs.skip(1).drop_last() =~= cs.drop_last().skip(1));
        assert(cs.skip(1).last() == cs.last());
        assert(enc_str(cs.skip(1)) == enc_str(cs.drop_last().skip(1)) + enc_char(cs.last()));
        assert(enc_str(cs) == (enc_char(cs[0]) + enc_str(cs.drop_last().skip(1))) + enc_char(
            cs.last(),
        ));
        assert(enc_str(cs) =~= enc_char(cs[0]) + enc_str(cs.skip(1)));
    }
}

/// The parser reads any encoded string body followed by its closing quote,
/// extending whatever was accumulated so far.
proof fn lemma_sp_str_body(s: Seq<char>, i: int, cs: Seq<char>, acc: Seq<char>)
    requires
        0 <= i,
        i + enc_str(cs).len() + 1 <= s.len(),
        s.subrange(i, i + enc_str(cs).len()) == enc_str(cs),
        s[i + enc_str(cs).len()] == '"',
    ensures
        sp_str_body(s, i, acc) == Some((acc + cs, i + enc_str(cs).len() + 1)),
    decreases cs.len(),
{
    if cs.len() == 0 {
        assert(enc_str(cs).len() == 0);
        assert(s[i] == '"');
        assert(acc + cs =~= acc);
    } else {
        lemma_enc_str_front(cs);
        let c = cs[0];
        let e = enc_char(c);
        let w = enc_str(cs);
        let rest = enc_str(cs.skip(1));
        assert(w == e + rest);
        assert(w.len() == e.len() + rest.len());
        // the window for the remaining characters, and the closing quote
        assert(w.subrange(e.len() as int, w.len() as int) =~= rest);
        lemma_window(s, i, w, e.len() as int, w.len() as int);
        assert(s.subrange(i + e.len(), i + e.len() + rest.len()) == rest);
        // each character of the escape is at its place
        assert(forall|t: int| 0 <= t < e.len() ==> w[t] == e[t]);
        assert forall|t: int| 0 <= t < e.len() implies s[i + t] == e[t] by {
            lemma_window_char(s, i, w, t);
        }
        let i2 = i + e.len();
        if c == '"' {
            assert(e == seq!['\\', '"']);
            assert(s[i] == '\\' && s[i + 1] == '"');
            lemma_sp_str_body(s, i + 2, cs.skip(1), acc.push(c));
            assert(acc.push(c) + cs.skip(1) =~= acc + cs);
        } else if c == '\\' {
            assert(e == seq!['\\', '\\']);
            assert(s[i] == '\\' && s[i + 1] == '\\');
            lemma_sp_str_body(s, i + 2, cs.skip(1), acc.push(c));
            assert(acc.push(c) + cs.skip(1) =~= acc + cs);
        } else if (c as u32) < 0x20 {
            let hi = (c as u32) as int / 16;
            let lo = (c as u32) as int % 16;
            assert(e == seq!['\\', 'u', '0', '0', hex_char(hi), hex_char(lo)]);
            assert(s[i] == '\\' && s[i + 1] == 'u' && s[i + 2] == '0' && s[i + 3] == '0');
            assert(s[i + 4] == hex_char(hi) && s[i + 5] == hex_char(lo));
            lemma_digit_char(0);
            assert('0' == digit_char(0));
            assert(is_hex(s[i + 2]) && hex_val(s[i + 2]) == 0);
            lemma_hex_char(hi);
            lemma_hex_char(lo);
            assert(hex_val(s[i + 4]) == hi && hex_val(s[i + 5]) == lo);
            let code = hex_val(s[i + 2]) * 4096 + hex_val(s[i + 3]) * 256 + hex_val(s[i + 4]) * 16
                + hex_val(s[i + 5]);
            assert(code == hi * 16 + lo);
            assert(code == c as u32) by {
                assert(hi * 16 + lo == (c as u32) as int);
            }
            assert(code < 0x20);
            vstd::utf8::char_u32_cast(c, c as u32);
            assert(code as char == c);
            lemma_sp_str_body(s, i + 6, cs.skip(1), acc.push(c));
            assert(acc.push(c) + cs.skip(1) =~= acc + cs);
        } else {
            assert(e == seq![c]);
            assert(s[i + 0] == e[0]);
            assert(s[i] == c);
            assert(!(s[i] == '"') && !(s[i] == '\\') && !((s[i] as u32) < 0x20));
            lemma_sp_str_body(s, i + 1, cs.skip(1), acc.push(c));
            assert(acc.push(c) + cs.skip(1) =~= acc + cs);
        }
    }
}

/// The first character of an encoding is never a separator or a closer.
proof fn lemma_enc_first(v: JVal)
    requires
        jval_wf(v),
    ensures
        enc(v).len() >= 1,
        enc(v)[0] != ']' && enc(v)[0] != '}' && enc(v)[0] != ',' && enc(v)[0] != ':',
        !is_digit(enc(v)[0]) && enc(v)[0] != '-' ==> !(sp_num(enc(v), 0) is Some),
{
    match v {
        JVal::Null => {},
        JVal::Bool(b) => {},
        JVal::Num(n) => {
            if n >= 0 {
                lemma_dec_digits(n);
                assert(is_digit(enc(v)[0]));
            } else {
                lemma_dec_digits(-n);
                assert(enc_int(n) == seq!['-'] + dec_digits(-n));
                assert(enc(v)[0] == '-');
            }
        },
        JVal::Str(cs) => {
            assert(enc(v)[0] == '"');
        },
        JVal::Arr(elems) => {
            assert(enc(v)[0] == '[');
        },
        JVal::Obj(fields) => {
            assert(enc(v)[0] == '{');
        },
    }
}

/// The parser reads back any well-formed encoded value that is followed by
/// either the end of the text or a non-digit.
pub proof fn lemma_enc_value(s: Seq<char>, i: int, v: JVal)
    requires
        jval_wf(v),
        0 <= i,
        i + enc(v).len() <= s.len(),
        s.subrange(i, i + enc(v).len()) == enc(v),
        i + enc(v).len() == s.len() || !is_digit(s[i + enc(v).len()]),
    ensures
        sp_value(s, i) == Some((v, i + enc(v).len())),
    decreases v, 0int,
{
    let w = enc(v);
    lemma_enc_first(v);
    lemma_window_char(s, i, w, 0);
    match v {
        JVal::Null => {
            lemma_window_char(s, i, w, 1);
            lemma_window_char(s, i, w, 2);
            lemma_window_char(s, i, w, 3);
        },
        JVal::Bool(b) => {
            lemma_window_char(s, i, w, 1);
            lemma_window_char(s, i, w, 2);
            lemma_window_char(s, i, w, 3);
            if !b {
                lemma_window_char(s, i, w, 4);
            }
        },
        JVal::Num(n) => {
            if n >= 0 {
                lemma_dec_digits(n);
                assert(is_digit(s[i]));
            } else {
                lemma_dec_digits(-n);
                assert(enc_int(n) == seq!['-'] + dec_digits(-n));
                assert(s[i] == '-');
            }
            lemma_sp_num(s, i, n);
        },
        JVal::Str(cs) => {
            assert(s[i] == '"');
            let ks = enc_str(cs);
            assert(w == seq!['"'] + ks + seq!['"']);
            assert(w.subrange(1, 1 + ks.len() as int) =~= ks);
            lemma_window(s, i, w, 1, 1 + ks.len() as int);
            lemma_window_char(s, i, w, 1 + ks.len() as int);
            assert(w[1 + ks.len() as int] == '"');
            lemma_sp_str_body(s, i + 1, cs, Seq::empty());
            assert(Seq::empty() + cs =~= cs);
        },
        JVal::Arr(elems) => {
            assert(s[i] == '[');
            let el = enc_elems(elems, 0);
            assert(w == seq!['['] + el + seq![']']);
            if elems.len() == 0 {
                assert(el == Seq::<char>::empty());
                assert(w =~= seq!['[', ']']);
                lemma_window_char(s, i, w, 1);
                assert(s[i + 1] == ']');
                assert(elems =~= Seq::<JVal>::empty());
            } else {
                assert(jvals_wf(elems, 0));
                lemma_enc_first(elems[0]);
                assert(el[0] == enc(elems[0])[0]) by {
                    assert(enc_elems(elems, 0) == if elems.len() == 1 {
                        enc(elems[0])
                    } else {
                        enc(elems[0]) + seq![','] + enc_elems(elems, 1)
                    });
                }
                lemma_window_char(s, i, w, 1);
                assert(s[i + 1] == el[0]);
                assert(s[i + 1] != ']');
                assert(w.subrange(1, 1 + el.len() as int) =~= el);
                lemma_window(s, i, w, 1, 1 + el.len() as int);
                lemma_window_char(s, i, w, 1 + el.len() as int);
                assert(s[i + 1 + el.len() as int] == ']');
                lemma_enc_elems(s, i + 1, elems, 0);
                assert(elems.skip(0) =~= elems);
            }
        },
        JVal::Obj(fields) => {
            assert(s[i] == '{');
            let fl = enc_fields(fields, 0);
            assert(w == seq!['{'] + fl + seq!['}']);
            if fields.len() == 0 {
                assert(fl == Seq::<char>::empty());
                assert(w =~= seq!['{', '}']);
                lemma_window_char(s, i, w, 1);
                assert(s[i + 1] == '}');
                assert(fields =~= Seq::<(Seq<char>, JVal)>::empty());
            } else {
                assert(jfields_wf(fields, 0));
                assert(fl[0] == enc_field(fields[0])[0]) by {
                    assert(enc_fields(fields, 0) == if fields.len() == 1 {
                        enc_field(fields[0])
                    } else {
                        enc_field(fields[0]) + seq![','] + enc_fields(fields, 1)
                    });
                }
                assert(enc_field(fields[0])[0] == '"');
                lemma_window_char(s, i, w, 1);
                assert(s[i + 1] == '"');
                assert(s[i + 1] != '}');
                assert(w.subrange(1, 1 + fl.len() as int) =~= fl);
                lemma_window(s, i, w, 1, 1 + fl.len() as int);
                lemma_window_char(s, i, w, 1 + fl.len() as int);
                assert(s[i + 1 + fl.len() as int] == '}');
                lemma_enc_fields(s, i + 1, fields, 0);
                assert(fields.skip(0) =~= fields);
            }
        },
    }
}

/// The parser reads back an encoded, comma-separated run of values that is
/// closed by `]`.
proof fn lemma_enc_elems(s: Seq<char>, i: int, elems: Seq<JVal>, k: int)
    requires
        0 <= k < elems.len(),
        jvals_wf(elems, k),
        0 <= i,
        i + enc_elems(elems, k).len() + 1 <= s.len(),
        s.subrange(i, i + enc_elems(elems, k).len()) == enc_elems(elems, k),
        s[i + enc_elems(elems, k).len()] == ']',
    ensures
        sp_elems(s, i) == Some((elems.skip(k), i + enc_elems(elems, k).len() + 1)),
    decreases elems, elems.len() - k,
{
    let ev = elems[k];
    assert(jval_wf(ev));
    let ee = enc(ev);
    let w = enc_elems(elems, k);
    lemma_enc_first(ev);
    if k == elems.len() - 1 {
        assert(w == ee);
        assert(!is_digit(']'));
        lemma_enc_value(s, i, ev);
        let j = i + ee.len();
        assert(s[j] == ']');
        assert(seq![ev] =~= elems.skip(k));
    } else {
        let rest = enc_elems(elems, k + 1);
        assert(w == ee + seq![','] + rest);
        assert(w.subrange(0, ee.len() as int) =~= ee);
        lemma_window(s, i, w, 0, ee.len() as int);
        lemma_window_char(s, i, w, ee.len() as int);
        let j = i + ee.len();
        assert(s[j] == ',');
        assert(!is_digit(','));
        lemma_enc_value(s, i, ev);
        assert(w.subrange(ee.len() as int + 1, w.len() as int) =~= rest);
        lemma_window(s, i, w, ee.len() as int + 1, w.len() as int);
        assert(s.subrange(j + 1, j + 1 + rest.len() as int) == rest);
        assert(j + 1 + rest.len() as int == i + w.len());
        lemma_enc_elems(s, j + 1, elems, k + 1);
        assert(seq![ev] + elems.skip(k + 1) =~= elems.skip(k));
    }
}

/// The parser reads back an encoded, comma-separated run of object members
/// that is closed by `}`.
proof fn lemma_enc_fields(s: Seq<char>, i: int, fields: Seq<(Seq<char>, JVal)>, k: int)
    requires
        0 <= k < fields.len(),
        jfields_wf(fields, k),
        0 <= i,
        i + enc_fields(fields, k).len() + 1 <= s.len(),
        s.subrange(i, i + enc_fields(fields, k).len()) == enc_fields(fields, k),
        s[i + enc_fields(fields, k).len()] == '}',
    ensures
        sp_fields(s, i) == Some((fields.skip(k), i + enc_fields(fields, k).len() + 1)),
    decreases fields, fields.len() - k,
{
    let key = fields[k].0;
    let ev = fields[k].1;
    assert(jval_wf(ev));
    let ef = enc_field(fields[k]);
    let ks = enc_str(key);
    let ee = enc(ev);
    let w = enc_fields(fields, k);
    lemma_enc_first(ev);
    assert(ef == seq!['"'] + ks + seq!['"', ':'] + ee);
    assert(ef.len() == ks.len() + 3 + ee.len() as int);
    // the member's own window
    let we = if k == fields.len() - 1 {
        w
    } else {
        w.subrange(0, ef.len() as int)
    };
    if k == fields.len() - 1 {
        assert(w == ef);
    } else {
        assert(w == ef + seq![','] + enc_fields(fields, k + 1));
        assert(w.subrange(0, ef.len() as int) =~= ef);
        lemma_window(s, i, w, 0, ef.len() as int);
    }
    assert(s.subrange(i, i + ef.len()) == ef);
    // the key
    lemma_window_char(s, i, ef, 0);
    assert(s[i] == '"');
    assert(ef.subrange(1, 1 + ks.len() as int) =~= ks);
    lemma_window(s, i, ef, 1, 1 + ks.len() as int);
    lemma_window_char(s, i, ef, 1 + ks.len() as int);
    assert(ef[1 + ks.len() as int] == '"');
    lemma_sp_str_body(s, i + 1, key, Seq::empty());
    assert(Seq::empty() + key =~= key);
    let j = i + ks.len() + 2;
    assert(sp_str_body(s, i + 1, Seq::empty()) == Some((key, j)));
    // the colon
    lemma_window_char(s, i, ef, 2 + ks.len() as int);
    assert(ef[2 + ks.len() as int] == ':');
    assert(s[j] == ':');
    // the value
    assert(ef.subrange(3 + ks.len() as int, ef.len() as int) =~= ee);
    lemma_window(s, i, ef, 3 + ks.len() as int, ef.len() as int);
    assert(s.subrange(j + 1, j + 1 + ee.len() as int) == ee);
    let m = j + 1 + ee.len() as int;
    assert(m == i + ef.len());
    if k == fields.len() - 1 {
        assert(s[m] == '}');
        assert(!is_digit('}'));
        lemma_enc_value(s, j + 1, ev);
        assert(seq![(key, ev)] =~= fields.skip(k));
    } else {
        let rest = enc_fields(fields, k + 1);
        lemma_window_char(s, i, w, ef.len() as int);
        assert(w[ef.len() as int] == ',');
        assert(s[m] == ',');
        assert(!is_digit(','));
        lemma_enc_value(s, j + 1, ev);
        assert(w.subrange(ef.len() as int + 1, w.len() as int) =~= rest);
        lemma_window(s, i, w, ef.len() as int + 1, w.len() as int);
        assert(s.subrange(m + 1, m + 1 + rest.len() as int) == rest);
        assert(m + 1 + rest.len() as int == i + w.len());
        lemma_enc_fields(s, m + 1, fields, k + 1);
        assert(seq![(key, ev)] + fields.skip(k + 1) =~= fields.skip(k));
    }
}

/// Round trip: the canonical text of any well-formed value parses back to
/// exactly that value, as one whole document.
pub proof fn lemma_doc_round_trip(v: JVal)
    requires
        jval_wf(v),
    ensures
        sp_doc(enc(v)) == Some(v),
{
    let s = enc(v);
    assert(s.subrange(0, s.len() as int) =~= s);
    lemma_enc_value(s, 0, v);
}

/// Reads one value covering the whole of `s`; fails on anything else.
pub fn from_text(s: &[char]) -> (r: Option<Json>)
    ensures
        match r {
            Some(j) => sp_doc(s@) == Some(jview(j)),
            None => sp_doc(s@) is None,
        },
{
    match p_value(s, 0) {
        Some((j, k)) => if k == s.len() {
            Some(j)
        } else {
            None
        },
        None => None,
    }
}

// ---------------------------------------------------------------------------
// Working with objects.
// ---------------------------------------------------------------------------

/// The value under the first member named `key`, looking from `k` on.
pub open spec fn jobj_get_from(fields: Seq<(Seq<char>, JVal)>, k: int, key: Seq<char>) -> Option<
    JVal,
>
    decreases fields.len() - k,
{
    if k < 0 || k >= fields.len() {
        None
    } else if fields[k].0 == key {
        Some(fields[k].1)
    } else {
        jobj_get_from(fields, k + 1, key)
    }
}

/// The value under the first member named `key`, if any.
pub open spec fn jobj_get(fields: Seq<(Seq<char>, JVal)>, key: Seq<char>) -> Option<JVal> {
    jobj_get_from(fields, 0, key)
}

/// The index of the first member named `key` at or after `k`; the length
/// when there is none.
pub open spec fn jobj_idx_from(fields: Seq<(Seq<char>, JVal)>, k: int, key: Seq<char>) -> int
    decreases fields.len() - k,
{
    if k < 0 || k >= fields.len() {
        fields.len() as int
    } else if fields[k].0 == key {
        k
    } else {
        jobj_idx_from(fields, k + 1, key)
    }
}

/// The object with `key` bound to `val`: the first member of that name is
/// replaced in place, or a new member is appended.
pub open spec fn jobj_put(fields: Seq<(Seq<char>, JVal)>, key: Seq<char>, val: JVal) -> Seq<
    (Seq<char>, JVal),
> {
    let idx = jobj_idx_from(fields, 0, key);
    if idx < fields.len() {
        fields.update(idx, (key, val))
    } else {
        fields.push((key, val))
    }
}

/// The object without its first member named `key`, if it had one.
pub open spec fn jobj_remove(fields: Seq<(Seq<char>, JVal)>, key: Seq<char>) -> Seq<
    (Seq<char>, JVal),
> {
    let idx = jobj_idx_from(fields, 0, key);
    if idx < fields.len() {
        fields.remove(idx)
    } else {
        fields
    }
}

proof fn lemma_jobj_idx_from(fields: Seq<(Seq<char>, JVal)>, k: int, key: Seq<char>)
    requires
        0 <= k <= fields.len(),
    ensures
        k <= jobj_idx_from(fields, k, key) <= fields.len(),
        jobj_idx_from(fields, k, key) < fields.len() ==> fields[jobj_idx_from(fields, k, key)].0
            == key,
    decreases fields.len() - k,
{
    if k < fields.len() && !(fields[k].0 == key) {
        lemma_jobj_idx_from(fields, k + 1, key);
    }
}

/// Characters decide string equality.
pub fn str_eq(a: &str, b: &str) -> (r: bool)
    ensures
        r == (a@ == b@),
{
    let na = a.unicode_len();
    let nb = b.unicode_len();
    if na != nb {
        return false;
    }
    let mut k: usize = 0;
    while k < na
        invariant
            na == a@.len(),
            na == b@.len(),
            k <= na,
            forall|t: int| 0 <= t < k ==> a@[t] == b@[t],
        decreases na - k,
    {
        if a.get_char(k) != b.get_char(k) {
            return false;
        }
        k = k + 1;
    }
    proof {
        assert(a@ =~= b@);
    }
    true
}

/// The member index the spec names, found by scanning.
fn obj_index(fields: &Vec<(String, Json)>, key: &str) -> (r: usize)
    ensures
        r == jobj_idx_from(jfields_view(fields@), 0, key@),
        r <= fields@.len(),
    decreases fields@.len(),
{
    proof {
        lemma_jfields_view(fields@);
    }
    let ghost vf = jfields_view(fields@);
    let n = fields.len();
    let mut k: usize = 0;
    while k < n
        invariant
            vf == jfields_view(fields@),
            vf.len() == n,
            n == fields@.len(),
            forall|m: int| 0 <= m < n ==> vf[m] == (fields@[m].0@, jview(fields@[m].1)),
            k <= n,
            jobj_idx_from(vf, 0, key@) == jobj_idx_from(vf, k as int, key@),
        decreases n - k,
    {
        if str_eq(fields[k].0.as_str(), key) {
            return k;
        }
        k = k + 1;
    }
    n
}

/// A borrow of the value under the first member named `key`.
pub fn obj_get<'a>(fields: &'a Vec<(String, Json)>, key: &str) -> (r: Option<&'a Json>)
    ensures
        match r {
            Some(j) => jobj_get(jfields_view(fields@), key@) == Some(jview(*j)),
            None => jobj_get(jfields_view(fields@), key@) is None,
        },
{
    proof {
        lemma_jfields_view(fields@);
        lemma_jobj_idx_from(jfields_view(fields@), 0, key@);
        lemma_jobj_get_at_idx(jfields_view(fields@), 0, key@);
    }
    let idx = obj_index(fields, key);
    if idx < fields.len() {
        Some(&fields[idx].1)
    } else {
        None
    }
}

proof fn lemma_jobj_get_at_idx(fields: Seq<(Seq<char>, JVal)>, k: int, key: Seq<char>)
    requires
        0 <= k <= fields.len(),
    ensures
        jobj_idx_from(fields, k, key) < fields.len() ==> jobj_get_from(fields, k, key) == Some(
            fields[jobj_idx_from(fields, k, key)].1,
        ),
        jobj_idx_from(fields, k, key) == fields.len() ==> jobj_get_from(fields, k, key) is None,
    decreases fields.len() - k,
{
    if k < fields.len() && !(fields[k].0 == key) {
        lemma_jobj_get_at_idx(fields, k + 1, key);
    }
}

/// Binds `key` to `val` in the member list, replacing the first member of
/// that name in place or appending a new one.
pub fn obj_put(fields: &mut Vec<(String, Json)>, key: String, val: Json)
    ensures
        jfields_view(final(fields)@) == jobj_put(jfields_view(old(fields)@), key@, jview(val)),
{
    proof {
        lemma_jfields_view(old(fields)@);
        lemma_jobj_idx_from(jfields_view(old(fields)@), 0, key@);
    }
    let ghost vf0 = jfields_view(old(fields)@);
    let idx = obj_index(fields, key.as_str());
    if idx < fields.len() {
        let ghost gval = jview(val);
        fields.remove(idx);
        fields.insert(idx, (key, val));
        proof {
            assert(fields@ =~= old(fields)@.update(idx as int, fields@[idx as int]));
            lemma_jfields_view(fields@);
            assert(jfields_view(fields@) =~= vf0.update(idx as int, (fields@[idx as int].0@, gval)));
        }
    } else {
        let ghost gval = jview(val);
        let ghost gkey = key@;
        fields.push((key, val));
        proof {
            lemma_jfields_view(fields@);
            assert(jfields_view(fields@) =~= vf0.push((gkey, gval)));
        }
    }
}

/// Drops the first member named `key`, if there is one.
pub fn obj_remove(fields: &mut Vec<(String, Json)>, key: &str)
    ensures
        jfields_view(final(fields)@) == jobj_remove(jfields_view(old(fields)@), key@),
{
    proof {
        lemma_jfields_view(old(fields)@);
        lemma_jobj_idx_from(jfields_view(old(fields)@), 0, key@);
    }
    let ghost vf0 = jfields_view(old(fields)@);
    let idx = obj_index(fields, key);
    if idx < fields.len() {
        fields.remove(idx);
        proof {
            lemma_jfields_view(fields@);
            assert(jfields_view(fields@) =~= vf0.remove(idx as int));
        }
    }
}

/// An exact copy.
pub fn json_clone(j: &Json) -> (r: Json)
    ensures
        jview(r) == jview(*j),
    decreases j,
{
    match j {
        Json::Null => Json::Null,
        Json::Bool(b) => Json::Bool(*b),
        Json::Num(n) => Json::Num(*n),
        Json::Str(cs) => Json::Str(cs.clone()),
        Json::Arr(elems) => {
            let mut out: Vec<Json> = Vec::new();
            let n = elems.len();
            let mut k: usize = 0;
            while k < n
                invariant
                    *j == Json::Arr(*elems),
                    n == elems@.len(),
                    k <= n,
                    out@.len() == k,
                    forall|m: int| 0 <= m < k ==> jview(out@[m]) == jview(elems@[m]),
                decreases n - k,
            {
                proof {
                    assert(decreases_to!(*j => j->Arr_0));
                    assert(j->Arr_0 == *elems);
                    assert(decreases_to!(*elems => elems@));
                    assert(decreases_to!(elems@ => elems@[k as int]));
                }
                let c = json_clone(&elems[k]);
                out.push(c);
                k = k + 1;
            }
            proof {
                lemma_jseq_view(out@);
                lemma_jseq_view(elems@);
                assert(jseq_view(out@) =~= jseq_view(elems@));
            }
            Json::Arr(out)
        },
        Json::Obj(fields) => {
            let mut out: Vec<(String, Json)> = Vec::new();
            let n = fields.len();
            let mut k: usize = 0;
            while k < n
                invariant
                    *j == Json::Obj(*fields),
                    n == fields@.len(),
                    k <= n,
                    out@.len() == k,
                    forall|m: int|
                        0 <= m < k ==> out@[m].0@ == fields@[m].0@ && jview(out@[m].1) == jview(
                            fields@[m].1,
                        ),
                decreases n - k,
            {
                proof {
                    assert(decreases_to!(*j => j->Obj_0));
                    assert(j->Obj_0 == *fields);
                    assert(decreases_to!(*fields => fields@));
                    assert(decreases_to!(fields@ => fields@[k as int]));
                    assert(decreases_to!(fields@[k as int] => fields@[k as int].1));
                }
                let ks = fields[k].0.clone();
                let c = json_clone(&fields[k].1);
                out.push((ks, c));
                k = k + 1;
            }
            proof {
                lemma_jfields_view(out@);
                lemma_jfields_view(fields@);
                assert(jfields_view(out@) =~= jfields_view(fields@));
            }
            Json::Obj(out)
        },
    }
}

/// A string value.
pub fn jstr(s: &str) -> (r: Json)
    ensures
        jview(r) == JVal::Str(s@),
{
    Json::Str(s.to_owned())
}

/// Every view of an in-memory value is well formed.
pub proof fn lemma_jview_wf(j: Json)
    ensures
        jval_wf(jview(j)),
    decreases j,
{
    match j {
        Json::Null => {},
        Json::Bool(_) => {},
        Json::Num(_) => {},
        Json::Str(_) => {},
        Json::Arr(elems) => {
            lemma_jseq_view(elems@);
            let es = jseq_view(elems@);
            assert forall|m: int| 0 <= m < es.len() implies jval_wf(es[m]) by {
                assert(decreases_to!(j => j->Arr_0));
                assert(decreases_to!(elems => elems@));
                assert(decreases_to!(elems@ => elems@[m]));
                lemma_jview_wf(elems@[m]);
            }
            lemma_jvals_wf_all(es, 0);
        },
        Json::Obj(fields) => {
            lemma_jfields_view(fields@);
            let fs = jfields_view(fields@);
            assert forall|m: int| 0 <= m < fs.len() implies jval_wf(fs[m].1) by {
                assert(decreases_to!(j => j->Obj_0));
                assert(decreases_to!(fields => fields@));
                assert(decreases_to!(fields@ => fields@[m]));
                assert(decreases_to!(fields@[m] => fields@[m].1));
                lemma_jview_wf(fields@[m].1);
            }
            lemma_jfields_wf_all(fs, 0);
        },
    }
}

proof fn lemma_jvals_wf_all(es: Seq<JVal>, k: int)
    requires
        0 <= k,
        forall|m: int| 0 <= m < es.len() ==> jval_wf(es[m]),
    ensures
        jvals_wf(es, k),
    decreases es.len() - k,
{
    if k < es.len() {
        lemma_jvals_wf_all(es, k + 1);
    }
}

proof fn lemma_jfields_wf_all(fs: Seq<(Seq<char>, JVal)>, k: int)
    requires
        0 <= k,
        forall|m: int| 0 <= m < fs.len() ==> jval_wf(fs[m].1),
    ensures
        jfields_wf(fs, k),
    decreases fs.len() - k,
{
    if k < fs.len() {
        lemma_jfields_wf_all(fs, k + 1);
    }
}

/// The view of a member list is well formed: every value in it is.
pub proof fn lemma_fields_view_wf(fields: Seq<(String, Json)>)
    ensures
        jfields_wf(jfields_view(fields), 0),
{
    lemma_jfields_view(fields);
    let fs = jfields_view(fields);
    assert forall|m: int| 0 <= m < fs.len() implies jval_wf(fs[m].1) by {
        lemma_jview_wf(fields[m].1);
    }
    lemma_jfields_wf_all(fs, 0);
}

/// Decoded characters, gathered into a `String`.
pub fn chars_to_string(v: &Vec<char>) -> (r: String)
    ensures
        r@ == v@,
{
    let mut out = String::new();
    let n = v.len();
    let mut k: usize = 0;
    while k < n
        invariant
            n == v@.len(),
            k <= n,
            out@ == v@.take(k as int),
        decreases n - k,
    {
        out.push(v[k]);
        proof {
            assert(v@.take(k + 1) =~= v@.take(k as int).push(v@[k as int]));
        }
        k = k + 1;
    }
    proof {
        assert(v@.take(n as int) =~= v@);
    }
    out
}

/// The characters of a string, as a list.
pub fn string_to_chars(s: &str) -> (r: Vec<char>)
    ensures
        r@ == s@,
{
    let n = s.unicode_len();
    let mut out: Vec<char> = Vec::new();
    let mut k: usize = 0;
    while k < n
        invariant
            n == s@.len(),
            k <= n,
            out@ == s@.take(k as int),
        decreases n - k,
    {
        out.push(s.get_char(k));
        proof {
            assert(s@.take(k + 1) =~= s@.take(k as int).push(s@[k as int]));
        }
        k = k + 1;
    }
    proof {
        assert(s@.take(n as int) =~= s@);
    }
    out
}

} // verus!
