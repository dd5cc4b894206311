//! The JSON value model and its canonical wire rendering.
//!
//! Every packet travels as one compact JSON record.  `ser_val` is the
//! specification of that rendering; the executable writer is proved to
//! produce exactly `ser_val`, and the parser (below) is proved to accept
//! exactly the canonical renderings and to recover their extent.
use vstd::prelude::*;
use vstd::string::StrSliceExecFns;

verus! {

/// A JSON value as this protocol uses it: numbers are 64-bit integers and
/// object members keep the order in which they were written.
#[derive(Debug, PartialEq, Eq)]
pub enum JsonValue {
    Null,
    Bool(bool),
    Int(i64),
    Str(String),
    Arr(Vec<JsonValue>),
    Obj(Vec<(String, JsonValue)>),
}

pub open spec fn digit_char(d: int) -> char {
    ((48 + d) as u8) as char
}

pub open spec fn is_digit(c: char) -> bool {
    48 <= c as u32 && c as u32 <= 57
}

pub open spec fn digit_val(c: char) -> int {
    c as u32 - 48
}

/// Decimal rendering of a non-negative integer, most significant digit first.
pub open spec fn ser_nat(n: int) -> Seq<char>
    decreases n,
{
    if n < 10 {
        seq![digit_char(n)]
    } else {
        ser_nat(n / 10) + seq![digit_char(n % 10)]
    }
}

/// Canonical decimal rendering of an integer.
pub open spec fn ser_int(n: int) -> Seq<char> {
    if n < 0 {
        seq!['-'] + ser_nat(-n)
    } else {
        ser_nat(n)
    }
}

pub open spec fn hex_char(d: int) -> char {
    if d < 10 {
        ((48 + d) as u8) as char
    } else {
        ((87 + d) as u8) as char
    }
}

/// The escape sequence a character is written as inside a JSON string.
pub open spec fn esc_char(c: char) -> Seq<char> {
    if c == '"' {
        seq!['\\', '"']
    } else if c == '\\' {
        seq!['\\', '\\']
    } else if c == '\n' {
        seq!['\\', 'n']
    } else if c == '\r' {
        seq!['\\', 'r']
    } else if c == '\t' {
        seq!['\\', 't']
    } else if (c as u32) < 32 {
        seq!['\\', 'u', '0', '0', hex_char(c as u32 as int / 16), hex_char(c as u32 as int % 16)]
    } else {
        seq![c]
    }
}

pub open spec fn esc_str(s: Seq<char>) -> Seq<char>
    decreases s.len(),
{
    if s.len() == 0 {
        Seq::empty()
    } else {
        esc_char(s[0]) + esc_str(s.drop_first())
    }
}

/// Rendering of a JSON string: quoted, with every character escaped as needed.
pub open spec fn ser_str(s: Seq<char>) -> Seq<char> {
    seq!['"'] + esc_str(s) + seq!['"']
}

/// Canonical compact rendering of a JSON value.
pub open spec fn ser_val(v: JsonValue) -> Seq<char>
    decreases v, 0int,
{
    match v {
        JsonValue::Null => seq!['n', 'u', 'l', 'l'],
        JsonValue::Bool(b) => if b {
            seq!['t', 'r', 'u', 'e']
        } else {
            seq!['f', 'a', 'l', 's', 'e']
        },
        JsonValue::Int(n) => ser_int(n as int),
        JsonValue::Str(s) => ser_str(s@),
        JsonValue::Arr(elems) => seq!['['] + ser_arr(elems@, 0) + seq![']'],
        JsonValue::Obj(fields) => seq!['{'] + ser_obj(fields@, 0) + seq!['}'],
    }
}

/// Comma-separated rendering of `elems[i..]`.
pub open spec fn ser_arr(elems: Seq<JsonValue>, i: int) -> Seq<char>
    decreases elems, elems.len() - i,
{
    if i < 0 || i >= elems.len() {
        Seq::empty()
    } else if i == elems.len() - 1 {
        ser_val(elems[i])
    } else {
        ser_val(elems[i]) + seq![','] + ser_arr(elems, i + 1)
    }
}

/// Rendering of one object member: quoted key, colon, value.
pub open spec fn ser_member(m: (String, JsonValue)) -> Seq<char>
    decreases m, 0int,
{
    ser_str(m.0@) + seq![':'] + ser_val(m.1)
}

/// Comma-separated rendering of `fields[i..]`.
pub open spec fn ser_obj(fields: Seq<(String, JsonValue)>, i: int) -> Seq<char>
    decreases fields, fields.len() - i,
{
    if i < 0 || i >= fields.len() {
        Seq::empty()
    } else if i == fields.len() - 1 {
        ser_member(fields[i])
    } else {
        ser_member(fields[i]) + seq![','] + ser_obj(fields, i + 1)
    }
}


/// A serialized value's end is recognizable only when what follows cannot
/// extend a number; everything the record grammar puts after a value
/// satisfies this.
pub open spec fn follows_ok(rest: Seq<char>) -> bool {
    rest.len() == 0 || !is_digit(rest[0])
}

/// `s`, from `i` on, reads as the canonical rendering of `v` and then `rest`.
pub open spec fn val_decomp(s: Seq<char>, i: int, v: JsonValue, rest: Seq<char>) -> bool {
    s.skip(i) == ser_val(v) + rest
}

/// `s`, from `i` on, reads as a canonical JSON string and then `rest`.
pub open spec fn str_decomp(s: Seq<char>, i: int, content: Seq<char>, rest: Seq<char>) -> bool {
    s.skip(i) == ser_str(content) + rest
}

/// The number a digit run denotes.
pub open spec fn num_of(s: Seq<char>) -> int
    decreases s.len(),
{
    if s.len() == 0 {
        0
    } else {
        num_of(s.drop_last()) * 10 + digit_val(s.last())
    }
}

fn digit_exec(d: u64) -> (c: char)
    requires
        d < 10,
    ensures
        c == digit_char(d as int),
{
    (48 + d as u8) as char
}

fn nat_to_chars(out: &mut Vec<char>, m: u64)
    ensures
        final(out)@ == old(out)@ + ser_nat(m as int),
    decreases m,
{
    if m < 10 {
        out.push(digit_exec(m));
        assert(out@ =~= old(out)@ + ser_nat(m as int));
    } else {
        nat_to_chars(out, m / 10);
        out.push(digit_exec(m % 10));
        assert(out@ =~= old(out)@ + ser_nat(m as int));
    }
}

fn int_to_chars(out: &mut Vec<char>, n: i64)
    ensures
        final(out)@ == old(out)@ + ser_int(n as int),
{
    if n >= 0 {
        nat_to_chars(out, n as u64);
    } else {
        out.push('-');
        let wide: i128 = -(n as i128);
        let mag: u64 = wide as u64;
        nat_to_chars(out, mag);
        assert(out@ =~= old(out)@ + ser_int(n as int));
    }
}

fn hex_exec(d: u32) -> (c: char)
    requires
        d < 16,
    ensures
        c == hex_char(d as int),
{
    if d < 10 {
        (48 + d as u8) as char
    } else {
        (87 + d as u8) as char
    }
}

fn esc_push(out: &mut Vec<char>, c: char)
    ensures
        final(out)@ == old(out)@ + esc_char(c),
{
    if c == '"' {
        out.push('\\');
        out.push('"');
    } else if c == '\\' {
        out.push('\\');
        out.push('\\');
    } else if c == '\n' {
        out.push('\\');
        out.push('n');
    } else if c == '\r' {
        out.push('\\');
        out.push('r');
    } else if c == '\t' {
        out.push('\\');
        out.push('t');
    } else if (c as u32) < 32 {
        let u = c as u32;
        out.push('\\');
        out.push('u');
        out.push('0');
        out.push('0');
        out.push(hex_exec(u / 16));
        out.push(hex_exec(u % 16));
    } else {
        out.push(c);
    }
    assert(out@ =~= old(out)@ + esc_char(c));
}

pub proof fn lemma_esc_str_concat(a: Seq<char>, b: Seq<char>)
    ensures
        esc_str(a + b) == esc_str(a) + esc_str(b),
    decreases a.len(),
{
    if a.len() == 0 {
        assert(a + b =~= b);
        assert(esc_str(a) + esc_str(b) =~= esc_str(b));
    } else {
        assert((a + b).drop_first() =~= a.drop_first() + b);
        lemma_esc_str_concat(a.drop_first(), b);
        assert(esc_str(a + b) =~= esc_str(a) + esc_str(b));
    }
}

proof fn lemma_esc_str_step(s: Seq<char>, i: int)
    requires
        0 <= i < s.len(),
    ensures
        esc_str(s.take(i + 1)) == esc_str(s.take(i)) + esc_char(s[i]),
{
    assert(s.take(i + 1) =~= s.take(i) + seq![s[i]]);
    lemma_esc_str_concat(s.take(i), seq![s[i]]);
    assert(seq![s[i]].drop_first() =~= Seq::<char>::empty());
    assert(esc_str(Seq::<char>::empty()) == Seq::<char>::empty());
    assert(esc_str(seq![s[i]]) =~= esc_char(s[i]));
}

/// Writes `s` as a quoted JSON string.
pub fn write_json_string(out: &mut Vec<char>, s: &Vec<char>)
    ensures
        final(out)@ == old(out)@ + ser_str(s@),
{
    out.push('"');
    let mut i: usize = 0;
    while i < s.len()
        invariant
            0 <= i <= s@.len(),
            out@ == old(out)@ + seq!['"'] + esc_str(s@.take(i as int)),
        decreases s@.len() - i,
    {
        esc_push(out, s[i]);
        proof {
            lemma_esc_str_step(s@, i as int);
        }
        i = i + 1;
    }
    out.push('"');
    assert(s@.take(s@.len() as int) =~= s@);
    assert(out@ =~= old(out)@ + ser_str(s@));
}

/// Copies the characters of a string into a vector.
pub fn str_to_chars(s: &str) -> (r: Vec<char>)
    ensures
        r@ == s@,
{
    let n = s.unicode_len();
    let mut r: Vec<char> = Vec::new();
    let mut i: usize = 0;
    while i < n
        invariant
            n == s@.len(),
            0 <= i <= n,
            r@ == s@.take(i as int),
        decreases n - i,
    {
        r.push(s.get_char(i));
        assert(r@ =~= s@.take(i + 1));
        i = i + 1;
    }
    assert(r@ =~= s@);
    r
}

/// Relies on `String::push`, which appends the given character to the end of
/// the string.
#[verifier::external_body]
fn push_char(s: &mut String, c: char)
    ensures
        final(s)@ == old(s)@.push(c),
{
    s.push(c)
}

/// Builds a string out of a vector of characters.
pub fn chars_to_string(v: &Vec<char>) -> (r: String)
    ensures
        r@ == v@,
{
    let mut r = String::new();
    let mut i: usize = 0;
    while i < v.len()
        invariant
            0 <= i <= v@.len(),
            r@ == v@.take(i as int),
        decreases v@.len() - i,
    {
        push_char(&mut r, v[i]);
        assert(r@ =~= v@.take(i + 1));
        i = i + 1;
    }
    assert(r@ =~= v@);
    r
}

/// Compares two character vectors for equality of their contents.
pub fn chars_eq(a: &Vec<char>, b: &Vec<char>) -> (r: bool)
    ensures
        r <==> a@ == b@,
{
    if a.len() != b.len() {
        assert(a@ != b@);
        return false;
    }
    let mut i: usize = 0;
    while i < a.len()
        invariant
            a@.len() == b@.len(),
            0 <= i <= a@.len(),
            forall|j: int| 0 <= j < i ==> a@[j] == b@[j],
        decreases a@.len() - i,
    {
        if a[i] != b[i] {
            assert(a@ != b@);
            return false;
        }
        i = i + 1;
    }
    assert(a@ =~= b@);
    true
}

/// Writes the canonical rendering of `v`.
pub fn write_val(out: &mut Vec<char>, v: &JsonValue)
    ensures
        final(out)@ == old(out)@ + ser_val(*v),
    decreases v,
{
    match v {
        JsonValue::Null => {
            out.push('n');
            out.push('u');
            out.push('l');
            out.push('l');
            assert(out@ =~= old(out)@ + ser_val(*v));
        },
        JsonValue::Bool(b) => {
            if *b {
                out.push('t');
                out.push('r');
                out.push('u');
                out.push('e');
            } else {
                out.push('f');
                out.push('a');
                out.push('l');
                out.push('s');
                out.push('e');
            }
            assert(out@ =~= old(out)@ + ser_val(*v));
        },
        JsonValue::Int(n) => {
            int_to_chars(out, *n);
        },
        JsonValue::Str(s) => {
            let cs = str_to_chars(s.as_str());
            write_json_string(out, &cs);
        },
        JsonValue::Arr(elems) => {
            out.push('[');
            let ghost goal = old(out)@ + ser_val(*v);
            assert(out@ + ser_arr(elems@, 0) + seq![']'] =~= goal);
            let mut k: usize = 0;
            while k < elems.len()
                invariant
                    *v == JsonValue::Arr(*elems),
                    0 <= k <= elems@.len(),
                    out@ + ser_arr(elems@, k as int) + seq![']'] =~= goal,
                decreases elems@.len() - k,
            {
                proof {
                    assert(*elems == v->Arr_0);
                    assert(decreases_to!(*v => v->Arr_0));
                    assert(decreases_to!(v->Arr_0 => v->Arr_0@));
                    assert(decreases_to!(v->Arr_0@ => v->Arr_0@[k as int]));
                }
                write_val(out, &elems[k]);
                if k + 1 < elems.len() {
                    out.push(',');
                }
                assert(out@ + ser_arr(elems@, (k + 1) as int) + seq![']'] =~= goal);
                k = k + 1;
            }
            out.push(']');
            assert(out@ =~= goal);
        },
        JsonValue::Obj(fields) => {
            out.push('{');
            let ghost goal = old(out)@ + ser_val(*v);
            assert(out@ + ser_obj(fields@, 0) + seq!['}'] =~= goal);
            let mut k: usize = 0;
            while k < fields.len()
                invariant
                    *v == JsonValue::Obj(*fields),
                    0 <= k <= fields@.len(),
                    out@ + ser_obj(fields@, k as int) + seq!['}'] =~= goal,
                decreases fields@.len() - k,
            {
                let key = str_to_chars(fields[k].0.as_str());
                write_json_string(out, &key);
                out.push(':');
                proof {
                    assert(*fields == v->Obj_0);
                    assert(decreases_to!(*v => v->Obj_0));
                    assert(decreases_to!(v->Obj_0 => v->Obj_0@));
                    assert(decreases_to!(v->Obj_0@ => v->Obj_0@[k as int]));
                    assert(decreases_to!(v->Obj_0@[k as int] => v->Obj_0@[k as int].1));
                }
                write_val(out, &fields[k].1);
                if k + 1 < fields.len() {
                    out.push(',');
                }
                assert(ser_member(fields@[k as int]) == ser_str(fields@[k as int].0@) + seq![':']
                    + ser_val(fields@[k as int].1));
                assert(out@ + ser_obj(fields@, (k + 1) as int) + seq!['}'] =~= goal);
                k = k + 1;
            }
            out.push('}');
            assert(out@ =~= goal);
        },
    }
}


fn is_digit_exec(c: char) -> (r: bool)
    ensures
        r == is_digit(c),
{
    let u = c as u32;
    48 <= u && u <= 57
}

fn hex_val(c: char) -> (r: Option<u32>)
    ensures
        r matches Some(v) ==> v < 16 && c == hex_char(v as int),
        r is None ==> forall|d: int| 0 <= d < 16 ==> c != hex_char(d),
{
    let u = c as u32;
    if 48 <= u && u <= 57 {
        proof {
            assert(hex_char((u - 48) as int) == (((48 + (u - 48)) as u8) as char));
            assert((((c as u32) as u8) as char) == c);
        }
        Some(u - 48)
    } else if 97 <= u && u <= 102 {
        proof {
            assert(hex_char((u - 87) as int) == (((87 + (u - 87)) as u8) as char));
            assert((((c as u32) as u8) as char) == c);
        }
        Some(u - 87)
    } else {
        proof {
            assert forall|d: int| 0 <= d < 16 implies c != hex_char(d) by {
                if d < 10 {
                    assert((((48 + d) as u8) as char) as u32 == 48 + d);
                } else {
                    assert((((87 + d) as u8) as char) as u32 == 87 + d);
                }
            }
        }
        None
    }
}


/// Whatever the string parser accepts was consumed as exactly the canonical
/// rendering of the returned contents.
pub open spec fn string_sound(s: Seq<char>, i: int, r: Result<(Vec<char>, usize), ()>) -> bool {
    match r {
        Ok(p) => i < p.1 <= s.len() && s.subrange(i, p.1 as int) == ser_str(p.0@),
        Err(()) => true,
    }
}

/// The string parser accepts every canonical string rendering and recovers
/// its contents and extent exactly.
pub open spec fn string_complete(s: Seq<char>, i: int, r: Result<(Vec<char>, usize), ()>) -> bool {
    forall|content: Seq<char>, rest: Seq<char>|
        #[trigger] str_decomp(s, i, content, rest) ==> (match r {
            Ok(p) => p.0@ == content && p.1 == i + ser_str(content).len(),
            Err(()) => false,
        })
}

/// Mid-scan relation: what has been read so far is a prefix of every
/// possible contents, rendered.
spec fn strscan_inv(s: Seq<char>, i: int, cur: int, out: Seq<char>) -> bool {
    forall|content: Seq<char>, rest: Seq<char>|
        #[trigger] str_decomp(s, i, content, rest) ==> out.len() <= content.len()
            && out == content.take(out.len() as int)
            && cur == i + 1 + esc_str(content.take(out.len() as int)).len()
}

proof fn lemma_esc_str_push(a: Seq<char>, c: char)
    ensures
        esc_str(a.push(c)) == esc_str(a) + esc_char(c),
{
    assert(a.push(c) =~= a + seq![c]);
    lemma_esc_str_concat(a, seq![c]);
    assert(seq![c].drop_first() =~= Seq::<char>::empty());
    assert(esc_str(Seq::<char>::empty()) == Seq::<char>::empty());
    assert(esc_str(seq![c]) =~= esc_char(c));
}

/// What the scan faces next, under any decomposition: the closing quote
/// exactly at the end, or the escape of the next content character.
proof fn lemma_strscan_next(
    s: Seq<char>,
    i: int,
    cur: int,
    out: Seq<char>,
    content: Seq<char>,
    rest: Seq<char>,
)
    requires
        str_decomp(s, i, content, rest),
        0 <= i < cur <= s.len(),
        out.len() <= content.len(),
        out == content.take(out.len() as int),
        cur == i + 1 + esc_str(content.take(out.len() as int)).len(),
    ensures
        cur < s.len(),
        out.len() == content.len() ==> s[cur] == '"' && i + ser_str(content).len() == cur + 1,
        out.len() < content.len() ==> cur + esc_char(content[out.len() as int]).len() <= s.len()
            && s.subrange(cur, cur + esc_char(content[out.len() as int]).len()) == esc_char(
            content[out.len() as int],
        ),
{
    let k = out.len() as int;
    assert(content =~= content.take(k) + content.skip(k));
    lemma_esc_str_concat(content.take(k), content.skip(k));
    let e = esc_str(content.take(k)).len() as int;
    assert(esc_str(content) == esc_str(content.take(k)) + esc_str(content.skip(k)));
    assert(ser_str(content) == seq!['"'] + esc_str(content) + seq!['"']);
    assert(s.skip(i).len() == s.len() - i);
    assert(s.len() - i == ser_str(content).len() + rest.len());
    assert(forall|t: int| 0 <= t < s.len() - i ==> #[trigger] s.skip(i)[t] == s[i + t]);
    if k == content.len() {
        assert(content.skip(k) =~= Seq::<char>::empty());
        assert(esc_str(Seq::<char>::empty()) == Seq::<char>::empty());
        assert(esc_str(content).len() == e);
        assert(cur - i == 1 + e);
        assert(ser_str(content).len() == 2 + e);
        assert(cur < s.len());
        assert(s.skip(i)[cur - i] == (ser_str(content) + rest)[1 + e]);
        assert(ser_str(content)[1 + e] == '"');
        assert(s[cur] == '"');
    } else {
        assert(content.skip(k).len() > 0);
        assert(content.skip(k)[0] == content[k]);
        assert(content.skip(k).drop_first() =~= content.skip(k + 1));
        assert(esc_str(content.skip(k)) == esc_char(content[k]) + esc_str(content.skip(k + 1)));
        let m = esc_char(content[k]).len();
        assert(esc_str(content).len() == e + m + esc_str(content.skip(k + 1)).len());
        assert(cur + m <= s.len());
        assert forall|t: int| 0 <= t < m implies s.subrange(cur, cur + m)[t] == esc_char(
            content[k],
        )[t] by {
            assert(s.subrange(cur, cur + m)[t] == s[cur + t]);
            assert(s.skip(i)[cur - i + t] == s[cur + t]);
            assert((ser_str(content) + rest)[1 + e + t] == ser_str(content)[1 + e + t]);
            assert(ser_str(content)[1 + e + t] == esc_str(content)[e + t]);
            assert(esc_str(content)[e + t] == esc_char(content[k])[t]);
        }
        assert(s.subrange(cur, cur + m) =~= esc_char(content[k]));
    }
}


proof fn lemma_esc_char_cases(c: char)
    ensures
        esc_char(c).len() >= 1,
        esc_char(c)[0] != '"',
        esc_char(c)[0] == '\\' || esc_char(c) == seq![c],
        esc_char(c)[0] == '\\' ==> esc_char(c).len() >= 2,
        esc_char(c) == seq![c] ==> c != '"' && c != '\\' && (c as u32) >= 32,
{
    if esc_char(c) == seq![c] {
        assert(esc_char(c).len() == seq![c].len());
        assert(seq![c].len() == 1);
        if c == '"' || c == '\\' || c == '\n' || c == '\r' || c == '\t' {
            assert(esc_char(c).len() == 2);
        } else if (c as u32) < 32 {
            assert(esc_char(c).len() == 6);
        }
    }
}

proof fn lemma_hex_char_inj(d1: int, d2: int)
    requires
        0 <= d1 < 16,
        0 <= d2 < 16,
        hex_char(d1) == hex_char(d2),
    ensures
        d1 == d2,
{
    if d1 < 10 {
        assert((((48 + d1) as u8) as char) as u32 == 48 + d1);
    } else {
        assert((((87 + d1) as u8) as char) as u32 == 87 + d1);
    }
    if d2 < 10 {
        assert((((48 + d2) as u8) as char) as u32 == 48 + d2);
    } else {
        assert((((87 + d2) as u8) as char) as u32 == 87 + d2);
    }
}

/// Two escape sequences read at the same position denote the same character.
proof fn lemma_esc_char_prefix(a: char, b: char, s: Seq<char>, cur: int)
    requires
        0 <= cur,
        cur + esc_char(a).len() <= s.len(),
        cur + esc_char(b).len() <= s.len(),
        s.subrange(cur, cur + esc_char(a).len()) == esc_char(a),
        s.subrange(cur, cur + esc_char(b).len()) == esc_char(b),
    ensures
        a == b,
{
    let ea = esc_char(a);
    let eb = esc_char(b);
    assert(forall|t: int| 0 <= t < ea.len() ==> #[trigger] ea[t] == s.subrange(cur, cur + ea.len())[t]);
    assert(forall|t: int| 0 <= t < ea.len() ==> #[trigger] s.subrange(cur, cur + ea.len())[t] == s[cur + t]);
    assert(forall|t: int| 0 <= t < eb.len() ==> #[trigger] eb[t] == s.subrange(cur, cur + eb.len())[t]);
    assert(forall|t: int| 0 <= t < eb.len() ==> #[trigger] s.subrange(cur, cur + eb.len())[t] == s[cur + t]);
    lemma_esc_char_cases(a);
    lemma_esc_char_cases(b);
    assert(ea[0] == s[cur] && eb[0] == s[cur]);
    if ea[0] != '\\' {
        assert(ea == seq![a] && eb == seq![b]);
        assert(a == s[cur] && b == s[cur]);
    } else {
        assert(eb[0] == '\\');
        assert(ea[1] == s[cur + 1] && eb[1] == s[cur + 1]);
        if ea[1] == 'u' {
            assert((a as u32) < 32 && a != '\n' && a != '\r' && a != '\t');
            assert(eb[1] == 'u');
            assert((b as u32) < 32 && b != '\n' && b != '\r' && b != '\t');
            assert(ea[4] == hex_char(a as u32 as int / 16) && ea[5] == hex_char(a as u32 as int % 16));
            assert(eb[4] == hex_char(b as u32 as int / 16) && eb[5] == hex_char(b as u32 as int % 16));
            assert(ea[4] == s[cur + 4] && eb[4] == s[cur + 4]);
            assert(ea[5] == s[cur + 5] && eb[5] == s[cur + 5]);
            lemma_hex_char_inj(a as u32 as int / 16, b as u32 as int / 16);
            lemma_hex_char_inj(a as u32 as int % 16, b as u32 as int % 16);
            assert(a as u32 == b as u32);
            assert(a == b);
        } else {
            assert(eb[1] != 'u');
            assert(a == b);
        }
    }
}


/// After a backslash, the next content character is escaped and its whole
/// escape sequence lies in the text.
spec fn esc_next_facts(s: Seq<char>, i: int, cur: int, out: Seq<char>, content: Seq<char>) -> bool {
    let k = out.len() as int;
    &&& k < content.len()
    &&& esc_char(content[k])[0] == '\\'
    &&& esc_char(content[k]).len() >= 2
    &&& cur + esc_char(content[k]).len() <= s.len()
    &&& s.subrange(cur, cur + esc_char(content[k]).len()) == esc_char(content[k])
    &&& s[cur + 1] == esc_char(content[k])[1]
}

/// Unfolds the six-character escape of a control character at `cur`.
proof fn lemma_u_escape_shape(s: Seq<char>, cur: int, c: char)
    requires
        0 <= cur,
        s[cur + 1] == esc_char(c)[1],
        esc_char(c)[0] == '\\',
        esc_char(c).len() >= 2,
        cur + esc_char(c).len() <= s.len(),
        s.subrange(cur, cur + esc_char(c).len()) == esc_char(c),
        s[cur + 1] == 'u',
    ensures
        esc_char(c).len() == 6,
        (c as u32) < 32,
        c != '\n' && c != '\r' && c != '\t',
        (c as u32) != 9 && (c as u32) != 10 && (c as u32) != 13,
        s[cur + 2] == '0',
        s[cur + 3] == '0',
        s[cur + 4] == hex_char(c as u32 as int / 16),
        s[cur + 5] == hex_char(c as u32 as int % 16),
{
    lemma_esc_char_cases(c);
    assert(esc_char(c)[1] == 'u');
    assert((c as u32) < 32);
    assert(('\t' as u32) == 9 && ('\n' as u32) == 10 && ('\r' as u32) == 13);
    if c as u32 == 9 {
        assert(c == '\t');
    }
    if c as u32 == 10 {
        assert(c == '\n');
    }
    if c as u32 == 13 {
        assert(c == '\r');
    }
    assert(forall|t: int|
        0 <= t < esc_char(c).len() ==> #[trigger] s.subrange(cur, cur + esc_char(c).len())[t]
            == s[cur + t]);
    assert(hex_char(0) == '0');
    assert(esc_char(c)[2] == '0' && esc_char(c)[3] == '0');
}

/// Consuming one escape sequence extends the scan by its character, under
/// every decomposition.
proof fn lemma_strscan_consume(s: Seq<char>, i: int, cur: int, out: Seq<char>, ch: char)
    requires
        strscan_inv(s, i, cur, out),
        0 <= i < cur,
        cur + esc_char(ch).len() <= s.len(),
        s.subrange(cur, cur + esc_char(ch).len()) == esc_char(ch),
        s[cur] != '"',
    ensures
        strscan_inv(s, i, cur + esc_char(ch).len(), out.push(ch)),
{
    assert forall|content: Seq<char>, rest: Seq<char>|
        #[trigger] str_decomp(s, i, content, rest) implies out.push(ch).len() <= content.len()
            && out.push(ch) == content.take(out.push(ch).len() as int)
            && cur + esc_char(ch).len() == i + 1 + esc_str(
            content.take(out.push(ch).len() as int),
        ).len() by {
        let k = out.len() as int;
        lemma_strscan_next(s, i, cur, out, content, rest);
        lemma_esc_char_cases(ch);
        if k == content.len() {
            assert(s[cur] == '"');
        }
        assert(k < content.len());
        lemma_esc_char_prefix(ch, content[k], s, cur);
        assert(ch == content[k]);
        assert(content.take(k + 1) =~= content.take(k).push(content[k]));
        lemma_esc_str_push(content.take(k), content[k]);
        assert(esc_str(content.take(k + 1)) == esc_str(content.take(k)) + esc_char(content[k]));
        assert(out.push(ch) =~= content.take(k + 1));
    }
}

/// Reads one quoted JSON string starting at `i`; returns its unescaped
/// contents and the position just past the closing quote.
#[verifier::rlimit(80)]
pub fn parse_string_at(s: &Vec<char>, i: usize) -> (r: Result<(Vec<char>, usize), ()>)
    requires
        i <= s@.len(),
    ensures
        string_sound(s@, i as int, r),
        string_complete(s@, i as int, r),
{
    let ghost gold = s@;
    let n = s.len();
    if i >= n {
        proof {
            assert forall|content: Seq<char>, rest: Seq<char>|
                #[trigger] str_decomp(gold, i as int, content, rest) implies false by {
                assert(gold.skip(i as int).len() == 0);
                assert(ser_str(content).len() >= 2);
            }
        }
        return Err(());
    }
    if s[i] != '"' {
        proof {
            assert forall|content: Seq<char>, rest: Seq<char>|
                #[trigger] str_decomp(gold, i as int, content, rest) implies false by {
                assert(gold.skip(i as int)[0] == gold[i as int]);
                assert((ser_str(content) + rest)[0] == ser_str(content)[0]);
                assert(ser_str(content)[0] == '"');
            }
        }
        return Err(());
    }
    let mut out: Vec<char> = Vec::new();
    let mut cur: usize = i + 1;
    proof {
        assert(gold.subrange(i + 1, i + 1) =~= Seq::<char>::empty());
        assert(esc_str(Seq::<char>::empty()) == Seq::<char>::empty());
        assert forall|content: Seq<char>, rest: Seq<char>|
            #[trigger] str_decomp(gold, i as int, content, rest) implies out@.len()
            <= content.len() && out@ == content.take(out@.len() as int) && (i + 1) as int == i + 1
            + esc_str(content.take(out@.len() as int)).len() by {
            assert(content.take(0) =~= Seq::<char>::empty());
        }
        assert(strscan_inv(gold, i as int, (i + 1) as int, out@));
    }
    loop
        invariant
            i < cur <= n,
            n == gold.len(),
            gold == s@,
            gold[i as int] == '"',
            gold.subrange(i + 1, cur as int) == esc_str(out@),
            strscan_inv(gold, i as int, cur as int, out@),
        decreases n - cur,
    {
        if cur >= n {
            proof {
                assert forall|content: Seq<char>, rest: Seq<char>|
                    #[trigger] str_decomp(gold, i as int, content, rest) implies false by {
                    lemma_strscan_next(gold, i as int, cur as int, out@, content, rest);
                }
            }
            return Err(());
        }
        let c = s[cur];
        if c == '"' {
            proof {
                assert(gold.subrange(i as int, cur + 1) =~= seq!['"'] + esc_str(out@)
                    + seq!['"']);
                assert forall|content: Seq<char>, rest: Seq<char>|
                    #[trigger] str_decomp(gold, i as int, content, rest) implies out@ == content
                    && cur + 1 == i + ser_str(content).len() by {
                    let k = out@.len() as int;
                    lemma_strscan_next(gold, i as int, cur as int, out@, content, rest);
                    if k < content.len() {
                        lemma_esc_char_cases(content[k]);
                        let m = esc_char(content[k]).len();
                        assert(gold.subrange(cur as int, cur + m)[0] == gold[cur as int]);
                        assert(esc_char(content[k])[0] != '"');
                    }
                    assert(k == content.len());
                    assert(content.take(content.len() as int) =~= content);
                }
            }
            return Ok((out, cur + 1));
        } else if c == '\\' {
            if cur + 1 >= n {
                proof {
                    assert forall|content: Seq<char>, rest: Seq<char>|
                        #[trigger] str_decomp(gold, i as int, content, rest) implies false by {
                        let k = out@.len() as int;
                        lemma_strscan_next(gold, i as int, cur as int, out@, content, rest);
                        assert(k < content.len());
                        lemma_esc_char_cases(content[k]);
                        let m = esc_char(content[k]).len();
                        assert(gold.subrange(cur as int, cur + m)[0] == gold[cur as int]);
                        assert(esc_char(content[k])[0] == '\\');
                        assert(m >= 2);
                    }
                }
                return Err(());
            }
            let e = s[cur + 1];
            let ghost prev = out@;
            let ghost pcur = cur as int;
            proof {
                assert forall|content: Seq<char>, rest: Seq<char>|
                    #[trigger] str_decomp(gold, i as int, content, rest) implies esc_next_facts(
                    gold,
                    i as int,
                    pcur,
                    prev,
                    content,
                ) by {
                    let k = prev.len() as int;
                    lemma_strscan_next(gold, i as int, pcur, prev, content, rest);
                    assert(k < content.len());
                    lemma_esc_char_cases(content[k]);
                    let m = esc_char(content[k]).len();
                    assert(gold.subrange(pcur, pcur + m)[0] == gold[pcur]);
                    assert(esc_char(content[k])[0] == '\\');
                    assert(m >= 2);
                    assert(gold.subrange(pcur, pcur + m)[1] == gold[pcur + 1]);
                }
            }
            if e == '"' {
                out.push('"');
                proof {
                    assert(gold.subrange(pcur, pcur + 2) =~= esc_char('"'));
                    lemma_strscan_consume(gold, i as int, pcur, prev, '"');
                    lemma_esc_str_push(prev, '"');
                    assert(gold.subrange(i + 1, pcur + 2) =~= esc_str(prev) + esc_char('"'));
                }
                cur = cur + 2;
            } else if e == '\\' {
                out.push('\\');
                proof {
                    assert(gold.subrange(pcur, pcur + 2) =~= esc_char('\\'));
                    lemma_strscan_consume(gold, i as int, pcur, prev, '\\');
                    lemma_esc_str_push(prev, '\\');
                    assert(gold.subrange(i + 1, pcur + 2) =~= esc_str(prev) + esc_char('\\'));
                }
                cur = cur + 2;
            } else if e == 'n' {
                out.push('\n');
                proof {
                    assert(gold.subrange(pcur, pcur + 2) =~= esc_char('\n'));
                    lemma_strscan_consume(gold, i as int, pcur, prev, '\n');
                    lemma_esc_str_push(prev, '\n');
                    assert(gold.subrange(i + 1, pcur + 2) =~= esc_str(prev) + esc_char('\n'));
                }
                cur = cur + 2;
            } else if e == 'r' {
                out.push('\r');
                proof {
                    assert(gold.subrange(pcur, pcur + 2) =~= esc_char('\r'));
                    lemma_strscan_consume(gold, i as int, pcur, prev, '\r');
                    lemma_esc_str_push(prev, '\r');
                    assert(gold.subrange(i + 1, pcur + 2) =~= esc_str(prev) + esc_char('\r'));
                }
                cur = cur + 2;
            } else if e == 't' {
                out.push('\t');
                proof {
                    assert(gold.subrange(pcur, pcur + 2) =~= esc_char('\t'));
                    lemma_strscan_consume(gold, i as int, pcur, prev, '\t');
                    lemma_esc_str_push(prev, '\t');
                    assert(gold.subrange(i + 1, pcur + 2) =~= esc_str(prev) + esc_char('\t'));
                }
                cur = cur + 2;
            } else if e == 'u' {
                if n - cur < 6 {
                    proof {
                        assert forall|content: Seq<char>, rest: Seq<char>|
                            #[trigger] str_decomp(gold, i as int, content, rest) implies false by {
                            let k = prev.len() as int;
                            assert(esc_next_facts(gold, i as int, pcur, prev, content));
                            assert(esc_char(content[k])[1] == 'u');
                            assert(esc_char(content[k]).len() == 6);
                        }
                    }
                    return Err(());
                }
                let h3 = hex_val(s[cur + 4]);
                let h4 = hex_val(s[cur + 5]);
                let z1 = s[cur + 2] == '0';
                let z2 = s[cur + 3] == '0';
                match (h3, h4) {
                    (Some(hv3), Some(hv4)) if z1 && z2 => {
                        let u: u32 = hv3 * 16 + hv4;
                        if u >= 32 || u == 9 || u == 10 || u == 13 {
                            proof {
                                assert forall|content: Seq<char>, rest: Seq<char>|
                                    #[trigger] str_decomp(gold, i as int, content, rest)
                                    implies false by {
                                    let k = prev.len() as int;
                                    assert(esc_next_facts(gold, i as int, pcur, prev, content));
                                    lemma_u_escape_shape(gold, pcur, content[k]);
                                    lemma_hex_char_inj(
                                        hv3 as int,
                                        content[k] as u32 as int / 16,
                                    );
                                    lemma_hex_char_inj(
                                        hv4 as int,
                                        content[k] as u32 as int % 16,
                                    );
                                    assert(u == content[k] as u32);
                                }
                            }
                            return Err(());
                        }
                        let ch = (u as u8) as char;
                        out.push(ch);
                        proof {
                            assert(ch as u32 == u);
                            assert(esc_char(ch) == seq![
                                '\\',
                                'u',
                                '0',
                                '0',
                                hex_char(u as int / 16),
                                hex_char(u as int % 16),
                            ]);
                            assert(hex_char(0) == '0');
                            assert(u as int / 16 == hv3 as int && u as int % 16 == hv4 as int);
                            assert(gold.subrange(pcur, pcur + 6) =~= esc_char(ch));
                            lemma_strscan_consume(gold, i as int, pcur, prev, ch);
                            lemma_esc_str_push(prev, ch);
                            assert(gold.subrange(i + 1, pcur + 6) =~= esc_str(prev) + esc_char(
                                ch,
                            ));
                        }
                        cur = cur + 6;
                    },
                    _ => {
                        proof {
                            assert forall|content: Seq<char>, rest: Seq<char>|
                                #[trigger] str_decomp(gold, i as int, content, rest)
                                implies false by {
                                let k = prev.len() as int;
                                assert(esc_next_facts(gold, i as int, pcur, prev, content));
                                lemma_u_escape_shape(gold, pcur, content[k]);
                            }
                        }
                        return Err(());
                    },
                }
            } else {
                proof {
                    assert forall|content: Seq<char>, rest: Seq<char>|
                        #[trigger] str_decomp(gold, i as int, content, rest) implies false by {
                        let k = prev.len() as int;
                        assert(esc_next_facts(gold, i as int, pcur, prev, content));
                    }
                }
                return Err(());
            }
        } else {
            if (c as u32) < 32 {
                proof {
                    assert forall|content: Seq<char>, rest: Seq<char>|
                        #[trigger] str_decomp(gold, i as int, content, rest) implies false by {
                        let k = out@.len() as int;
                        lemma_strscan_next(gold, i as int, cur as int, out@, content, rest);
                        assert(k < content.len());
                        lemma_esc_char_cases(content[k]);
                        let m = esc_char(content[k]).len();
                        assert(gold.subrange(cur as int, cur + m)[0] == gold[cur as int]);
                    }
                }
                return Err(());
            }
            let ghost prev = out@;
            let ghost pcur = cur as int;
            out.push(c);
            proof {
                assert(esc_char(c) == seq![c]);
                assert(gold.subrange(pcur, pcur + 1) =~= esc_char(c));
                lemma_strscan_consume(gold, i as int, pcur, prev, c);
                lemma_esc_str_push(prev, c);
                assert(gold.subrange(i + 1, pcur + 1) =~= esc_str(prev) + esc_char(c));
            }
            cur = cur + 1;
        }
    }
}

pub open spec fn pow10(k: int) -> int
    decreases k,
{
    if k <= 0 {
        1
    } else {
        10 * pow10(k - 1)
    }
}

proof fn lemma_pow10_facts()
    ensures
        pow10(18) == 1000000000000000000,
        pow10(19) == 10000000000000000000,
        forall|k: int| 0 <= k < 19 ==> #[trigger] pow10(k) <= pow10(18),
{
    reveal_with_fuel(pow10, 21);
    assert forall|k: int| 0 <= k < 19 implies #[trigger] pow10(k) <= pow10(18) by {
        lemma_pow10_mono(k, 18);
    }
}

proof fn lemma_pow10_mono(a: int, b: int)
    requires
        0 <= a <= b,
    ensures
        pow10(a) <= pow10(b),
        pow10(a) >= 1,
    decreases b,
{
    if a < b {
        lemma_pow10_mono(a, b - 1);
        assert(pow10(b) == 10 * pow10(b - 1));
    } else {
        lemma_pow10_mono_base(a);
    }
}

proof fn lemma_pow10_mono_base(a: int)
    requires
        0 <= a,
    ensures
        pow10(a) >= 1,
    decreases a,
{
    if a > 0 {
        lemma_pow10_mono_base(a - 1);
    }
}



pub open spec fn spec_abs(n: int) -> int {
    if n < 0 {
        -n
    } else {
        n
    }
}

/// The position just past what a parser consumed, or -1 on refusal.
pub open spec fn result_end<T>(r: Result<(T, usize), ()>) -> int {
    match r {
        Ok(p) => p.1 as int,
        Err(_) => -1,
    }
}

/// Under a decomposition into a canonical integer and a non-digit tail, the
/// digit scan lands exactly at the rendering's end.
proof fn lemma_decomp_number(
    gold: Seq<char>,
    i: int,
    v: JsonValue,
    rest: Seq<char>,
    start: int,
    cur: int,
    acc: int,
    neg: bool,
)
    requires
        val_decomp(gold, i, v, rest),
        v is Int,
        follows_ok(rest),
        0 <= i <= start <= cur <= gold.len(),
        neg <==> (i < gold.len() && gold[i] == '-'),
        neg ==> start == i + 1,
        !neg ==> start == i,
        digits_range(gold, start, cur),
        acc == num_of(gold.subrange(start, cur)),
        cur == gold.len() || !is_digit(gold[cur]) || cur - start == 19,
    ensures
        ({
            let m = v->Int_0 as int;
            let a = spec_abs(m);
            &&& cur == start + ser_nat(a).len()
            &&& gold.subrange(start, cur) == ser_nat(a)
            &&& acc == a
            &&& neg <==> m < 0
            &&& cur - start > 1 ==> gold[start] != '0'
            &&& !(neg && gold[start] == '0')
            &&& cur < gold.len() ==> !is_digit(gold[cur])
            &&& cur != start
            &&& i + ser_val(v).len() == cur
        }),
{
    let m = v->Int_0 as int;
    let a = spec_abs(m);
    lemma_ser_nat_shape(a);
    let nats = ser_nat(a);
    let l = nats.len();
    assert(ser_val(v) == ser_int(m));
    assert(gold.skip(i).len() == gold.len() - i);
    assert(forall|j: int| 0 <= j < gold.len() - i ==> #[trigger] gold.skip(i)[j] == gold[i + j]);
    if m < 0 {
        assert(ser_int(m) == seq!['-'] + nats);
        assert(gold.skip(i)[0] == gold[i]);
        assert(gold[i] == '-');
        assert(neg);
        assert forall|k: int| 0 <= k < l implies #[trigger] gold[start + k] == nats[k] by {
            assert(gold.skip(i)[1 + k] == gold[i + 1 + k]);
            assert((ser_val(v) + rest)[1 + k] == ser_val(v)[1 + k]);
            assert(ser_val(v)[1 + k] == nats[k]);
        }
    } else {
        assert(ser_int(m) == nats);
        assert(gold.skip(i)[0] == gold[i]);
        assert(gold[i] == nats[0]);
        assert(is_digit(nats[0]));
        assert(!is_digit('-'));
        assert(!neg);
        assert forall|k: int| 0 <= k < l implies #[trigger] gold[start + k] == nats[k] by {
            assert(gold.skip(i)[k] == gold[i + k]);
            assert((ser_val(v) + rest)[k] == ser_val(v)[k]);
        }
    }
    assert(ser_val(v).len() == (start - i) + l);
    assert(start + l <= gold.len());
    // the char after the digits, if any, is no digit
    if start + l < gold.len() {
        assert(gold.skip(i)[(start - i) + l] == gold[start + l]);
        assert((ser_val(v) + rest)[(start - i) + l] == rest[0]);
        assert(gold[start + l] == rest[0]);
        assert(rest.len() > 0);
        assert(!is_digit(gold[start + l]));
    }
    // the scan cannot pass the rendering's end
    assert(cur <= start + l) by {
        if cur > start + l {
            assert(is_digit(gold[start + l]));
        }
    }
    // nor stop short of it
    assert(cur >= start + l) by {
        if cur < start + l {
            assert(gold[start + (cur - start)] == nats[cur - start]);
            assert(is_digit(gold[cur]));
            assert(cur != gold.len());
            assert(cur - start == 19);
            assert(a <= 9223372036854775808);
            lemma_pow10_facts();
            assert(9223372036854775808 < pow10(19));
            lemma_ser_nat_len(a, 19);
            assert(l <= 19);
        }
    }
    assert(cur == start + l);
    assert forall|k: int| 0 <= k < l implies gold.subrange(start, cur)[k] == nats[k] by {
        assert(gold.subrange(start, cur)[k] == gold[start + k]);
    }
    assert(gold.subrange(start, cur) =~= nats);
    assert(acc == num_of(nats));
    assert(acc == a);
    if l > 1 {
        assert(a != 0);
        assert(nats[0] != '0');
        assert(gold[start] == nats[0]);
    }
    if neg {
        assert(a >= 1);
        assert(nats[0] != '0');
        assert(gold[start] == nats[0]);
    }
    assert(ser_val(v).len() == (if m < 0 { 1int } else { 0int }) + l);
}


proof fn lemma_digit_roundtrip(c: char)
    requires
        is_digit(c),
    ensures
        digit_char(digit_val(c)) == c,
        0 <= digit_val(c) <= 9,
        c != '0' ==> digit_val(c) >= 1,
{
    assert(48 + digit_val(c) == c as u32);
    assert(digit_char(digit_val(c)) == (((c as u32) as u8) as char));
    assert((((c as u32) as u8) as char) == c);
    if c != '0' && c as u32 == 48 {
        assert(('0' as u32) == 48);
        assert(((('0' as u32) as u8) as char) == '0');
        assert(c == '0');
    }
}

proof fn lemma_ser_nat_shape(n: int)
    requires
        n >= 0,
    ensures
        ser_nat(n).len() >= 1,
        forall|k: int| 0 <= k < ser_nat(n).len() ==> is_digit(#[trigger] ser_nat(n)[k]),
        (ser_nat(n)[0] == '0') == (n == 0),
        num_of(ser_nat(n)) == n,
    decreases n,
{
    if n < 10 {
        assert(ser_nat(n) == seq![digit_char(n)]);
        assert(seq![digit_char(n)].drop_last() =~= Seq::<char>::empty());
        assert(num_of(Seq::<char>::empty()) == 0);
        assert(seq![digit_char(n)].last() == digit_char(n));
        assert((((48 + n) as u8) as char) as u32 == 48 + n);
        assert(is_digit(digit_char(n)));
        assert(digit_val(digit_char(n)) == n);
    } else {
        lemma_ser_nat_shape(n / 10);
        assert(ser_nat(n) == ser_nat(n / 10) + seq![digit_char(n % 10)]);
        assert(ser_nat(n).drop_last() =~= ser_nat(n / 10));
        assert(ser_nat(n).last() == digit_char(n % 10));
        assert((((48 + n % 10) as u8) as char) as u32 == 48 + n % 10);
        assert(is_digit(digit_char(n % 10)));
        assert(digit_val(digit_char(n % 10)) == n % 10);
        assert(ser_nat(n)[0] == ser_nat(n / 10)[0]);
        assert forall|k: int| 0 <= k < ser_nat(n).len() implies is_digit(
            #[trigger] ser_nat(n)[k],
        ) by {
            if k < ser_nat(n / 10).len() {
                assert(ser_nat(n)[k] == ser_nat(n / 10)[k]);
            }
        }
        assert(num_of(ser_nat(n)) == (n / 10) * 10 + n % 10);
    }
}

proof fn lemma_num_bounds(s: Seq<char>)
    requires
        s.len() >= 1,
        forall|k: int| 0 <= k < s.len() ==> is_digit(#[trigger] s[k]),
    ensures
        num_of(s) >= 0,
        num_of(s) < pow10(s.len() as int),
        s[0] != '0' ==> num_of(s) >= pow10(s.len() - 1),
    decreases s.len(),
{
    if s.len() == 1 {
        assert(s.drop_last() =~= Seq::<char>::empty());
        assert(num_of(Seq::<char>::empty()) == 0);
        assert(s.last() == s[0]);
        lemma_digit_roundtrip(s[0]);
        assert(num_of(s) == digit_val(s[0]));
        assert(pow10(1) == 10 * pow10(0));
        assert(s[0] != '0' ==> digit_val(s[0]) >= 1);
    } else {
        let p = s.drop_last();
        assert(forall|k: int| 0 <= k < p.len() ==> p[k] == s[k]);
        lemma_num_bounds(p);
        assert(pow10(s.len() as int) == 10 * pow10(s.len() - 1));
        assert(pow10(s.len() - 1) == 10 * pow10(s.len() - 2));
    }
}

proof fn lemma_ser_nat_len(n: int, k: int)
    requires
        0 <= n,
        1 <= k,
        n < pow10(k),
    ensures
        ser_nat(n).len() <= k,
    decreases k,
{
    if n >= 10 {
        assert(pow10(k) == 10 * pow10(k - 1));
        if k == 1 {
            lemma_pow10_mono_base(0);
            assert(false);
        }
        lemma_ser_nat_len(n / 10, k - 1);
    }
}

proof fn lemma_ser_nat_of_digits(s: Seq<char>)
    requires
        s.len() >= 1,
        forall|k: int| 0 <= k < s.len() ==> is_digit(#[trigger] s[k]),
        s.len() > 1 ==> s[0] != '0',
    ensures
        ser_nat(num_of(s)) == s,
        num_of(s) >= 0,
    decreases s.len(),
{
    lemma_num_bounds(s);
    let n = num_of(s);
    if s.len() == 1 {
        assert(s.drop_last() =~= Seq::<char>::empty());
        assert(s.last() == s[0]);
        assert(num_of(Seq::<char>::empty()) == 0);
        assert(n == digit_val(s[0]));
        assert(n < 10);
        lemma_digit_roundtrip(s[0]);
        assert(ser_nat(n) =~= s);
    } else {
        let p = s.drop_last();
        assert(forall|k: int| 0 <= k < p.len() ==> p[k] == s[k]);
        lemma_num_bounds(p);
        lemma_pow10_mono_base(p.len() - 1);
        assert(num_of(p) >= 1);
        lemma_ser_nat_of_digits(p);
        let d = digit_val(s.last());
        assert(n == num_of(p) * 10 + d);
        assert(0 <= d <= 9);
        assert(n / 10 == num_of(p) && n % 10 == d);
        assert(n >= 10);
        assert(ser_nat(n) == ser_nat(num_of(p)) + seq![digit_char(d)]);
        lemma_digit_roundtrip(s.last());
        assert(ser_nat(n) =~= s);
    }
}


/// All characters in `s[a..b)` are decimal digits.
pub open spec fn digits_range(s: Seq<char>, a: int, b: int) -> bool {
    forall|k: int| a <= k < b ==> is_digit(#[trigger] s[k])
}

spec fn num_scan_good(v: JsonValue, i: int, ok: bool, cur: int, acc: int, neg: bool) -> bool {
    &&& ok
    &&& cur == i + ser_val(v).len()
    &&& acc == spec_abs(v->Int_0 as int)
    &&& (neg <==> v->Int_0 < 0)
}

/// Whatever the parser accepts was consumed as exactly the canonical
/// rendering of the returned value.
pub open spec fn number_sound(s: Seq<char>, i: int, r: Result<(i64, usize), ()>) -> bool {
    r matches Ok(p) ==> i <= p.1 <= s.len() && s.subrange(i, p.1 as int) == ser_int(p.0 as int)
}

/// The parser accepts every canonical integer rendering followed by a
/// non-digit, and lands exactly at its end.
pub open spec fn number_complete(s: Seq<char>, i: int, r: Result<(i64, usize), ()>) -> bool {
    forall|v: JsonValue, rest: Seq<char>|
        #[trigger] val_decomp(s, i, v, rest) && v is Int && follows_ok(rest)
            ==> r is Ok && result_end(r) == i + ser_val(v).len()
}

/// Reads one canonical decimal integer starting at `i`: whenever it
/// accepts, the consumed text is exactly the canonical rendering of the
/// value, and it accepts every canonical rendering followed by a non-digit.
fn parse_number(s: &Vec<char>, i: usize) -> (r: Result<(i64, usize), ()>)
    requires
        i <= s@.len(),
    ensures
        number_sound(s@, i as int, r),
        number_complete(s@, i as int, r),
{
    let ghost gold: Seq<char> = s@;
    let n = s.len();
    let mut cur: usize = i;
    let mut neg = false;
    if cur < n && s[cur] == '-' {
        neg = true;
        cur = cur + 1;
    }
    let start: usize = cur;
    let mut acc: u64 = 0;
    proof {
        lemma_pow10_facts();
    }
    while cur < n && cur - start < 19 && is_digit_exec(s[cur])
        invariant
            i <= start <= cur <= n,
            n == s@.len(),
            cur - start <= 19,
            acc == num_of(s@.subrange(start as int, cur as int)),
            acc < pow10((cur - start) as int),
            digits_range(s@, start as int, cur as int),
            pow10(18) == 1000000000000000000,
            pow10(19) == 10000000000000000000,
            forall|k: int| 0 <= k < 19 ==> #[trigger] pow10(k) <= pow10(18),
        decreases n - cur,
    {
        let d: u32 = s[cur] as u32 - 48;
        assert(acc <= pow10(18));
        assert(pow10(((cur - start) + 1) as int) == 10 * pow10((cur - start) as int));
        proof {
            assert(s@.subrange(start as int, cur + 1).drop_last() =~= s@.subrange(
                start as int,
                cur as int,
            ));
            assert(s@.subrange(start as int, cur + 1).last() == s@[cur as int]);
        }
        acc = acc * 10 + (d as u64);
        cur = cur + 1;
    }
    let ghost run = s@.subrange(start as int, cur as int);
    let ok: bool = if cur == start {
        false
    } else if cur < n && is_digit_exec(s[cur]) {
        // either a 20-digit number or a run cut by the canonical length cap
        false
    } else if cur - start > 1 && s[start] == '0' {
        false
    } else if neg && s[start] == '0' {
        false
    } else {
        true
    };
    proof {
        if ok {
            assert(forall|k: int| 0 <= k < run.len() ==> run[k] == s@[start + k]);
            lemma_ser_nat_of_digits(run);
        }
        assert forall|v: JsonValue, rest: Seq<char>|
            #[trigger] val_decomp(gold, i as int, v, rest) && v is Int && follows_ok(rest)
                implies num_scan_good(v, i as int, ok, cur as int, acc as int, neg) by {
            lemma_decomp_number(gold, i as int, v, rest, start as int, cur as int, acc as int, neg);
        }
    }
    if !ok {
        return Err(());
    }
    if neg {
        if acc > 9223372036854775808u64 {
            return Err(());
        }
        proof {
            assert(run.len() >= 1 && (run.len() > 1 ==> run[0] != '0'));
        }
        if acc == 9223372036854775808u64 {
            assert(gold.subrange(i as int, cur as int) =~= seq!['-'] + run);
            return Ok((i64::MIN, cur));
        }
        assert(gold.subrange(i as int, cur as int) =~= seq!['-'] + run);
        Ok((-(acc as i64), cur))
    } else {
        if acc > 9223372036854775807u64 {
            return Err(());
        }
        assert(gold.subrange(i as int, cur as int) =~= run);
        Ok((acc as i64, cur))
    }
}

/// Completeness of the value parser: every canonical rendering followed by
/// a non-digit is accepted, its extent recovered, and the returned value
/// renders identically.
pub open spec fn value_complete(s: Seq<char>, i: int, r: Result<(JsonValue, usize), ()>) -> bool {
    forall|v: JsonValue, rest: Seq<char>|
        #[trigger] val_decomp(s, i, v, rest) && follows_ok(rest) ==> (match r {
            Ok(p) => p.1 == i + ser_val(v).len() && ser_val(p.0) == ser_val(v),
            Err(()) => false,
        })
}

/// Index-level consequences of a decomposition.
proof fn lemma_decomp_parts(s: Seq<char>, i: int, v: JsonValue, rest: Seq<char>)
    requires
        val_decomp(s, i, v, rest),
        0 <= i <= s.len(),
    ensures
        s.len() - i == ser_val(v).len() + rest.len(),
        i + ser_val(v).len() <= s.len(),
        forall|t: int| 0 <= t < ser_val(v).len() ==> s[i + t] == #[trigger] ser_val(v)[t],
        forall|t: int| 0 <= t < rest.len() ==> s[i + ser_val(v).len() + t] == #[trigger] rest[t],
        s.subrange(i, i + ser_val(v).len()) == ser_val(v),
{
    assert(s.skip(i).len() == s.len() - i);
    assert(forall|t: int| 0 <= t < s.len() - i ==> #[trigger] s.skip(i)[t] == s[i + t]);
    let l = ser_val(v).len() as int;
    assert forall|t: int| 0 <= t < l implies s[i + t] == #[trigger] ser_val(v)[t] by {
        assert(s.skip(i)[t] == (ser_val(v) + rest)[t]);
    }
    assert forall|t: int| 0 <= t < rest.len() implies s[i + l + t] == #[trigger] rest[t] by {
        assert(s.skip(i)[l + t] == (ser_val(v) + rest)[l + t]);
    }
    assert forall|t: int| 0 <= t < l implies s.subrange(i, i + l)[t] == ser_val(v)[t] by {
        assert(s.subrange(i, i + l)[t] == s[i + t]);
    }
    assert(s.subrange(i, i + l) =~= ser_val(v));
}

/// The first character of a canonical rendering names its variant.
pub proof fn lemma_ser_val_first(v: JsonValue)
    ensures
        ser_val(v).len() >= 1,
        v is Null ==> ser_val(v) == seq!['n', 'u', 'l', 'l'],
        v is Bool && v->Bool_0 ==> ser_val(v) == seq!['t', 'r', 'u', 'e'],
        v is Bool && !v->Bool_0 ==> ser_val(v) == seq!['f', 'a', 'l', 's', 'e'],
        v is Int ==> ser_val(v)[0] == '-' || is_digit(ser_val(v)[0]),
        v is Str ==> ser_val(v)[0] == '"',
        v is Arr ==> ser_val(v)[0] == '[',
        v is Obj ==> ser_val(v)[0] == '{',
        ser_val(v)[0] != ']' && ser_val(v)[0] != '}' && ser_val(v)[0] != ',' && ser_val(v)[0]
            != ':',
{
    match v {
        JsonValue::Int(n) => {
            lemma_ser_nat_shape(spec_abs(n as int));
            if n < 0 {
                assert(ser_val(v) == seq!['-'] + ser_nat(-(n as int)));
            } else {
                assert(ser_val(v)[0] == ser_nat(n as int)[0]);
            }
        },
        _ => {},
    }
}

/// Sequences of values that render pointwise alike render alike.
proof fn lemma_ser_arr_pointwise(a: Seq<JsonValue>, b: Seq<JsonValue>, m: int)
    requires
        a.len() == b.len(),
        0 <= m,
        forall|t: int| 0 <= t < a.len() ==> ser_val(#[trigger] a[t]) == ser_val(b[t]),
    ensures
        ser_arr(a, m) == ser_arr(b, m),
    decreases a.len() - m,
{
    if 0 <= m < a.len() {
        lemma_ser_arr_pointwise(a, b, m + 1);
    }
}

/// Member sequences that render pointwise alike render alike.
proof fn lemma_ser_obj_pointwise(a: Seq<(String, JsonValue)>, b: Seq<(String, JsonValue)>, m: int)
    requires
        a.len() == b.len(),
        0 <= m,
        forall|t: int| 0 <= t < a.len() ==> ser_member(#[trigger] a[t]) == ser_member(b[t]),
    ensures
        ser_obj(a, m) == ser_obj(b, m),
    decreases a.len() - m,
{
    if 0 <= m < a.len() {
        lemma_ser_obj_pointwise(a, b, m + 1);
    }
}

/// Mid-scan relation for arrays: what remains is the rendering of the
/// remaining elements, the closing bracket, and the tail.
spec fn arrscan_inv(s: Seq<char>, i: int, cur: int, elems: Seq<JsonValue>) -> bool {
    forall|v: JsonValue, rest: Seq<char>|
        #[trigger] val_decomp(s, i, v, rest) && follows_ok(rest) ==> v is Arr && elems.len()
            < v->Arr_0@.len() && s.skip(cur) == ser_arr(v->Arr_0@, elems.len() as int)
            + seq![']'] + rest && (forall|t: int|
            0 <= t < elems.len() ==> ser_val(#[trigger] elems[t]) == ser_val(v->Arr_0@[t]))
}

/// Mid-scan relation for objects.
spec fn objscan_inv(s: Seq<char>, i: int, cur: int, fields: Seq<(String, JsonValue)>) -> bool {
    forall|v: JsonValue, rest: Seq<char>|
        #[trigger] val_decomp(s, i, v, rest) && follows_ok(rest) ==> v is Obj && fields.len()
            < v->Obj_0@.len() && s.skip(cur) == ser_obj(v->Obj_0@, fields.len() as int)
            + seq!['}'] + rest && (forall|t: int|
            0 <= t < fields.len() ==> ser_member(#[trigger] fields[t]) == ser_member(
                v->Obj_0@[t],
            ))
}


/// Carrier for the literal branches: the text at `i` is this literal then
/// the tail.
spec fn lit_at(s: Seq<char>, i: int, lit: Seq<char>, rest: Seq<char>) -> bool {
    s.skip(i) == lit + rest
}

/// What follows one array element: the separator or the closing bracket.
spec fn arr_tail(cand: Seq<JsonValue>, k: int, rest: Seq<char>) -> Seq<char> {
    if k == cand.len() - 1 {
        seq![']'] + rest
    } else {
        seq![','] + ser_arr(cand, k + 1) + seq![']'] + rest
    }
}

spec fn arr_item_facts(
    s: Seq<char>,
    i: int,
    cur: int,
    prev: Seq<JsonValue>,
    v: JsonValue,
    rest: Seq<char>,
) -> bool {
    let cand = v->Arr_0@;
    let k = prev.len() as int;
    &&& v is Arr
    &&& k < cand.len()
    &&& val_decomp(s, cur, cand[k], arr_tail(cand, k, rest))
    &&& follows_ok(arr_tail(cand, k, rest))
    &&& s.skip(cur) == ser_arr(cand, k) + seq![']'] + rest
    &&& 0 <= cur <= s.len()
}

proof fn lemma_arr_item(
    s: Seq<char>,
    i: int,
    cur: int,
    prev: Seq<JsonValue>,
    v: JsonValue,
    rest: Seq<char>,
)
    requires
        arrscan_inv(s, i, cur, prev),
        val_decomp(s, i, v, rest),
        follows_ok(rest),
        0 <= cur <= s.len(),
    ensures
        arr_item_facts(s, i, cur, prev, v, rest),
{
    let cand = v->Arr_0@;
    let k = prev.len() as int;
    assert(s.skip(cur) == ser_arr(cand, k) + seq![']'] + rest);
    if k == cand.len() - 1 {
        assert(ser_arr(cand, k) == ser_val(cand[k]));
        assert(s.skip(cur) =~= ser_val(cand[k]) + arr_tail(cand, k, rest));
        assert(arr_tail(cand, k, rest)[0] == ']');
    } else {
        assert(ser_arr(cand, k) == ser_val(cand[k]) + seq![','] + ser_arr(cand, k + 1));
        assert(s.skip(cur) =~= ser_val(cand[k]) + arr_tail(cand, k, rest));
        assert(arr_tail(cand, k, rest)[0] == ',');
    }
}

proof fn lemma_arr_step(
    s: Seq<char>,
    i: int,
    cur: int,
    pj: int,
    prev: Seq<JsonValue>,
    v: JsonValue,
    rest: Seq<char>,
)
    requires
        arr_item_facts(s, i, cur, prev, v, rest),
        pj == cur + ser_val(v->Arr_0@[prev.len() as int]).len(),
        pj < s.len(),
        s[pj] == ',',
    ensures
        prev.len() + 1 < v->Arr_0@.len(),
        s.skip(pj + 1) == ser_arr(v->Arr_0@, prev.len() as int + 1) + seq![']'] + rest,
{
    let cand = v->Arr_0@;
    let k = prev.len() as int;
    let l = ser_val(cand[k]).len() as int;
    assert(s.skip(pj) =~= s.skip(cur).skip(l));
    assert((ser_val(cand[k]) + arr_tail(cand, k, rest)).skip(l) =~= arr_tail(cand, k, rest));
    assert(s.skip(pj) == arr_tail(cand, k, rest));
    assert(s.skip(pj)[0] == s[pj]);
    if k == cand.len() - 1 {
        assert(arr_tail(cand, k, rest)[0] == ']');
    }
    assert(k < cand.len() - 1);
    assert(s.skip(pj + 1) =~= s.skip(pj).skip(1));
    assert(arr_tail(cand, k, rest).skip(1) =~= ser_arr(cand, k + 1) + seq![']'] + rest);
}

proof fn lemma_arr_close(
    s: Seq<char>,
    i: int,
    cur: int,
    pj: int,
    prev: Seq<JsonValue>,
    item: JsonValue,
    v: JsonValue,
    rest: Seq<char>,
)
    requires
        arr_item_facts(s, i, cur, prev, v, rest),
        val_decomp(s, i, v, rest),
        0 <= i <= s.len(),
        pj == cur + ser_val(v->Arr_0@[prev.len() as int]).len(),
        pj < s.len(),
        s[pj] == ']',
        ser_val(item) == ser_val(v->Arr_0@[prev.len() as int]),
    ensures
        prev.len() + 1 == v->Arr_0@.len(),
        pj + 1 == i + ser_val(v).len(),
        prev.push(item).len() == v->Arr_0@.len(),
{
    let cand = v->Arr_0@;
    let k = prev.len() as int;
    let l = ser_val(cand[k]).len() as int;
    assert(s.skip(pj) =~= s.skip(cur).skip(l));
    assert((ser_val(cand[k]) + arr_tail(cand, k, rest)).skip(l) =~= arr_tail(cand, k, rest));
    assert(s.skip(pj) == arr_tail(cand, k, rest));
    assert(s.skip(pj)[0] == s[pj]);
    if k < cand.len() - 1 {
        assert(arr_tail(cand, k, rest)[0] == ',');
    }
    assert(k == cand.len() - 1);
    assert(s.skip(pj).len() == s.len() - pj);
    assert(arr_tail(cand, k, rest).len() == 1 + rest.len());
    assert(s.skip(i).len() == s.len() - i);
    assert(s.len() - i == ser_val(v).len() + rest.len());
}

proof fn lemma_arr_after_item(
    s: Seq<char>,
    i: int,
    cur: int,
    pj: int,
    prev: Seq<JsonValue>,
    v: JsonValue,
    rest: Seq<char>,
)
    requires
        arr_item_facts(s, i, cur, prev, v, rest),
        pj == cur + ser_val(v->Arr_0@[prev.len() as int]).len(),
    ensures
        pj < s.len(),
        s[pj] == ',' || s[pj] == ']',
{
    let cand = v->Arr_0@;
    let k = prev.len() as int;
    let l = ser_val(cand[k]).len() as int;
    assert(s.skip(pj) =~= s.skip(cur).skip(l));
    assert((ser_val(cand[k]) + arr_tail(cand, k, rest)).skip(l) =~= arr_tail(cand, k, rest));
    assert(s.skip(pj) == arr_tail(cand, k, rest));
    assert(arr_tail(cand, k, rest).len() >= 1);
    assert(pj < s.len());
    assert(s.skip(pj)[0] == s[pj]);
    if k == cand.len() - 1 {
        assert(arr_tail(cand, k, rest)[0] == ']');
    } else {
        assert(arr_tail(cand, k, rest)[0] == ',');
    }
}

/// What follows one object member: the separator or the closing brace.
spec fn member_tail(cand: Seq<(String, JsonValue)>, k: int, rest: Seq<char>) -> Seq<char> {
    if k == cand.len() - 1 {
        seq!['}'] + rest
    } else {
        seq![','] + ser_obj(cand, k + 1) + seq!['}'] + rest
    }
}

spec fn obj_member_facts(
    s: Seq<char>,
    i: int,
    cur: int,
    prev: Seq<(String, JsonValue)>,
    v: JsonValue,
    rest: Seq<char>,
) -> bool {
    let cand = v->Obj_0@;
    let k = prev.len() as int;
    &&& v is Obj
    &&& k < cand.len()
    &&& str_decomp(
        s,
        cur,
        cand[k].0@,
        seq![':'] + ser_val(cand[k].1) + member_tail(cand, k, rest),
    )
    &&& s.skip(cur) == ser_obj(cand, k) + seq!['}'] + rest
    &&& 0 <= cur <= s.len()
}

proof fn lemma_obj_member(
    s: Seq<char>,
    i: int,
    cur: int,
    prev: Seq<(String, JsonValue)>,
    v: JsonValue,
    rest: Seq<char>,
)
    requires
        objscan_inv(s, i, cur, prev),
        val_decomp(s, i, v, rest),
        follows_ok(rest),
        0 <= cur <= s.len(),
    ensures
        obj_member_facts(s, i, cur, prev, v, rest),
{
    let cand = v->Obj_0@;
    let k = prev.len() as int;
    assert(s.skip(cur) == ser_obj(cand, k) + seq!['}'] + rest);
    assert(ser_member(cand[k]) == ser_str(cand[k].0@) + seq![':'] + ser_val(cand[k].1));
    if k == cand.len() - 1 {
        assert(ser_obj(cand, k) == ser_member(cand[k]));
        assert(s.skip(cur) =~= ser_str(cand[k].0@) + (seq![':'] + ser_val(cand[k].1)
            + member_tail(cand, k, rest)));
    } else {
        assert(ser_obj(cand, k) == ser_member(cand[k]) + seq![','] + ser_obj(cand, k + 1));
        assert(s.skip(cur) =~= ser_str(cand[k].0@) + (seq![':'] + ser_val(cand[k].1)
            + member_tail(cand, k, rest)));
    }
}

proof fn lemma_obj_colon(
    s: Seq<char>,
    i: int,
    cur: int,
    kj: int,
    prev: Seq<(String, JsonValue)>,
    key: Seq<char>,
    v: JsonValue,
    rest: Seq<char>,
)
    requires
        obj_member_facts(s, i, cur, prev, v, rest),
        key == v->Obj_0@[prev.len() as int].0@,
        kj == cur + ser_str(v->Obj_0@[prev.len() as int].0@).len(),
    ensures
        kj < s.len(),
        s[kj] == ':',
        val_decomp(s, kj + 1, v->Obj_0@[prev.len() as int].1, member_tail(v->Obj_0@, prev.len() as int, rest)),
        follows_ok(member_tail(v->Obj_0@, prev.len() as int, rest)),
{
    let cand = v->Obj_0@;
    let k = prev.len() as int;
    let l = ser_str(cand[k].0@).len() as int;
    assert(s.skip(kj) =~= s.skip(cur).skip(l));
    assert((ser_str(cand[k].0@) + (seq![':'] + ser_val(cand[k].1) + member_tail(cand, k, rest))).skip(
        l,
    ) =~= seq![':'] + ser_val(cand[k].1) + member_tail(cand, k, rest));
    assert(s.skip(kj) == seq![':'] + ser_val(cand[k].1) + member_tail(cand, k, rest));
    assert(s.skip(kj).len() >= 1);
    assert(s.skip(kj)[0] == s[kj]);
    assert(s.skip(kj + 1) =~= s.skip(kj).skip(1));
    assert((seq![':'] + ser_val(cand[k].1) + member_tail(cand, k, rest)).skip(1)
        =~= ser_val(cand[k].1) + member_tail(cand, k, rest));
    if k == cand.len() - 1 {
        assert(member_tail(cand, k, rest)[0] == '}');
    } else {
        assert(member_tail(cand, k, rest)[0] == ',');
    }
}

spec fn obj_value_facts(
    s: Seq<char>,
    i: int,
    cur: int,
    kj: int,
    prev: Seq<(String, JsonValue)>,
    key: Seq<char>,
    v: JsonValue,
    rest: Seq<char>,
) -> bool {
    let cand = v->Obj_0@;
    let k = prev.len() as int;
    &&& v is Obj
    &&& k < cand.len()
    &&& key == cand[k].0@
    &&& val_decomp(s, kj + 1, cand[k].1, member_tail(cand, k, rest))
    &&& follows_ok(member_tail(cand, k, rest))
    &&& s.skip(cur) == ser_obj(cand, k) + seq!['}'] + rest
    &&& 0 <= cur <= kj + 1 <= s.len()
}

proof fn lemma_obj_step(
    s: Seq<char>,
    i: int,
    cur: int,
    kj: int,
    pj: int,
    prev: Seq<(String, JsonValue)>,
    key: Seq<char>,
    item: JsonValue,
    v: JsonValue,
    rest: Seq<char>,
)
    requires
        obj_value_facts(s, i, cur, kj, prev, key, v, rest),
        pj == kj + 1 + ser_val(v->Obj_0@[prev.len() as int].1).len(),
        pj < s.len(),
        s[pj] == ',',
        ser_val(item) == ser_val(v->Obj_0@[prev.len() as int].1),
    ensures
        prev.len() + 1 < v->Obj_0@.len(),
        s.skip(pj + 1) == ser_obj(v->Obj_0@, prev.len() as int + 1) + seq!['}'] + rest,
{
    let cand = v->Obj_0@;
    let k = prev.len() as int;
    let l = ser_val(cand[k].1).len() as int;
    assert(s.skip(pj) =~= s.skip(kj + 1).skip(l));
    assert((ser_val(cand[k].1) + member_tail(cand, k, rest)).skip(l) =~= member_tail(
        cand,
        k,
        rest,
    ));
    assert(s.skip(pj) == member_tail(cand, k, rest));
    assert(s.skip(pj)[0] == s[pj]);
    if k == cand.len() - 1 {
        assert(member_tail(cand, k, rest)[0] == '}');
    }
    assert(k < cand.len() - 1);
    assert(s.skip(pj + 1) =~= s.skip(pj).skip(1));
    assert(member_tail(cand, k, rest).skip(1) =~= ser_obj(cand, k + 1) + seq!['}'] + rest);
}

proof fn lemma_obj_close(
    s: Seq<char>,
    i: int,
    cur: int,
    kj: int,
    pj: int,
    prev: Seq<(String, JsonValue)>,
    key: Seq<char>,
    item: JsonValue,
    v: JsonValue,
    rest: Seq<char>,
)
    requires
        obj_value_facts(s, i, cur, kj, prev, key, v, rest),
        val_decomp(s, i, v, rest),
        0 <= i <= s.len(),
        pj == kj + 1 + ser_val(v->Obj_0@[prev.len() as int].1).len(),
        pj < s.len(),
        s[pj] == '}',
        ser_val(item) == ser_val(v->Obj_0@[prev.len() as int].1),
    ensures
        prev.len() + 1 == v->Obj_0@.len(),
        pj + 1 == i + ser_val(v).len(),
{
    let cand = v->Obj_0@;
    let k = prev.len() as int;
    let l = ser_val(cand[k].1).len() as int;
    assert(s.skip(pj) =~= s.skip(kj + 1).skip(l));
    assert((ser_val(cand[k].1) + member_tail(cand, k, rest)).skip(l) =~= member_tail(
        cand,
        k,
        rest,
    ));
    assert(s.skip(pj) == member_tail(cand, k, rest));
    assert(s.skip(pj)[0] == s[pj]);
    if k < cand.len() - 1 {
        assert(member_tail(cand, k, rest)[0] == ',');
    }
    assert(k == cand.len() - 1);
    assert(s.skip(pj).len() == s.len() - pj);
    assert(member_tail(cand, k, rest).len() == 1 + rest.len());
    assert(s.skip(i).len() == s.len() - i);
    assert(s.len() - i == ser_val(v).len() + rest.len());
}

proof fn lemma_obj_after_member(
    s: Seq<char>,
    i: int,
    cur: int,
    kj: int,
    pj: int,
    prev: Seq<(String, JsonValue)>,
    key: Seq<char>,
    item: JsonValue,
    v: JsonValue,
    rest: Seq<char>,
)
    requires
        obj_value_facts(s, i, cur, kj, prev, key, v, rest),
        pj == kj + 1 + ser_val(v->Obj_0@[prev.len() as int].1).len(),
    ensures
        pj < s.len(),
        s[pj] == ',' || s[pj] == '}',
{
    let cand = v->Obj_0@;
    let k = prev.len() as int;
    let l = ser_val(cand[k].1).len() as int;
    assert(s.skip(pj) =~= s.skip(kj + 1).skip(l));
    assert((ser_val(cand[k].1) + member_tail(cand, k, rest)).skip(l) =~= member_tail(
        cand,
        k,
        rest,
    ));
    assert(s.skip(pj) == member_tail(cand, k, rest));
    assert(member_tail(cand, k, rest).len() >= 1);
    assert(pj < s.len());
    assert(s.skip(pj)[0] == s[pj]);
    if k == cand.len() - 1 {
        assert(member_tail(cand, k, rest)[0] == '}');
    } else {
        assert(member_tail(cand, k, rest)[0] == ',');
    }
}

/// Reads one JSON value starting at `i`: accepts exactly the canonical
/// renderings (followed by anything but a digit), recovering their extent
/// and an identically rendered value.
#[verifier::rlimit(100)]
pub fn parse_value(s: &Vec<char>, i: usize) -> (r: Result<(JsonValue, usize), ()>)
    requires
        i <= s@.len(),
    ensures
        r matches Ok(p) ==> i <= p.1 <= s@.len(),
        value_complete(s@, i as int, r),
    decreases s@.len() - i,
{
    let ghost gold = s@;
    let n = s.len();
    if i >= n {
        proof {
            assert forall|v: JsonValue, rest: Seq<char>|
                #[trigger] val_decomp(gold, i as int, v, rest) && follows_ok(rest)
                implies false by {
                lemma_ser_val_first(v);
                lemma_decomp_parts(gold, i as int, v, rest);
            }
        }
        return Err(());
    }
    let c = s[i];
    if c == 'n' {
        proof {
            assert forall|v: JsonValue, rest: Seq<char>|
                #[trigger] val_decomp(gold, i as int, v, rest) && follows_ok(rest)
                implies v is Null && lit_at(gold, i as int, seq!['n', 'u', 'l', 'l'], rest) by {
                lemma_ser_val_first(v);
                lemma_decomp_parts(gold, i as int, v, rest);
            }
        }
        if n - i > 3 && s[i + 1] == 'u' && s[i + 2] == 'l' && s[i + 3] == 'l' {
            Ok((JsonValue::Null, i + 4))
        } else {
            proof {
                assert forall|v: JsonValue, rest: Seq<char>|
                    #[trigger] val_decomp(gold, i as int, v, rest) && follows_ok(rest)
                    implies false by {
                    lemma_decomp_parts(gold, i as int, v, rest);
                }
            }
            Err(())
        }
    } else if c == 't' {
        proof {
            assert forall|v: JsonValue, rest: Seq<char>|
                #[trigger] val_decomp(gold, i as int, v, rest) && follows_ok(rest)
                implies v is Bool && v->Bool_0 && lit_at(
                gold,
                i as int,
                seq!['t', 'r', 'u', 'e'],
                rest,
            ) by {
                lemma_ser_val_first(v);
                lemma_decomp_parts(gold, i as int, v, rest);
            }
        }
        if n - i > 3 && s[i + 1] == 'r' && s[i + 2] == 'u' && s[i + 3] == 'e' {
            Ok((JsonValue::Bool(true), i + 4))
        } else {
            proof {
                assert forall|v: JsonValue, rest: Seq<char>|
                    #[trigger] val_decomp(gold, i as int, v, rest) && follows_ok(rest)
                    implies false by {
                    lemma_decomp_parts(gold, i as int, v, rest);
                }
            }
            Err(())
        }
    } else if c == 'f' {
        proof {
            assert forall|v: JsonValue, rest: Seq<char>|
                #[trigger] val_decomp(gold, i as int, v, rest) && follows_ok(rest)
                implies v is Bool && !v->Bool_0 && lit_at(
                gold,
                i as int,
                seq!['f', 'a', 'l', 's', 'e'],
                rest,
            ) by {
                lemma_ser_val_first(v);
                lemma_decomp_parts(gold, i as int, v, rest);
            }
        }
        if n - i > 4 && s[i + 1] == 'a' && s[i + 2] == 'l' && s[i + 3] == 's' && s[i + 4] == 'e' {
            Ok((JsonValue::Bool(false), i + 5))
        } else {
            proof {
                assert forall|v: JsonValue, rest: Seq<char>|
                    #[trigger] val_decomp(gold, i as int, v, rest) && follows_ok(rest)
                    implies false by {
                    lemma_decomp_parts(gold, i as int, v, rest);
                }
            }
            Err(())
        }
    } else if c == '"' {
        let sr = parse_string_at(s, i);
        proof {
            assert forall|v: JsonValue, rest: Seq<char>|
                #[trigger] val_decomp(gold, i as int, v, rest) && follows_ok(rest)
                implies v is Str && str_decomp(gold, i as int, v->Str_0@, rest) by {
                lemma_ser_val_first(v);
                lemma_decomp_parts(gold, i as int, v, rest);
                assert(ser_val(v) == ser_str(v->Str_0@));
            }
        }
        match sr {
            Ok((content, j)) => {
                let sv = chars_to_string(&content);
                Ok((JsonValue::Str(sv), j))
            },
            Err(()) => Err(()),
        }
    } else if c == '[' {
        proof {
            assert forall|v: JsonValue, rest: Seq<char>|
                #[trigger] val_decomp(gold, i as int, v, rest) && follows_ok(rest)
                implies v is Arr && i + 1 < n && gold[i + 1] == (if v->Arr_0@.len() == 0 {
                ']'
            } else {
                ser_val(v->Arr_0@[0])[0]
            }) && (v->Arr_0@.len() == 0 ==> ser_val(v) == seq!['[', ']']) by {
                lemma_ser_val_first(v);
                lemma_decomp_parts(gold, i as int, v, rest);
                let cand = v->Arr_0@;
                if cand.len() == 0 {
                    assert(ser_arr(cand, 0) == Seq::<char>::empty());
                    assert(ser_val(v) =~= seq!['[', ']']);
                } else {
                    assert(ser_val(v)[1] == (ser_arr(cand, 0) + seq![']'])[0]);
                    lemma_ser_val_first(cand[0]);
                }
            }
        }
        if i + 1 < n && s[i + 1] == ']' {
            proof {
                assert forall|v: JsonValue, rest: Seq<char>|
                    #[trigger] val_decomp(gold, i as int, v, rest) && follows_ok(rest)
                    implies v->Arr_0@.len() == 0 && i + 2 == i + ser_val(v).len() by {
                    if v->Arr_0@.len() > 0 {
                        lemma_ser_val_first(v->Arr_0@[0]);
                    }
                }
            }
            let empty: Vec<JsonValue> = Vec::new();
            proof {
                assert(ser_arr(empty@, 0) == Seq::<char>::empty());
                assert(ser_val(JsonValue::Arr(empty)) =~= seq!['[', ']']);
            }
            return Ok((JsonValue::Arr(empty), i + 2));
        }
        let mut elems: Vec<JsonValue> = Vec::new();
        let mut cur: usize = i + 1;
        proof {
            assert forall|v: JsonValue, rest: Seq<char>|
                #[trigger] val_decomp(gold, i as int, v, rest) && follows_ok(rest)
                implies v is Arr && elems@.len() < v->Arr_0@.len() && gold.skip(
                (i + 1) as int,
            ) == ser_arr(v->Arr_0@, elems@.len() as int) + seq![']'] + rest && (forall|t: int|
                0 <= t < elems@.len() ==> ser_val(#[trigger] elems@[t]) == ser_val(
                    v->Arr_0@[t],
                )) by {
                lemma_decomp_parts(gold, i as int, v, rest);
                let cand = v->Arr_0@;
                if cand.len() > 0 {
                    lemma_ser_val_first(cand[0]);
                }
                assert(cand.len() > 0);
                assert(gold.skip(i + 1) =~= gold.skip(i as int).skip(1));
                assert(gold.skip(i as int).skip(1) =~= (ser_val(v) + rest).skip(1));
                assert((ser_val(v) + rest).skip(1) =~= ser_arr(cand, 0) + seq![']'] + rest);
            }
            assert(arrscan_inv(gold, i as int, (i + 1) as int, elems@));
        }
        loop
            invariant
                i < cur <= n,
                n == gold.len(),
                gold == s@,
                arrscan_inv(gold, i as int, cur as int, elems@),
            decreases n - cur,
        {
            let ghost prev = elems@;
            let ghost pcur = cur as int;
            proof {
                assert forall|v: JsonValue, rest: Seq<char>|
                    #[trigger] val_decomp(gold, i as int, v, rest) && follows_ok(rest)
                    implies arr_item_facts(gold, i as int, pcur, prev, v, rest) by {
                    lemma_arr_item(gold, i as int, pcur, prev, v, rest);
                }
            }
            match parse_value(s, cur) {
                Err(()) => {
                    proof {
                        assert forall|v: JsonValue, rest: Seq<char>|
                            #[trigger] val_decomp(gold, i as int, v, rest) && follows_ok(rest)
                            implies false by {
                            assert(arr_item_facts(gold, i as int, pcur, prev, v, rest));
                        }
                    }
                    return Err(());
                },
                Ok((item, j)) => {
                    let ghost pj = j as int;
                    elems.push(item);
                    if j < n && s[j] == ',' {
                        proof {
                            assert forall|v: JsonValue, rest: Seq<char>|
                                #[trigger] val_decomp(gold, i as int, v, rest) && follows_ok(
                                rest,
                            ) implies v is Arr && elems@.len() < v->Arr_0@.len() && gold.skip(
                                (j + 1) as int,
                            ) == ser_arr(v->Arr_0@, elems@.len() as int) + seq![']'] + rest && (
                            forall|t: int|
                                0 <= t < elems@.len() ==> ser_val(#[trigger] elems@[t])
                                    == ser_val(v->Arr_0@[t])) by {
                                assert(arr_item_facts(gold, i as int, pcur, prev, v, rest));
                                let cand = v->Arr_0@;
                                let k = prev.len() as int;
                                assert(pj == pcur + ser_val(cand[k]).len() && ser_val(item)
                                    == ser_val(cand[k]));
                                lemma_arr_step(gold, i as int, pcur, pj, prev, v, rest);
                            }
                            assert(arrscan_inv(gold, i as int, (j + 1) as int, elems@));
                        }
                        cur = j + 1;
                    } else if j < n && s[j] == ']' {
                        proof {
                            assert forall|v: JsonValue, rest: Seq<char>|
                                #[trigger] val_decomp(gold, i as int, v, rest) && follows_ok(
                                rest,
                            ) implies j + 1 == i + ser_val(v).len() && ser_val(
                                JsonValue::Arr(elems),
                            ) == ser_val(v) by {
                                assert(arr_item_facts(gold, i as int, pcur, prev, v, rest));
                                lemma_arr_close(gold, i as int, pcur, pj, prev, item, v, rest);
                                assert(elems@ =~= prev.push(item));
                                lemma_ser_arr_pointwise(elems@, v->Arr_0@, 0);
                            }
                        }
                        return Ok((JsonValue::Arr(elems), j + 1));
                    } else {
                        proof {
                            assert forall|v: JsonValue, rest: Seq<char>|
                                #[trigger] val_decomp(gold, i as int, v, rest) && follows_ok(
                                rest,
                            ) implies false by {
                                assert(arr_item_facts(gold, i as int, pcur, prev, v, rest));
                                lemma_arr_after_item(gold, i as int, pcur, pj, prev, v, rest);
                            }
                        }
                        return Err(());
                    }
                },
            }
        }
    } else if c == '{' {
        proof {
            assert forall|v: JsonValue, rest: Seq<char>|
                #[trigger] val_decomp(gold, i as int, v, rest) && follows_ok(rest)
                implies v is Obj && i + 1 < n && gold[i + 1] == (if v->Obj_0@.len() == 0 {
                '}'
            } else {
                '"'
            }) && (v->Obj_0@.len() == 0 ==> ser_val(v) == seq!['{', '}']) by {
                lemma_ser_val_first(v);
                lemma_decomp_parts(gold, i as int, v, rest);
                let cand = v->Obj_0@;
                if cand.len() == 0 {
                    assert(ser_obj(cand, 0) == Seq::<char>::empty());
                    assert(ser_val(v) =~= seq!['{', '}']);
                } else {
                    assert(ser_val(v)[1] == (ser_obj(cand, 0) + seq!['}'])[0]);
                    assert(ser_obj(cand, 0)[0] == ser_member(cand[0])[0]);
                    assert(ser_member(cand[0])[0] == '"');
                }
            }
        }
        if i + 1 < n && s[i + 1] == '}' {
            proof {
            }
            let empty: Vec<(String, JsonValue)> = Vec::new();
            proof {
                assert(ser_obj(empty@, 0) == Seq::<char>::empty());
                assert(ser_val(JsonValue::Obj(empty)) =~= seq!['{', '}']);
            }
            return Ok((JsonValue::Obj(empty), i + 2));
        }
        let mut fields: Vec<(String, JsonValue)> = Vec::new();
        let mut cur: usize = i + 1;
        proof {
            assert forall|v: JsonValue, rest: Seq<char>|
                #[trigger] val_decomp(gold, i as int, v, rest) && follows_ok(rest)
                implies v is Obj && fields@.len() < v->Obj_0@.len() && gold.skip(
                (i + 1) as int,
            ) == ser_obj(v->Obj_0@, fields@.len() as int) + seq!['}'] + rest && (forall|t: int|
                0 <= t < fields@.len() ==> ser_member(#[trigger] fields@[t]) == ser_member(
                    v->Obj_0@[t],
                )) by {
                lemma_decomp_parts(gold, i as int, v, rest);
                assert(v->Obj_0@.len() > 0);
                assert(gold.skip(i + 1) =~= gold.skip(i as int).skip(1));
                assert(gold.skip(i as int).skip(1) =~= (ser_val(v) + rest).skip(1));
                assert((ser_val(v) + rest).skip(1) =~= ser_obj(v->Obj_0@, 0) + seq!['}'] + rest);
            }
            assert(objscan_inv(gold, i as int, (i + 1) as int, fields@));
        }
        loop
            invariant
                i < cur <= n,
                n == gold.len(),
                gold == s@,
                objscan_inv(gold, i as int, cur as int, fields@),
            decreases n - cur,
        {
            let ghost prev = fields@;
            let ghost pcur = cur as int;
            proof {
                assert forall|v: JsonValue, rest: Seq<char>|
                    #[trigger] val_decomp(gold, i as int, v, rest) && follows_ok(rest)
                    implies obj_member_facts(gold, i as int, pcur, prev, v, rest) by {
                    lemma_obj_member(gold, i as int, pcur, prev, v, rest);
                }
            }
            let (key, kj) = match parse_string_at(s, cur) {
                Err(()) => {
                    proof {
                        assert forall|v: JsonValue, rest: Seq<char>|
                            #[trigger] val_decomp(gold, i as int, v, rest) && follows_ok(rest)
                            implies false by {
                            assert(obj_member_facts(gold, i as int, pcur, prev, v, rest));
                        }
                    }
                    return Err(());
                },
                Ok(p) => p,
            };
            if kj >= n {
                proof {
                    assert forall|v: JsonValue, rest: Seq<char>|
                        #[trigger] val_decomp(gold, i as int, v, rest) && follows_ok(rest)
                        implies false by {
                        assert(obj_member_facts(gold, i as int, pcur, prev, v, rest));
                        lemma_obj_colon(gold, i as int, pcur, kj as int, prev, key@, v, rest);
                    }
                }
                return Err(());
            }
            if s[kj] != ':' {
                proof {
                    assert forall|v: JsonValue, rest: Seq<char>|
                        #[trigger] val_decomp(gold, i as int, v, rest) && follows_ok(rest)
                        implies false by {
                        assert(obj_member_facts(gold, i as int, pcur, prev, v, rest));
                        lemma_obj_colon(gold, i as int, pcur, kj as int, prev, key@, v, rest);
                    }
                }
                return Err(());
            }
            let ghost pkj = kj as int;
            proof {
                assert forall|v: JsonValue, rest: Seq<char>|
                    #[trigger] val_decomp(gold, i as int, v, rest) && follows_ok(rest)
                    implies obj_value_facts(gold, i as int, pcur, pkj, prev, key@, v, rest) by {
                    assert(obj_member_facts(gold, i as int, pcur, prev, v, rest));
                    lemma_obj_colon(gold, i as int, pcur, pkj, prev, key@, v, rest);
                }
            }
            match parse_value(s, kj + 1) {
                Err(()) => {
                    proof {
                        assert forall|v: JsonValue, rest: Seq<char>|
                            #[trigger] val_decomp(gold, i as int, v, rest) && follows_ok(rest)
                            implies false by {
                            assert(obj_value_facts(gold, i as int, pcur, pkj, prev, key@, v, rest));
                        }
                    }
                    return Err(());
                },
                Ok((item, j)) => {
                    let ghost pj = j as int;
                    let ghost gitem = item;
                    let ks = chars_to_string(&key);
                    fields.push((ks, item));
                    if j < n && s[j] == ',' {
                        proof {
                            assert forall|v: JsonValue, rest: Seq<char>|
                                #[trigger] val_decomp(gold, i as int, v, rest) && follows_ok(
                                rest,
                            ) implies v is Obj && fields@.len() < v->Obj_0@.len() && gold.skip(
                                (j + 1) as int,
                            ) == ser_obj(v->Obj_0@, fields@.len() as int) + seq!['}'] + rest && (
                            forall|t: int|
                                0 <= t < fields@.len() ==> ser_member(#[trigger] fields@[t])
                                    == ser_member(v->Obj_0@[t])) by {
                                assert(obj_value_facts(gold, i as int, pcur, pkj, prev, key@, v, rest));
                                lemma_obj_step(gold, i as int, pcur, pkj, pj, prev, key@, gitem, v, rest);
                                assert(fields@ =~= prev.push((ks, gitem)));
                                assert(ser_member(fields@[prev.len() as int]) == ser_member(
                                    v->Obj_0@[prev.len() as int],
                                ));
                            }
                            assert(objscan_inv(gold, i as int, (j + 1) as int, fields@));
                        }
                        cur = j + 1;
                    } else if j < n && s[j] == '}' {
                        proof {
                            assert forall|v: JsonValue, rest: Seq<char>|
                                #[trigger] val_decomp(gold, i as int, v, rest) && follows_ok(
                                rest,
                            ) implies j + 1 == i + ser_val(v).len() && ser_val(
                                JsonValue::Obj(fields),
                            ) == ser_val(v) by {
                                assert(obj_value_facts(gold, i as int, pcur, pkj, prev, key@, v, rest));
                                lemma_obj_close(gold, i as int, pcur, pkj, pj, prev, key@, gitem, v, rest);
                                assert(fields@ =~= prev.push((ks, gitem)));
                                assert(ser_member(fields@[prev.len() as int]) == ser_member(
                                    v->Obj_0@[prev.len() as int],
                                ));
                                lemma_ser_obj_pointwise(fields@, v->Obj_0@, 0);
                            }
                        }
                        return Ok((JsonValue::Obj(fields), j + 1));
                    } else {
                        proof {
                            assert forall|v: JsonValue, rest: Seq<char>|
                                #[trigger] val_decomp(gold, i as int, v, rest) && follows_ok(
                                rest,
                            ) implies false by {
                                assert(obj_value_facts(gold, i as int, pcur, pkj, prev, key@, v, rest));
                                lemma_obj_after_member(gold, i as int, pcur, pkj, pj, prev, key@, gitem, v, rest);
                            }
                        }
                        return Err(());
                    }
                },
            }
        }
    } else {
        proof {
            assert forall|v: JsonValue, rest: Seq<char>|
                #[trigger] val_decomp(gold, i as int, v, rest) && follows_ok(rest)
                implies v is Int by {
                lemma_ser_val_first(v);
                lemma_decomp_parts(gold, i as int, v, rest);
                if v is Int {
                } else {
                    assert(gold[i as int] == ser_val(v)[0]);
                }
            }
        }
        match parse_number(s, i) {
            Ok((v0, j)) => {
                proof {
                    assert forall|v: JsonValue, rest: Seq<char>|
                        #[trigger] val_decomp(gold, i as int, v, rest) && follows_ok(rest)
                        implies j == i + ser_val(v).len() && ser_val(JsonValue::Int(v0))
                        == ser_val(v) by {
                        lemma_decomp_parts(gold, i as int, v, rest);
                        assert(gold.subrange(i as int, j as int) == ser_int(v0 as int));
                    }
                }
                Ok((JsonValue::Int(v0), j))
            },
            Err(()) => Err(()),
        }
    }
}


/// Values of the flat kinds a control body uses: strings, integers, and
/// arrays of strings.
pub open spec fn flat_kind(v: JsonValue) -> bool {
    ||| v is Str
    ||| v is Int
    ||| (v is Arr && forall|t: int| 0 <= t < v->Arr_0@.len() ==> (#[trigger] v->Arr_0@[t]) is Str)
}

/// Two values carry the same flat content.
pub open spec fn flat_value_eq(v1: JsonValue, v2: JsonValue) -> bool {
    ||| (v1 is Str && v2 is Str && v1->Str_0@ == v2->Str_0@)
    ||| (v1 is Int && v2 is Int && v1->Int_0 == v2->Int_0)
    ||| (v1 is Arr && v2 is Arr && v1->Arr_0@.len() == v2->Arr_0@.len() && forall|t: int|
        0 <= t < v1->Arr_0@.len() ==> (#[trigger] v1->Arr_0@[t]) is Str && v2->Arr_0@[t] is Str
            && v1->Arr_0@[t]->Str_0@ == v2->Arr_0@[t]->Str_0@)
}

/// Escape streams are read deterministically: equal texts mean equal
/// contents and equal tails.
proof fn lemma_esc_stream_prefix(s: Seq<char>, a: Seq<char>, x: Seq<char>, b: Seq<char>, y: Seq<char>)
    requires
        s == esc_str(a) + seq!['"'] + x,
        s == esc_str(b) + seq!['"'] + y,
    ensures
        a == b,
        x == y,
    decreases a.len(),
{
    if a.len() == 0 {
        assert(esc_str(a) == Seq::<char>::empty());
        assert(s =~= seq!['"'] + x);
        assert(s[0] == '"');
        if b.len() > 0 {
            assert(esc_str(b) == esc_char(b[0]) + esc_str(b.drop_first()));
            lemma_esc_char_cases(b[0]);
            assert(s[0] == esc_char(b[0])[0]);
            assert(false);
        }
        assert(esc_str(b) == Seq::<char>::empty());
        assert(s =~= seq!['"'] + y);
        assert(x =~= s.skip(1));
        assert(y =~= s.skip(1));
    } else {
        assert(esc_str(a) == esc_char(a[0]) + esc_str(a.drop_first()));
        lemma_esc_char_cases(a[0]);
        assert(s[0] == esc_char(a[0])[0]);
        if b.len() == 0 {
            assert(esc_str(b) == Seq::<char>::empty());
            assert((esc_str(b) + seq!['"'] + y)[0] == '"');
            assert(false);
        }
        assert(esc_str(b) == esc_char(b[0]) + esc_str(b.drop_first()));
        lemma_esc_char_cases(b[0]);
        assert(s[0] == esc_char(b[0])[0]);
        let ma = esc_char(a[0]).len() as int;
        let mb = esc_char(b[0]).len() as int;
        assert(s =~= esc_char(a[0]) + (esc_str(a.drop_first()) + seq!['"'] + x));
        assert(s =~= esc_char(b[0]) + (esc_str(b.drop_first()) + seq!['"'] + y));
        assert(s.subrange(0, ma) =~= esc_char(a[0]));
        assert(s.subrange(0, mb) =~= esc_char(b[0]));
        lemma_esc_char_prefix(a[0], b[0], s, 0);
        assert(a[0] == b[0]);
        assert(s.skip(ma) =~= esc_str(a.drop_first()) + seq!['"'] + x);
        assert(s.skip(ma) =~= esc_str(b.drop_first()) + seq!['"'] + y);
        lemma_esc_stream_prefix(s.skip(ma), a.drop_first(), x, b.drop_first(), y);
        assert(a.len() == b.len());
        assert forall|t: int| 0 <= t < a.len() implies a[t] == b[t] by {
            if t > 0 {
                assert(a.drop_first()[t - 1] == a[t]);
                assert(b.drop_first()[t - 1] == b[t]);
            }
        }
        assert(a =~= b);
    }
}

/// A quoted string is read deterministically from a text.
pub proof fn lemma_ser_str_prefix_det(s: Seq<char>, a: Seq<char>, x: Seq<char>, b: Seq<char>, y: Seq<char>)
    requires
        s == ser_str(a) + x,
        s == ser_str(b) + y,
    ensures
        a == b,
        x == y,
{
    assert(s.skip(1) =~= esc_str(a) + seq!['"'] + x);
    assert(s.skip(1) =~= esc_str(b) + seq!['"'] + y);
    lemma_esc_stream_prefix(s.skip(1), a, x, b, y);
}

/// A canonical integer is read deterministically when what follows cannot
/// extend it.
pub proof fn lemma_ser_int_prefix_det(s: Seq<char>, m: int, x: Seq<char>, n: int, y: Seq<char>)
    requires
        s == ser_int(m) + x,
        s == ser_int(n) + y,
        follows_ok(x),
        follows_ok(y),
    ensures
        m == n,
        x == y,
{
    lemma_ser_nat_shape(spec_abs(m));
    lemma_ser_nat_shape(spec_abs(n));
    let am = ser_nat(spec_abs(m));
    let an = ser_nat(spec_abs(n));
    let la = am.len() as int;
    let lb = an.len() as int;
    assert(!is_digit('-'));
    if m < 0 {
        assert(ser_int(m) == seq!['-'] + am);
        assert(s[0] == '-');
    } else {
        assert(ser_int(m) == am);
        assert(s[0] == am[0]);
    }
    if n < 0 {
        assert(ser_int(n) == seq!['-'] + an);
        assert(s[0] == '-');
    } else {
        assert(ser_int(n) == an);
        assert(s[0] == an[0]);
    }
    assert((m < 0) == (n < 0));
    let o: int = if m < 0 {
        1
    } else {
        0
    };
    assert(s.skip(o) =~= am + x);
    assert(s.skip(o) =~= an + y);
    let r = s.skip(o);
    assert(forall|t: int| 0 <= t < la ==> r[t] == am[t]);
    assert(forall|t: int| 0 <= t < lb ==> r[t] == an[t]);
    assert(la == lb) by {
        if la < lb {
            assert(r[la] == an[la]);
            assert(is_digit(an[la]));
            assert(r[la] == x[0]);
            assert(x.len() > 0);
        }
        if lb < la {
            assert(r[lb] == am[lb]);
            assert(is_digit(am[lb]));
            assert(r[lb] == y[0]);
            assert(y.len() > 0);
        }
    }
    assert(am =~= an);
    assert(num_of(am) == spec_abs(m) && num_of(an) == spec_abs(n));
    assert(spec_abs(m) == spec_abs(n));
    assert(m == n);
    assert(x =~= r.skip(la));
    assert(y =~= r.skip(lb));
}

/// An array of strings is read deterministically: any value sequence that
/// renders the same text element by element is the same strings.
proof fn lemma_arr_str_det(
    s: Seq<char>,
    l1: Seq<JsonValue>,
    l2: Seq<JsonValue>,
    k: int,
    x: Seq<char>,
    y: Seq<char>,
)
    requires
        0 <= k <= l1.len(),
        0 <= k <= l2.len(),
        forall|t: int| k <= t < l1.len() ==> (#[trigger] l1[t]) is Str,
        s == ser_arr(l1, k) + seq![']'] + x,
        s == ser_arr(l2, k) + seq![']'] + y,
    ensures
        l1.len() == l2.len(),
        forall|t: int|
            k <= t < l1.len() ==> (#[trigger] l2[t]) is Str && l2[t]->Str_0@ == l1[t]->Str_0@,
        x == y,
    decreases l1.len() - k,
{
    if k >= l1.len() {
        assert(ser_arr(l1, k) == Seq::<char>::empty());
        assert(s =~= seq![']'] + x);
        assert(s[0] == ']');
        if k < l2.len() {
            lemma_ser_val_first(l2[k]);
            if k == l2.len() - 1 {
                assert(ser_arr(l2, k) == ser_val(l2[k]));
            } else {
                assert(ser_arr(l2, k) == ser_val(l2[k]) + seq![','] + ser_arr(l2, k + 1));
            }
            assert(s[0] == ser_val(l2[k])[0]);
            assert(false);
        }
        assert(ser_arr(l2, k) == Seq::<char>::empty());
        assert(s =~= seq![']'] + y);
        assert(x =~= s.skip(1));
        assert(y =~= s.skip(1));
    } else {
        if k >= l2.len() {
            assert(ser_arr(l2, k) == Seq::<char>::empty());
            assert(s =~= seq![']'] + y);
            lemma_ser_val_first(l1[k]);
            if k == l1.len() - 1 {
                assert(ser_arr(l1, k) == ser_val(l1[k]));
            } else {
                assert(ser_arr(l1, k) == ser_val(l1[k]) + seq![','] + ser_arr(l1, k + 1));
            }
            assert(s[0] == ser_val(l1[k])[0]);
            assert(s[0] == '"');
            assert(false);
        }
        let t1: Seq<char> = if k == l1.len() - 1 {
            seq![']'] + x
        } else {
            seq![','] + ser_arr(l1, k + 1) + seq![']'] + x
        };
        let t2: Seq<char> = if k == l2.len() - 1 {
            seq![']'] + y
        } else {
            seq![','] + ser_arr(l2, k + 1) + seq![']'] + y
        };
        assert(s =~= ser_val(l1[k]) + t1);
        assert(s =~= ser_val(l2[k]) + t2);
        assert(l1[k] is Str);
        assert(ser_val(l1[k]) == ser_str(l1[k]->Str_0@));
        lemma_ser_val_first(l1[k]);
        lemma_ser_val_first(l2[k]);
        assert(s[0] == ser_val(l1[k])[0]);
        assert(s[0] == '"');
        assert(s[0] == ser_val(l2[k])[0]);
        assert(l2[k] is Str);
        assert(ser_val(l2[k]) == ser_str(l2[k]->Str_0@));
        lemma_ser_str_prefix_det(s, l1[k]->Str_0@, t1, l2[k]->Str_0@, t2);
        assert(l2[k]->Str_0@ == l1[k]->Str_0@);
        assert(t1 == t2);
        if k == l1.len() - 1 {
            assert(t1[0] == ']');
            if k < l2.len() - 1 {
                assert(t2[0] == ',');
                assert(false);
            }
            assert(x =~= t1.skip(1));
            assert(y =~= t2.skip(1));
        } else {
            assert(t1[0] == ',');
            if k == l2.len() - 1 {
                assert(t2[0] == ']');
                assert(false);
            }
            let s2 = t1.skip(1);
            assert(s2 =~= ser_arr(l1, k + 1) + seq![']'] + x);
            assert(t2.skip(1) =~= ser_arr(l2, k + 1) + seq![']'] + y);
            lemma_arr_str_det(s2, l1, l2, k + 1, x, y);
        }
    }
}

/// Objects whose member values are all of flat kind are read
/// deterministically: any member sequence rendering the same text has the
/// same keys and the same flat contents.
pub proof fn lemma_obj_flat_det(
    s: Seq<char>,
    f1: Seq<(String, JsonValue)>,
    f2: Seq<(String, JsonValue)>,
    k: int,
    x: Seq<char>,
    y: Seq<char>,
)
    requires
        0 <= k <= f1.len(),
        0 <= k <= f2.len(),
        forall|t: int| k <= t < f1.len() ==> flat_kind((#[trigger] f1[t]).1),
        s == ser_obj(f1, k) + seq!['}'] + x,
        s == ser_obj(f2, k) + seq!['}'] + y,
    ensures
        f1.len() == f2.len(),
        forall|t: int|
            k <= t < f1.len() ==> (#[trigger] f2[t]).0@ == f1[t].0@ && flat_value_eq(
                f1[t].1,
                f2[t].1,
            ),
        x == y,
    decreases f1.len() - k,
{
    if k >= f1.len() {
        assert(ser_obj(f1, k) == Seq::<char>::empty());
        assert(s =~= seq!['}'] + x);
        assert(s[0] == '}');
        if k < f2.len() {
            if k == f2.len() - 1 {
                assert(ser_obj(f2, k) == ser_member(f2[k]));
            } else {
                assert(ser_obj(f2, k) == ser_member(f2[k]) + seq![','] + ser_obj(f2, k + 1));
            }
            assert(s[0] == ser_member(f2[k])[0]);
            assert(ser_member(f2[k])[0] == '"');
            assert(false);
        }
        assert(ser_obj(f2, k) == Seq::<char>::empty());
        assert(s =~= seq!['}'] + y);
        assert(x =~= s.skip(1));
        assert(y =~= s.skip(1));
    } else {
        if k >= f2.len() {
            assert(ser_obj(f2, k) == Seq::<char>::empty());
            assert(s =~= seq!['}'] + y);
            if k == f1.len() - 1 {
                assert(ser_obj(f1, k) == ser_member(f1[k]));
            } else {
                assert(ser_obj(f1, k) == ser_member(f1[k]) + seq![','] + ser_obj(f1, k + 1));
            }
            assert(s[0] == ser_member(f1[k])[0]);
            assert(ser_member(f1[k])[0] == '"');
            assert(false);
        }
        let t1: Seq<char> = if k == f1.len() - 1 {
            seq!['}'] + x
        } else {
            seq![','] + ser_obj(f1, k + 1) + seq!['}'] + x
        };
        let t2: Seq<char> = if k == f2.len() - 1 {
            seq!['}'] + y
        } else {
            seq![','] + ser_obj(f2, k + 1) + seq!['}'] + y
        };
        assert(ser_member(f1[k]) == ser_str(f1[k].0@) + seq![':'] + ser_val(f1[k].1));
        assert(ser_member(f2[k]) == ser_str(f2[k].0@) + seq![':'] + ser_val(f2[k].1));
        assert(s =~= ser_str(f1[k].0@) + (seq![':'] + ser_val(f1[k].1) + t1));
        assert(s =~= ser_str(f2[k].0@) + (seq![':'] + ser_val(f2[k].1) + t2));
        lemma_ser_str_prefix_det(
            s,
            f1[k].0@,
            seq![':'] + ser_val(f1[k].1) + t1,
            f2[k].0@,
            seq![':'] + ser_val(f2[k].1) + t2,
        );
        assert(f2[k].0@ == f1[k].0@);
        let r = seq![':'] + ser_val(f1[k].1) + t1;
        assert(r =~= seq![':'] + ser_val(f2[k].1) + t2);
        let r2 = r.skip(1);
        assert(r2 =~= ser_val(f1[k].1) + t1);
        assert(r2 =~= ser_val(f2[k].1) + t2);
        assert(t1[0] == ',' || t1[0] == '}');
        assert(t2[0] == ',' || t2[0] == '}');
        lemma_flat_value_det(r2, f1[k].1, f2[k].1, t1, t2);
        assert(t1 == t2);
        if k == f1.len() - 1 {
            assert(t1[0] == '}');
            if k < f2.len() - 1 {
                assert(t2[0] == ',');
                assert(false);
            }
            assert(x =~= t1.skip(1));
            assert(y =~= t2.skip(1));
        } else {
            assert(t1[0] == ',');
            if k == f2.len() - 1 {
                assert(t2[0] == '}');
                assert(false);
            }
            let s2 = t1.skip(1);
            assert(s2 =~= ser_obj(f1, k + 1) + seq!['}'] + x);
            assert(t2.skip(1) =~= ser_obj(f2, k + 1) + seq!['}'] + y);
            lemma_obj_flat_det(s2, f1, f2, k + 1, x, y);
        }
    }
}

/// A value of flat kind is read deterministically when what follows cannot
/// extend it.
proof fn lemma_flat_value_det(s: Seq<char>, v1: JsonValue, v2: JsonValue, t1: Seq<char>, t2: Seq<char>)
    requires
        flat_kind(v1),
        s == ser_val(v1) + t1,
        s == ser_val(v2) + t2,
        t1.len() > 0 && (t1[0] == ',' || t1[0] == '}' || t1[0] == ']'),
        t2.len() > 0 && (t2[0] == ',' || t2[0] == '}' || t2[0] == ']'),
    ensures
        flat_value_eq(v1, v2),
        t1 == t2,
{
    lemma_ser_val_first(v1);
    lemma_ser_val_first(v2);
    assert(s[0] == ser_val(v1)[0]);
    assert(s[0] == ser_val(v2)[0]);
    if v1 is Str {
        assert(s[0] == '"');
        assert(v2 is Str);
        lemma_ser_str_prefix_det(s, v1->Str_0@, t1, v2->Str_0@, t2);
    } else if v1 is Int {
        assert(s[0] == '-' || is_digit(s[0]));
        assert(v2 is Int);
        assert(ser_val(v1) == ser_int(v1->Int_0 as int));
        assert(ser_val(v2) == ser_int(v2->Int_0 as int));
        assert(!is_digit(t1[0]));
        assert(!is_digit(t2[0]));
        lemma_ser_int_prefix_det(s, v1->Int_0 as int, t1, v2->Int_0 as int, t2);
    } else {
        assert(v1 is Arr);
        assert(s[0] == '[');
        assert(v2 is Arr);
        let r = s.skip(1);
        assert(r =~= ser_arr(v1->Arr_0@, 0) + seq![']'] + t1);
        assert(r =~= ser_arr(v2->Arr_0@, 0) + seq![']'] + t2);
        lemma_arr_str_det(r, v1->Arr_0@, v2->Arr_0@, 0, t1, t2);
    }
}

} // verus!
