//! The textual structured-data encoding that message payloads travel in.
//!
//! Payload values are modelled one level deep — scalars, arrays of scalars
//! and flat objects — which covers every value the protocol puts on the
//! wire.  The encoder emits one canonical text per value (the shape a
//! field-order-preserving serializer produces: no inter-token whitespace,
//! minimal string escapes, minimal integers) and the parser accepts exactly
//! the canonical texts, so that encoding and decoding are inverses.

use vstd::prelude::*;
use vstd::string::StrSliceExecFns;

verus! {

/// The mathematical model of a scalar payload value.
pub enum SpecScalar {
    Null,
    Bool(bool),
    Int(int),
    Str(Seq<char>),
}

/// The mathematical model of a payload value: a scalar, an array of
/// scalars, or an object whose field values are scalars.
pub enum SpecJson {
    Atom(SpecScalar),
    Arr(Seq<SpecScalar>),
    Obj(Seq<(Seq<char>, SpecScalar)>),
}

/// A scalar payload value.
#[derive(Clone, Debug)]
pub enum Scalar {
    Null,
    Bool(bool),
    Int(i64),
    Str(String),
}

/// A payload value as it appears in a call's parameter list or a
/// `Result`-shaped response: a scalar, an array of scalars, or a flat
/// object.
#[derive(Clone, Debug)]
pub enum JsonValue {
    Atom(Scalar),
    Arr(Vec<Scalar>),
    Obj(Vec<(String, Scalar)>),
}

impl View for Scalar {
    type V = SpecScalar;

    open spec fn view(&self) -> SpecScalar {
        match self {
            Scalar::Null => SpecScalar::Null,
            Scalar::Bool(b) => SpecScalar::Bool(*b),
            Scalar::Int(i) => SpecScalar::Int(*i as int),
            Scalar::Str(s) => SpecScalar::Str(s@),
        }
    }
}

/// The models of a sequence of scalars.
pub open spec fn scalars_view(vs: Seq<Scalar>) -> Seq<SpecScalar> {
    vs.map_values(|s: Scalar| s@)
}

/// The models of a sequence of object members.
pub open spec fn members_view(ms: Seq<(String, Scalar)>) -> Seq<(Seq<char>, SpecScalar)> {
    ms.map_values(|m: (String, Scalar)| (m.0@, m.1@))
}

impl View for JsonValue {
    type V = SpecJson;

    open spec fn view(&self) -> SpecJson {
        match self {
            JsonValue::Atom(s) => SpecJson::Atom(s@),
            JsonValue::Arr(vs) => SpecJson::Arr(scalars_view(vs@)),
            JsonValue::Obj(ms) => SpecJson::Obj(members_view(ms@)),
        }
    }
}

/// Whether a scalar model is representable: its integer fits the wire
/// codec's integer type.
pub open spec fn scalar_wf(v: SpecScalar) -> bool {
    match v {
        SpecScalar::Int(i) => i64::MIN <= i <= i64::MAX,
        _ => true,
    }
}

/// Whether a value model is representable.
pub open spec fn json_wf(v: SpecJson) -> bool {
    match v {
        SpecJson::Atom(s) => scalar_wf(s),
        SpecJson::Arr(vs) => forall|i: int| 0 <= i < vs.len() ==> scalar_wf(#[trigger] vs[i]),
        SpecJson::Obj(ms) => forall|i: int| 0 <= i < ms.len() ==> scalar_wf(#[trigger] ms[i].1),
    }
}

// ------------------------------------------------------------------
// Canonical text of a value
// ------------------------------------------------------------------

/// The decimal digit character for `d`.
pub open spec fn digit_char(d: int) -> char {
    if d == 0 { '0' }
    else if d == 1 { '1' }
    else if d == 2 { '2' }
    else if d == 3 { '3' }
    else if d == 4 { '4' }
    else if d == 5 { '5' }
    else if d == 6 { '6' }
    else if d == 7 { '7' }
    else if d == 8 { '8' }
    else if d == 9 { '9' }
    else if d == 10 { 'a' }
    else if d == 11 { 'b' }
    else if d == 12 { 'c' }
    else if d == 13 { 'd' }
    else if d == 14 { 'e' }
    else { 'f' }
}

/// The decimal digits of `n`, most significant first, without leading
/// zeros.
pub open spec fn dec_chars(n: nat) -> Seq<char>
    decreases n
{
    if n < 10 {
        seq![digit_char(n as int)]
    } else {
        dec_chars(n / 10) + seq![digit_char((n % 10) as int)]
    }
}

/// The canonical text of the integer `i`.
pub open spec fn int_chars(i: int) -> Seq<char> {
    if i < 0 {
        seq!['-'] + dec_chars((-i) as nat)
    } else {
        dec_chars(i as nat)
    }
}

/// How one character appears inside a quoted string: the quote and the
/// backslash carry a backslash escape, control characters become a
/// four-digit hexadecimal escape, and every other character stands for
/// itself.
pub open spec fn esc_char(c: char) -> Seq<char> {
    if c == '"' {
        seq!['\\', '"']
    } else if c == '\\' {
        seq!['\\', '\\']
    } else if (c as u32) < 32 {
        seq!['\\', 'u', '0', '0', digit_char(c as u32 as int / 16), digit_char(c as u32 as int % 16)]
    } else {
        seq![c]
    }
}

/// The body of a quoted string: each character escaped as needed.
pub open spec fn str_body_chars(s: Seq<char>) -> Seq<char>
    decreases s.len()
{
    if s.len() == 0 {
        Seq::empty()
    } else {
        esc_char(s[0]) + str_body_chars(s.drop_first())
    }
}

/// The canonical text of the string `s`: its escaped body in quotes.
pub open spec fn str_chars(s: Seq<char>) -> Seq<char> {
    seq!['"'] + str_body_chars(s) + seq!['"']
}

/// The canonical text of a scalar.
pub open spec fn scalar_chars(v: SpecScalar) -> Seq<char> {
    match v {
        SpecScalar::Null => "null"@,
        SpecScalar::Bool(b) => if b { "true"@ } else { "false"@ },
        SpecScalar::Int(i) => int_chars(i),
        SpecScalar::Str(s) => str_chars(s),
    }
}

/// The text of the array elements after the first: each preceded by a
/// comma.
pub open spec fn arr_tail_chars(vs: Seq<SpecScalar>) -> Seq<char>
    decreases vs.len()
{
    if vs.len() == 0 {
        Seq::empty()
    } else {
        seq![','] + scalar_chars(vs[0]) + arr_tail_chars(vs.drop_first())
    }
}

/// The comma-separated text of the array elements.
pub open spec fn arr_body_chars(vs: Seq<SpecScalar>) -> Seq<char> {
    if vs.len() == 0 {
        Seq::empty()
    } else {
        scalar_chars(vs[0]) + arr_tail_chars(vs.drop_first())
    }
}

/// The canonical text of one object member.
pub open spec fn member_chars(k: Seq<char>, v: SpecScalar) -> Seq<char> {
    str_chars(k) + seq![':'] + scalar_chars(v)
}

/// The text of the object members after the first.
pub open spec fn obj_tail_chars(ms: Seq<(Seq<char>, SpecScalar)>) -> Seq<char>
    decreases ms.len()
{
    if ms.len() == 0 {
        Seq::empty()
    } else {
        seq![','] + member_chars(ms[0].0, ms[0].1) + obj_tail_chars(ms.drop_first())
    }
}

/// The comma-separated text of the object members.
pub open spec fn obj_body_chars(ms: Seq<(Seq<char>, SpecScalar)>) -> Seq<char> {
    if ms.len() == 0 {
        Seq::empty()
    } else {
        member_chars(ms[0].0, ms[0].1) + obj_tail_chars(ms.drop_first())
    }
}

/// The canonical text of a payload value.
pub open spec fn value_chars(v: SpecJson) -> Seq<char> {
    match v {
        SpecJson::Atom(s) => scalar_chars(s),
        SpecJson::Arr(vs) => seq!['['] + arr_body_chars(vs) + seq![']'],
        SpecJson::Obj(ms) => seq!['{'] + obj_body_chars(ms) + seq!['}'],
    }
}

// ------------------------------------------------------------------
// The encoder
// ------------------------------------------------------------------

/// Relies on std's `String::push`: appends the given character.
#[verifier::external_body]
pub(crate) fn string_push(s: &mut String, c: char)
    ensures
        final(s)@ == old(s)@ + seq![c],
{
    s.push(c)
}

/// The decimal digit character for `d`.
fn digit_char_exec(d: u64) -> (c: char)
    requires
        d < 16,
    ensures
        c == digit_char(d as int),
{
    match d {
        0 => '0',
        1 => '1',
        2 => '2',
        3 => '3',
        4 => '4',
        5 => '5',
        6 => '6',
        7 => '7',
        8 => '8',
        9 => '9',
        10 => 'a',
        11 => 'b',
        12 => 'c',
        13 => 'd',
        14 => 'e',
        _ => 'f',
    }
}

/// Append the decimal digits of `n`.
fn push_dec(out: &mut String, n: u64)
    ensures
        final(out)@ == old(out)@ + dec_chars(n as nat),
    decreases n,
{
    if n >= 10 {
        push_dec(out, n / 10);
    }
    let c = digit_char_exec(n % 10);
    string_push(out, c);
}

/// Append the canonical text of the integer `i`.
fn push_int(out: &mut String, i: i64)
    ensures
        final(out)@ == old(out)@ + int_chars(i as int),
{
    if i < 0 {
        string_push(out, '-');
        let mag: u64 = if i == i64::MIN {
            9223372036854775808u64
        } else {
            (-i) as u64
        };
        assert(mag == -(i as int));
        push_dec(out, mag);
    } else {
        push_dec(out, i as u64);
    }
}

/// Append one character of a string body, escaped as needed.
fn push_esc(out: &mut String, c: char)
    ensures
        final(out)@ == old(out)@ + esc_char(c),
{
    if c == '"' {
        string_push(out, '\\');
        string_push(out, '"');
    } else if c == '\\' {
        string_push(out, '\\');
        string_push(out, '\\');
    } else if (c as u32) < 32 {
        string_push(out, '\\');
        string_push(out, 'u');
        string_push(out, '0');
        string_push(out, '0');
        let hi = digit_char_exec(((c as u32) / 16) as u64);
        string_push(out, hi);
        let lo = digit_char_exec(((c as u32) % 16) as u64);
        string_push(out, lo);
    } else {
        string_push(out, c);
    }
}

proof fn lemma_str_body_snoc(s: Seq<char>, c: char)
    ensures
        str_body_chars(s.push(c)) == str_body_chars(s) + esc_char(c),
    decreases s.len(),
{
    if s.len() == 0 {
        let sc = s.push(c);
        assert(sc[0] == c);
        assert(sc.drop_first() =~= Seq::<char>::empty());
        assert(str_body_chars(sc.drop_first()) == Seq::<char>::empty());
        assert(str_body_chars(sc) == esc_char(c) + str_body_chars(sc.drop_first()));
        assert(str_body_chars(sc) =~= esc_char(c));
        assert(str_body_chars(s) + esc_char(c) =~= esc_char(c));
    } else {
        assert(s.push(c).drop_first() =~= s.drop_first().push(c));
        lemma_str_body_snoc(s.drop_first(), c);
        assert(str_body_chars(s.push(c)) =~= str_body_chars(s) + esc_char(c));
    }
}

/// Append the canonical text of the string `s`: quotes around its escaped
/// body.
pub(crate) fn push_quoted(out: &mut String, s: &str)
    ensures
        final(out)@ == old(out)@ + str_chars(s@),
{
    string_push(out, '"');
    let n = s.unicode_len();
    let mut i: usize = 0;
    while i < n
        invariant
            i <= n,
            n == s@.len(),
            out@ == old(out)@ + seq!['"'] + str_body_chars(s@.subrange(0, i as int)),
        decreases n - i,
    {
        let c = s.get_char(i);
        push_esc(out, c);
        i = i + 1;
        proof {
            assert(s@.subrange(0, i as int) =~= s@.subrange(0, i as int - 1).push(s@[i as int - 1]));
            lemma_str_body_snoc(s@.subrange(0, i as int - 1), s@[i as int - 1]);
        }
    }
    string_push(out, '"');
    proof {
        assert(s@.subrange(0, s@.len() as int) =~= s@);
    }
}

/// Append the canonical text of a scalar.
fn push_scalar(out: &mut String, v: &Scalar)
    ensures
        final(out)@ == old(out)@ + scalar_chars(v@),
{
    match v {
        Scalar::Null => out.append("null"),
        Scalar::Bool(b) => {
            if *b {
                out.append("true")
            } else {
                out.append("false")
            }
        },
        Scalar::Int(i) => push_int(out, *i),
        Scalar::Str(s) => push_quoted(out, s.as_str()),
    }
}

/// Append the elements of an array after the first, from index `i` on,
/// each preceded by a comma.
fn push_arr_tail(out: &mut String, vs: &Vec<Scalar>, i: usize)
    requires
        1 <= i <= vs.len(),
    ensures
        final(out)@ == old(out)@ + arr_tail_chars(scalars_view(vs@).skip(i as int)),
    decreases vs.len() - i,
{
    proof {
        assert(scalars_view(vs@).len() == vs@.len());
    }
    if i < vs.len() {
        string_push(out, ',');
        push_scalar(out, &vs[i]);
        push_arr_tail(out, vs, i + 1);
        proof {
            let sv = scalars_view(vs@);
            assert(sv[i as int] == vs@[i as int]@);
            assert(sv.skip(i as int).drop_first() =~= sv.skip(i as int + 1));
            assert(sv.skip(i as int)[0] == sv[i as int]);
        }
    } else {
        proof {
            assert(scalars_view(vs@).skip(i as int) =~= Seq::<SpecScalar>::empty());
        }
    }
}

/// Append the canonical text of an array of scalars.
fn push_arr(out: &mut String, vs: &Vec<Scalar>)
    ensures
        final(out)@ == old(out)@ + value_chars(SpecJson::Arr(scalars_view(vs@))),
{
    string_push(out, '[');
    if vs.len() > 0 {
        push_scalar(out, &vs[0]);
        push_arr_tail(out, vs, 1);
        proof {
            let sv = scalars_view(vs@);
            assert(sv[0] == vs@[0]@);
            assert(sv.skip(1) =~= sv.drop_first());
        }
    } else {
        proof {
            assert(scalars_view(vs@).len() == 0);
        }
    }
    string_push(out, ']');
}

/// Append the members of an object after the first, from index `i` on.
fn push_obj_tail(out: &mut String, ms: &Vec<(String, Scalar)>, i: usize)
    requires
        1 <= i <= ms.len(),
    ensures
        final(out)@ == old(out)@ + obj_tail_chars(members_view(ms@).skip(i as int)),
    decreases ms.len() - i,
{
    proof {
        assert(members_view(ms@).len() == ms@.len());
    }
    if i < ms.len() {
        string_push(out, ',');
        push_quoted(out, ms[i].0.as_str());
        string_push(out, ':');
        push_scalar(out, &ms[i].1);
        push_obj_tail(out, ms, i + 1);
        proof {
            let mv = members_view(ms@);
            assert(mv[i as int] == (ms@[i as int].0@, ms@[i as int].1@));
            assert(mv.skip(i as int).drop_first() =~= mv.skip(i as int + 1));
            assert(mv.skip(i as int)[0] == mv[i as int]);
        }
    } else {
        proof {
            assert(members_view(ms@).skip(i as int) =~= Seq::<(Seq<char>, SpecScalar)>::empty());
        }
    }
}

/// Append the canonical text of a flat object.
fn push_obj(out: &mut String, ms: &Vec<(String, Scalar)>)
    ensures
        final(out)@ == old(out)@ + value_chars(SpecJson::Obj(members_view(ms@))),
{
    string_push(out, '{');
    if ms.len() > 0 {
        push_quoted(out, ms[0].0.as_str());
        string_push(out, ':');
        push_scalar(out, &ms[0].1);
        push_obj_tail(out, ms, 1);
        proof {
            let mv = members_view(ms@);
            assert(mv[0] == (ms@[0].0@, ms@[0].1@));
            assert(mv.skip(1) =~= mv.drop_first());
        }
    } else {
        proof {
            assert(members_view(ms@).len() == 0);
        }
    }
    string_push(out, '}');
}

/// Append the canonical text of a payload value.
pub(crate) fn push_value(out: &mut String, v: &JsonValue)
    ensures
        final(out)@ == old(out)@ + value_chars(v@),
{
    match v {
        JsonValue::Atom(s) => push_scalar(out, s),
        JsonValue::Arr(vs) => push_arr(out, vs),
        JsonValue::Obj(ms) => push_obj(out, ms),
    }
}

} // verus!

verus! {

// ------------------------------------------------------------------
// The parser: specification
// ------------------------------------------------------------------

/// Whether `c` is a decimal digit.
pub open spec fn is_digit(c: char) -> bool {
    48 <= c as u32 <= 57
}

/// The value of the decimal digit `c`.
pub open spec fn digit_val(c: char) -> int {
    c as u32 - 48
}

/// The value of the lowercase hexadecimal digit `c`, or -1 if `c` is no
/// such digit.
pub open spec fn hex_val(c: char) -> int {
    if is_digit(c) {
        digit_val(c)
    } else if c == 'a' { 10 }
    else if c == 'b' { 11 }
    else if c == 'c' { 12 }
    else if c == 'd' { 13 }
    else if c == 'e' { 14 }
    else if c == 'f' { 15 }
    else { -1 }
}

/// The character with code point `v`, for the control range the string
/// escape covers.
pub open spec fn ctl_char(v: int) -> char {
    if v == 0 { '\u{00}' }
    else if v == 1 { '\u{01}' }
    else if v == 2 { '\u{02}' }
    else if v == 3 { '\u{03}' }
    else if v == 4 { '\u{04}' }
    else if v == 5 { '\u{05}' }
    else if v == 6 { '\u{06}' }
    else if v == 7 { '\u{07}' }
    else if v == 8 { '\u{08}' }
    else if v == 9 { '\u{09}' }
    else if v == 10 { '\u{0a}' }
    else if v == 11 { '\u{0b}' }
    else if v == 12 { '\u{0c}' }
    else if v == 13 { '\u{0d}' }
    else if v == 14 { '\u{0e}' }
    else if v == 15 { '\u{0f}' }
    else if v == 16 { '\u{10}' }
    else if v == 17 { '\u{11}' }
    else if v == 18 { '\u{12}' }
    else if v == 19 { '\u{13}' }
    else if v == 20 { '\u{14}' }
    else if v == 21 { '\u{15}' }
    else if v == 22 { '\u{16}' }
    else if v == 23 { '\u{17}' }
    else if v == 24 { '\u{18}' }
    else if v == 25 { '\u{19}' }
    else if v == 26 { '\u{1a}' }
    else if v == 27 { '\u{1b}' }
    else if v == 28 { '\u{1c}' }
    else if v == 29 { '\u{1d}' }
    else if v == 30 { '\u{1e}' }
    else { '\u{1f}' }
}

/// Consume the literal `lit` at `pos`, yielding the position after it.
pub open spec fn parse_lit(t: Seq<char>, pos: int, lit: Seq<char>) -> Option<int> {
    if 0 <= pos && pos + lit.len() <= t.len() && t.subrange(pos, pos + lit.len() as int) == lit {
        Some(pos + lit.len() as int)
    } else {
        None
    }
}

/// Consume decimal digits starting from the accumulated value `acc`,
/// failing when the value would pass `bound`.
pub open spec fn parse_digits(t: Seq<char>, pos: int, acc: int, bound: int) -> Option<(int, int)>
    decreases t.len() - pos when 0 <= pos <= t.len()
{
    if pos < t.len() && is_digit(t[pos]) {
        let acc2 = acc * 10 + digit_val(t[pos]);
        if acc2 > bound {
            None
        } else {
            parse_digits(t, pos + 1, acc2, bound)
        }
    } else {
        Some((acc, pos))
    }
}

/// Consume an optionally negated run of decimal digits whose value fits
/// the wire codec's integer type.
pub open spec fn parse_int(t: Seq<char>, pos: int) -> Option<(int, int)> {
    if 0 <= pos < t.len() && t[pos] == '-' {
        if pos + 1 < t.len() && is_digit(t[pos + 1]) {
            match parse_digits(t, pos + 1, 0, 0x8000000000000000) {
                Some((v, end)) => Some((-v, end)),
                None => None,
            }
        } else {
            None
        }
    } else if 0 <= pos < t.len() && is_digit(t[pos]) {
        parse_digits(t, pos, 0, 0x7fffffffffffffff)
    } else {
        None
    }
}

/// Consume the body of a quoted string up to and including the closing
/// quote, undoing the escapes the encoder applies; a raw control
/// character, an unknown escape or a missing closing quote fails.
pub open spec fn parse_str_body(t: Seq<char>, pos: int) -> Option<(Seq<char>, int)>
    decreases t.len() - pos when 0 <= pos <= t.len()
{
    if pos >= t.len() {
        None
    } else if t[pos] == '"' {
        Some((Seq::empty(), pos + 1))
    } else if t[pos] == '\\' {
        if pos + 1 < t.len() && (t[pos + 1] == '"' || t[pos + 1] == '\\') {
            match parse_str_body(t, pos + 2) {
                Some((s, end)) => Some((seq![t[pos + 1]] + s, end)),
                None => None,
            }
        } else if pos + 5 < t.len() && t[pos + 1] == 'u' && t[pos + 2] == '0' && t[pos + 3] == '0'
            && hex_val(t[pos + 4]) >= 0 && hex_val(t[pos + 5]) >= 0
            && 16 * hex_val(t[pos + 4]) + hex_val(t[pos + 5]) < 32 {
            match parse_str_body(t, pos + 6) {
                Some((s, end)) => Some((
                    seq![ctl_char(16 * hex_val(t[pos + 4]) + hex_val(t[pos + 5]))] + s,
                    end,
                )),
                None => None,
            }
        } else {
            None
        }
    } else if (t[pos] as u32) < 32 {
        None
    } else {
        match parse_str_body(t, pos + 1) {
            Some((s, end)) => Some((seq![t[pos]] + s, end)),
            None => None,
        }
    }
}

/// Consume a quoted string.
pub open spec fn parse_string(t: Seq<char>, pos: int) -> Option<(Seq<char>, int)> {
    if 0 <= pos < t.len() && t[pos] == '"' {
        parse_str_body(t, pos + 1)
    } else {
        None
    }
}

/// Consume one scalar: a literal word, a quoted string or an integer.
pub open spec fn parse_scalar(t: Seq<char>, pos: int) -> Option<(SpecScalar, int)> {
    if pos < 0 || pos >= t.len() {
        None
    } else if t[pos] == 'n' {
        match parse_lit(t, pos, "null"@) {
            Some(end) => Some((SpecScalar::Null, end)),
            None => None,
        }
    } else if t[pos] == 't' {
        match parse_lit(t, pos, "true"@) {
            Some(end) => Some((SpecScalar::Bool(true), end)),
            None => None,
        }
    } else if t[pos] == 'f' {
        match parse_lit(t, pos, "false"@) {
            Some(end) => Some((SpecScalar::Bool(false), end)),
            None => None,
        }
    } else if t[pos] == '"' {
        match parse_string(t, pos) {
            Some((s, end)) => Some((SpecScalar::Str(s), end)),
            None => None,
        }
    } else {
        match parse_int(t, pos) {
            Some((v, end)) => Some((SpecScalar::Int(v), end)),
            None => None,
        }
    }
}

/// Consume the elements of an array after the first, each preceded by a
/// comma, up to and including the closing bracket.
pub open spec fn parse_arr_tail(t: Seq<char>, pos: int) -> Option<(Seq<SpecScalar>, int)>
    decreases t.len() - pos when 0 <= pos <= t.len()
{
    if pos < t.len() && t[pos] == ']' {
        Some((Seq::empty(), pos + 1))
    } else if pos < t.len() && t[pos] == ',' {
        match parse_scalar(t, pos + 1) {
            Some((v, end)) => {
                if pos + 1 < end && end <= t.len() {
                    match parse_arr_tail(t, end) {
                        Some((vs, e2)) => Some((seq![v] + vs, e2)),
                        None => None,
                    }
                } else {
                    None
                }
            },
            None => None,
        }
    } else {
        None
    }
}

/// Consume an array of scalars, brackets included.
pub open spec fn parse_arr(t: Seq<char>, pos: int) -> Option<(Seq<SpecScalar>, int)> {
    if 0 <= pos < t.len() && t[pos] == '[' {
        if pos + 1 < t.len() && t[pos + 1] == ']' {
            Some((Seq::empty(), pos + 2))
        } else {
            match parse_scalar(t, pos + 1) {
                Some((v, end)) => {
                    if pos + 1 < end && end <= t.len() {
                        match parse_arr_tail(t, end) {
                            Some((vs, e2)) => Some((seq![v] + vs, e2)),
                            None => None,
                        }
                    } else {
                        None
                    }
                },
                None => None,
            }
        }
    } else {
        None
    }
}

/// Consume one object member: a quoted key, a colon, and a scalar.
pub open spec fn parse_member(t: Seq<char>, pos: int) -> Option<((Seq<char>, SpecScalar), int)> {
    match parse_string(t, pos) {
        Some((k, end)) => {
            if end < t.len() && t[end] == ':' {
                match parse_scalar(t, end + 1) {
                    Some((v, e2)) => Some(((k, v), e2)),
                    None => None,
                }
            } else {
                None
            }
        },
        None => None,
    }
}

/// Consume the members of an object after the first, up to and including
/// the closing brace.
pub open spec fn parse_obj_tail(t: Seq<char>, pos: int) -> Option<(Seq<(Seq<char>, SpecScalar)>, int)>
    decreases t.len() - pos when 0 <= pos <= t.len()
{
    if pos < t.len() && t[pos] == '}' {
        Some((Seq::empty(), pos + 1))
    } else if pos < t.len() && t[pos] == ',' {
        match parse_member(t, pos + 1) {
            Some((m, end)) => {
                if pos + 1 < end && end <= t.len() {
                    match parse_obj_tail(t, end) {
                        Some((ms, e2)) => Some((seq![m] + ms, e2)),
                        None => None,
                    }
                } else {
                    None
                }
            },
            None => None,
        }
    } else {
        None
    }
}

/// Consume a flat object, braces included.
pub open spec fn parse_obj(t: Seq<char>, pos: int) -> Option<(Seq<(Seq<char>, SpecScalar)>, int)> {
    if 0 <= pos < t.len() && t[pos] == '{' {
        if pos + 1 < t.len() && t[pos + 1] == '}' {
            Some((Seq::empty(), pos + 2))
        } else {
            match parse_member(t, pos + 1) {
                Some((m, end)) => {
                    if pos + 1 < end && end <= t.len() {
                        match parse_obj_tail(t, end) {
                            Some((ms, e2)) => Some((seq![m] + ms, e2)),
                            None => None,
                        }
                    } else {
                        None
                    }
                },
                None => None,
            }
        }
    } else {
        None
    }
}

/// Consume one payload value.
pub open spec fn parse_value(t: Seq<char>, pos: int) -> Option<(SpecJson, int)> {
    if 0 <= pos < t.len() && t[pos] == '[' {
        match parse_arr(t, pos) {
            Some((vs, end)) => Some((SpecJson::Arr(vs), end)),
            None => None,
        }
    } else if 0 <= pos < t.len() && t[pos] == '{' {
        match parse_obj(t, pos) {
            Some((ms, end)) => Some((SpecJson::Obj(ms), end)),
            None => None,
        }
    } else {
        match parse_scalar(t, pos) {
            Some((v, end)) => Some((SpecJson::Atom(v), end)),
            None => None,
        }
    }
}

// ------------------------------------------------------------------
// The parser: bounds
// ------------------------------------------------------------------

proof fn lemma_parse_digits_range(t: Seq<char>, pos: int, acc: int, bound: int)
    requires
        0 <= pos <= t.len(),
        0 <= acc,
    ensures
        match parse_digits(t, pos, acc, bound) {
            Some((v, end)) => pos <= end <= t.len() && 0 <= v <= bound || pos <= end <= t.len() && v == acc,
            None => true,
        },
    decreases t.len() - pos,
{
    if pos < t.len() && is_digit(t[pos]) {
        let acc2 = acc * 10 + digit_val(t[pos]);
        if acc2 <= bound {
            lemma_parse_digits_range(t, pos + 1, acc2, bound);
        }
    }
}

proof fn lemma_parse_str_body_range(t: Seq<char>, pos: int)
    requires
        0 <= pos <= t.len(),
    ensures
        match parse_str_body(t, pos) {
            Some((s, end)) => pos < end <= t.len(),
            None => true,
        },
    decreases t.len() - pos,
{
    if pos < t.len() && t[pos] != '"' {
        if t[pos] == '\\' {
            if pos + 1 < t.len() && (t[pos + 1] == '"' || t[pos + 1] == '\\') {
                lemma_parse_str_body_range(t, pos + 2);
            } else if pos + 5 < t.len() && t[pos + 1] == 'u' && t[pos + 2] == '0'
                && t[pos + 3] == '0' && hex_val(t[pos + 4]) >= 0 && hex_val(t[pos + 5]) >= 0
                && 16 * hex_val(t[pos + 4]) + hex_val(t[pos + 5]) < 32 {
                lemma_parse_str_body_range(t, pos + 6);
            }
        } else if (t[pos] as u32) >= 32 {
            lemma_parse_str_body_range(t, pos + 1);
        }
    }
}


} // verus!

verus! {

// ------------------------------------------------------------------
// The parser: executable code
// ------------------------------------------------------------------

/// The value of a lowercase hexadecimal digit, or -1.
fn hex_val_exec(c: char) -> (r: i64)
    ensures
        r == hex_val(c),
{
    let u: u32 = c as u32;
    if 48 <= u && u <= 57 {
        (u - 48) as i64
    } else if c == 'a' { 10 }
    else if c == 'b' { 11 }
    else if c == 'c' { 12 }
    else if c == 'd' { 13 }
    else if c == 'e' { 14 }
    else if c == 'f' { 15 }
    else { -1 }
}

/// The character with control code point `v`.
fn ctl_char_exec(v: u64) -> (c: char)
    requires
        v < 32,
    ensures
        c == ctl_char(v as int),
{
    match v {
        0 => '\u{00}',
        1 => '\u{01}',
        2 => '\u{02}',
        3 => '\u{03}',
        4 => '\u{04}',
        5 => '\u{05}',
        6 => '\u{06}',
        7 => '\u{07}',
        8 => '\u{08}',
        9 => '\u{09}',
        10 => '\u{0a}',
        11 => '\u{0b}',
        12 => '\u{0c}',
        13 => '\u{0d}',
        14 => '\u{0e}',
        15 => '\u{0f}',
        16 => '\u{10}',
        17 => '\u{11}',
        18 => '\u{12}',
        19 => '\u{13}',
        20 => '\u{14}',
        21 => '\u{15}',
        22 => '\u{16}',
        23 => '\u{17}',
        24 => '\u{18}',
        25 => '\u{19}',
        26 => '\u{1a}',
        27 => '\u{1b}',
        28 => '\u{1c}',
        29 => '\u{1d}',
        30 => '\u{1e}',
        _ => '\u{1f}',
    }
}

/// Match the literal `lit` at `pos`.
pub(crate) fn expect_lit(t: &str, n: usize, pos: usize, lit: &str) -> (r: Option<usize>)
    requires
        n == t@.len(),
        pos <= n,
    ensures
        match r {
            Some(end) => parse_lit(t@, pos as int, lit@) == Some(end as int)
                && end as int == pos + lit@.len() && end <= n,
            None => parse_lit(t@, pos as int, lit@) is None,
        },
{
    let m: usize = lit.unicode_len();
    if m > n - pos {
        return None;
    }
    let mut i: usize = 0;
    while i < m
        invariant
            i <= m,
            m == lit@.len(),
            pos + m <= n,
            n == t@.len(),
            forall|k: int| 0 <= k < i ==> t@[pos + k] == lit@[k],
        decreases m - i,
    {
        let a = t.get_char(pos + i);
        let b = lit.get_char(i);
        if a != b {
            proof {
                let sub = t@.subrange(pos as int, pos + lit@.len() as int);
                assert(sub[i as int] == t@[pos + i]);
                assert(sub != lit@);
            }
            return None;
        }
        i = i + 1;
    }
    proof {
        assert(t@.subrange(pos as int, pos + lit@.len() as int) =~= lit@);
    }
    Some(pos + m)
}

/// Consume decimal digits, folding them onto `acc` and failing past
/// `bound`.
fn p_digits(t: &str, n: usize, pos: usize, acc: u64, bound: u64) -> (r: Option<(u64, usize)>)
    requires
        n == t@.len(),
        pos <= n,
        acc <= bound,
        9 <= bound,
    ensures
        match r {
            Some((v, end)) => parse_digits(t@, pos as int, acc as int, bound as int)
                == Some((v as int, end as int)) && pos <= end <= n && v <= bound,
            None => parse_digits(t@, pos as int, acc as int, bound as int) is None,
        },
    decreases n - pos,
{
    if pos >= n {
        return Some((acc, pos));
    }
    let c = t.get_char(pos);
    let u: u32 = c as u32;
    if 48 <= u && u <= 57 {
        let d: u64 = (u - 48) as u64;
        let q: u64 = (bound - d) / 10;
        proof {
            vstd::arithmetic::div_mod::lemma_fundamental_div_mod((bound - d) as int, 10);
            assert(acc as int > q as int ==> acc as int * 10 + d as int > bound as int)
                by (nonlinear_arith)
                requires
                    (bound - d) as int == 10 * ((bound - d) as int / 10) + (bound - d) as int % 10,
                    0 <= (bound - d) as int % 10 < 10,
                    q as int == (bound - d) as int / 10,
                    0 <= d as int <= 9,
                    d <= bound,
            ;
            assert(acc as int <= q as int ==> acc as int * 10 + d as int <= bound as int)
                by (nonlinear_arith)
                requires
                    (bound - d) as int == 10 * ((bound - d) as int / 10) + (bound - d) as int % 10,
                    0 <= (bound - d) as int % 10 < 10,
                    q as int == (bound - d) as int / 10,
                    0 <= d as int <= 9,
                    d <= bound,
                    0 <= acc as int,
            ;
        }
        if acc > q {
            return None;
        }
        let acc2: u64 = acc * 10 + d;
        p_digits(t, n, pos + 1, acc2, bound)
    } else {
        Some((acc, pos))
    }
}

/// Consume an optionally negated integer.
fn p_int(t: &str, n: usize, pos: usize) -> (r: Option<(i64, usize)>)
    requires
        n == t@.len(),
        pos <= n,
    ensures
        match r {
            Some((v, end)) => parse_int(t@, pos as int) == Some((v as int, end as int))
                && pos < end <= n,
            None => parse_int(t@, pos as int) is None,
        },
{
    if pos >= n {
        return None;
    }
    let c = t.get_char(pos);
    if c == '-' {
        if pos + 1 < n {
            let c2 = t.get_char(pos + 1);
            let u2: u32 = c2 as u32;
            if 48 <= u2 && u2 <= 57 {
                proof {
                    let d: int = digit_val(t@[pos + 1]);
                    lemma_parse_digits_range(t@, pos + 2, d, 0x8000000000000000);
                }
                match p_digits(t, n, pos + 1, 0, 0x8000000000000000u64) {
                    Some((v, end)) => {
                        let iv: i64 = if v == 0x8000000000000000u64 {
                            i64::MIN
                        } else {
                            -(v as i64)
                        };
                        assert(iv as int == -(v as int));
                        Some((iv, end))
                    },
                    None => None,
                }
            } else {
                None
            }
        } else {
            None
        }
    } else {
        let u: u32 = c as u32;
        if 48 <= u && u <= 57 {
            proof {
                let d: int = digit_val(t@[pos as int]);
                lemma_parse_digits_range(t@, pos + 1, d, 0x7fffffffffffffff);
            }
            match p_digits(t, n, pos, 0, 0x7fffffffffffffffu64) {
                Some((v, end)) => Some((v as i64, end)),
                None => None,
            }
        } else {
            None
        }
    }
}

/// Consume a string body up to and including its closing quote.
fn p_str_body(t: &str, n: usize, pos: usize) -> (r: Option<(String, usize)>)
    requires
        n == t@.len(),
        pos <= n,
    ensures
        match r {
            Some((s, end)) => parse_str_body(t@, pos as int) == Some((s@, end as int))
                && pos < end <= n,
            None => parse_str_body(t@, pos as int) is None,
        },
    decreases n - pos,
{
    if pos >= n {
        return None;
    }
    let c = t.get_char(pos);
    if c == '"' {
        let s = String::new();
        proof {
            assert(s@ =~= Seq::<char>::empty());
        }
        return Some((s, pos + 1));
    }
    if c == '\\' {
        if pos + 1 < n {
            let c2 = t.get_char(pos + 1);
            if c2 == '"' || c2 == '\\' {
                match p_str_body(t, n, pos + 2) {
                    Some((rest, end)) => {
                        let mut out = String::new();
                        string_push(&mut out, c2);
                        out.append(rest.as_str());
                        proof {
                            assert(out@ =~= seq![t@[pos + 1]] + rest@);
                        }
                        Some((out, end))
                    },
                    None => None,
                }
            } else if c2 == 'u' && n - pos > 5 {
                let c3 = t.get_char(pos + 2);
                let c4 = t.get_char(pos + 3);
                let h1: i64 = hex_val_exec(t.get_char(pos + 4));
                let h2: i64 = hex_val_exec(t.get_char(pos + 5));
                if c3 == '0' && c4 == '0' && h1 >= 0 && h2 >= 0 && 16 * h1 + h2 < 32 {
                    match p_str_body(t, n, pos + 6) {
                        Some((rest, end)) => {
                            let mut out = String::new();
                            let cc = ctl_char_exec((16 * h1 + h2) as u64);
                            string_push(&mut out, cc);
                            out.append(rest.as_str());
                            proof {
                                assert(out@ =~= seq![
                                    ctl_char(16 * hex_val(t@[pos + 4]) + hex_val(t@[pos + 5]))
                                ] + rest@);
                            }
                            Some((out, end))
                        },
                        None => None,
                    }
                } else {
                    None
                }
            } else {
                None
            }
        } else {
            None
        }
    } else if (c as u32) < 32 {
        None
    } else {
        match p_str_body(t, n, pos + 1) {
            Some((rest, end)) => {
                let mut out = String::new();
                string_push(&mut out, c);
                out.append(rest.as_str());
                proof {
                    assert(out@ =~= seq![t@[pos as int]] + rest@);
                }
                Some((out, end))
            },
            None => None,
        }
    }
}

/// Consume a quoted string.
pub(crate) fn p_string(t: &str, n: usize, pos: usize) -> (r: Option<(String, usize)>)
    requires
        n == t@.len(),
        pos <= n,
    ensures
        match r {
            Some((s, end)) => parse_string(t@, pos as int) == Some((s@, end as int))
                && pos < end <= n,
            None => parse_string(t@, pos as int) is None,
        },
{
    if pos >= n {
        return None;
    }
    let c = t.get_char(pos);
    if c == '"' {
        p_str_body(t, n, pos + 1)
    } else {
        None
    }
}

/// Consume one scalar.
fn p_scalar(t: &str, n: usize, pos: usize) -> (r: Option<(Scalar, usize)>)
    requires
        n == t@.len(),
        pos <= n,
    ensures
        match r {
            Some((v, end)) => parse_scalar(t@, pos as int) == Some((v@, end as int))
                && pos < end <= n,
            None => parse_scalar(t@, pos as int) is None,
        },
{
    if pos >= n {
        return None;
    }
    let c = t.get_char(pos);
    if c == 'n' {
        proof {
            reveal_strlit("null");
        }
        match expect_lit(t, n, pos, "null") {
            Some(end) => Some((Scalar::Null, end)),
            None => None,
        }
    } else if c == 't' {
        proof {
            reveal_strlit("true");
        }
        match expect_lit(t, n, pos, "true") {
            Some(end) => Some((Scalar::Bool(true), end)),
            None => None,
        }
    } else if c == 'f' {
        proof {
            reveal_strlit("false");
        }
        match expect_lit(t, n, pos, "false") {
            Some(end) => Some((Scalar::Bool(false), end)),
            None => None,
        }
    } else if c == '"' {
        match p_string(t, n, pos) {
            Some((s, end)) => Some((Scalar::Str(s), end)),
            None => None,
        }
    } else {
        match p_int(t, n, pos) {
            Some((v, end)) => Some((Scalar::Int(v), end)),
            None => None,
        }
    }
}

/// Consume the elements of an array after the first.
fn p_arr_tail(t: &str, n: usize, pos: usize) -> (r: Option<(Vec<Scalar>, usize)>)
    requires
        n == t@.len(),
        pos <= n,
    ensures
        match r {
            Some((vs, end)) => parse_arr_tail(t@, pos as int)
                == Some((scalars_view(vs@), end as int)) && pos < end <= n,
            None => parse_arr_tail(t@, pos as int) is None,
        },
    decreases n - pos,
{
    if pos >= n {
        return None;
    }
    let c = t.get_char(pos);
    if c == ']' {
        let vs: Vec<Scalar> = Vec::new();
        proof {
            assert(scalars_view(vs@) =~= Seq::<SpecScalar>::empty());
        }
        return Some((vs, pos + 1));
    }
    if c == ',' {
        match p_scalar(t, n, pos + 1) {
            Some((v, end)) => {
                match p_arr_tail(t, n, end) {
                    Some((mut vs, e2)) => {
                        let ghost old_vs = vs@;
                        vs.insert(0, v);
                        proof {
                            assert(scalars_view(vs@) =~= seq![v@] + scalars_view(old_vs));
                        }
                        Some((vs, e2))
                    },
                    None => None,
                }
            },
            None => None,
        }
    } else {
        None
    }
}

/// Consume an array of scalars.
fn p_arr(t: &str, n: usize, pos: usize) -> (r: Option<(Vec<Scalar>, usize)>)
    requires
        n == t@.len(),
        pos <= n,
    ensures
        match r {
            Some((vs, end)) => parse_arr(t@, pos as int)
                == Some((scalars_view(vs@), end as int)) && pos < end <= n,
            None => parse_arr(t@, pos as int) is None,
        },
{
    if pos >= n {
        return None;
    }
    let c = t.get_char(pos);
    if c != '[' {
        return None;
    }
    if pos + 1 < n && t.get_char(pos + 1) == ']' {
        let vs: Vec<Scalar> = Vec::new();
        proof {
            assert(scalars_view(vs@) =~= Seq::<SpecScalar>::empty());
        }
        return Some((vs, pos + 2));
    }
    match p_scalar(t, n, pos + 1) {
        Some((v, end)) => {
            match p_arr_tail(t, n, end) {
                Some((mut vs, e2)) => {
                    let ghost old_vs = vs@;
                    vs.insert(0, v);
                    proof {
                        assert(scalars_view(vs@) =~= seq![v@] + scalars_view(old_vs));
                    }
                    Some((vs, e2))
                },
                None => None,
            }
        },
        None => None,
    }
}

/// Consume one object member.
fn p_member(t: &str, n: usize, pos: usize) -> (r: Option<((String, Scalar), usize)>)
    requires
        n == t@.len(),
        pos <= n,
    ensures
        match r {
            Some((m, end)) => parse_member(t@, pos as int)
                == Some(((m.0@, m.1@), end as int)) && pos < end <= n,
            None => parse_member(t@, pos as int) is None,
        },
{
    match p_string(t, n, pos) {
        Some((k, end)) => {
            if end < n && t.get_char(end) == ':' {
                match p_scalar(t, n, end + 1) {
                    Some((v, e2)) => Some(((k, v), e2)),
                    None => None,
                }
            } else {
                None
            }
        },
        None => None,
    }
}

/// Consume the members of an object after the first.
fn p_obj_tail(t: &str, n: usize, pos: usize) -> (r: Option<(Vec<(String, Scalar)>, usize)>)
    requires
        n == t@.len(),
        pos <= n,
    ensures
        match r {
            Some((ms, end)) => parse_obj_tail(t@, pos as int)
                == Some((members_view(ms@), end as int)) && pos < end <= n,
            None => parse_obj_tail(t@, pos as int) is None,
        },
    decreases n - pos,
{
    if pos >= n {
        return None;
    }
    let c = t.get_char(pos);
    if c == '}' {
        let ms: Vec<(String, Scalar)> = Vec::new();
        proof {
            assert(members_view(ms@) =~= Seq::<(Seq<char>, SpecScalar)>::empty());
        }
        return Some((ms, pos + 1));
    }
    if c == ',' {
        match p_member(t, n, pos + 1) {
            Some((m, end)) => {
                match p_obj_tail(t, n, end) {
                    Some((mut ms, e2)) => {
                        let ghost old_ms = ms@;
                        let ghost mv = (m.0@, m.1@);
                        ms.insert(0, m);
                        proof {
                            assert(members_view(ms@) =~= seq![mv] + members_view(old_ms));
                        }
                        Some((ms, e2))
                    },
                    None => None,
                }
            },
            None => None,
        }
    } else {
        None
    }
}

/// Consume a flat object.
fn p_obj(t: &str, n: usize, pos: usize) -> (r: Option<(Vec<(String, Scalar)>, usize)>)
    requires
        n == t@.len(),
        pos <= n,
    ensures
        match r {
            Some((ms, end)) => parse_obj(t@, pos as int)
                == Some((members_view(ms@), end as int)) && pos < end <= n,
            None => parse_obj(t@, pos as int) is None,
        },
{
    if pos >= n {
        return None;
    }
    let c = t.get_char(pos);
    if c != '{' {
        return None;
    }
    if pos + 1 < n && t.get_char(pos + 1) == '}' {
        let ms: Vec<(String, Scalar)> = Vec::new();
        proof {
            assert(members_view(ms@) =~= Seq::<(Seq<char>, SpecScalar)>::empty());
        }
        return Some((ms, pos + 2));
    }
    match p_member(t, n, pos + 1) {
        Some((m, end)) => {
            match p_obj_tail(t, n, end) {
                Some((mut ms, e2)) => {
                    let ghost old_ms = ms@;
                    let ghost mv = (m.0@, m.1@);
                    ms.insert(0, m);
                    proof {
                        assert(members_view(ms@) =~= seq![mv] + members_view(old_ms));
                    }
                    Some((ms, e2))
                },
                None => None,
            }
        },
        None => None,
    }
}

/// Consume one payload value.
pub(crate) fn p_value(t: &str, n: usize, pos: usize) -> (r: Option<(JsonValue, usize)>)
    requires
        n == t@.len(),
        pos <= n,
    ensures
        match r {
            Some((v, end)) => parse_value(t@, pos as int) == Some((v@, end as int))
                && pos < end <= n,
            None => parse_value(t@, pos as int) is None,
        },
{
    if pos >= n {
        return None;
    }
    let c = t.get_char(pos);
    if c == '[' {
        match p_arr(t, n, pos) {
            Some((vs, end)) => Some((JsonValue::Arr(vs), end)),
            None => None,
        }
    } else if c == '{' {
        match p_obj(t, n, pos) {
            Some((ms, end)) => Some((JsonValue::Obj(ms), end)),
            None => None,
        }
    } else {
        match p_scalar(t, n, pos) {
            Some((v, end)) => Some((JsonValue::Atom(v), end)),
            None => None,
        }
    }
}

} // verus!

verus! {

// ------------------------------------------------------------------
// Round trip: the parser undoes the encoder
// ------------------------------------------------------------------

/// `x` stands at position `pos` of `t`.
pub open spec fn has_at(t: Seq<char>, pos: int, x: Seq<char>) -> bool {
    0 <= pos && pos + x.len() <= t.len() && t.subrange(pos, pos + x.len() as int) == x
}

/// Splitting a concatenation found in `t` finds its two parts.
pub proof fn lemma_has_at_concat(t: Seq<char>, pos: int, a: Seq<char>, b: Seq<char>)
    requires
        has_at(t, pos, a + b),
    ensures
        has_at(t, pos, a),
        has_at(t, pos + a.len(), b),
{
    let ab = a + b;
    assert forall|i: int| 0 <= i < a.len()
        implies t.subrange(pos, pos + a.len() as int)[i] == a[i] by {
        assert(t.subrange(pos, pos + ab.len() as int)[i] == ab[i]);
    }
    assert(t.subrange(pos, pos + a.len() as int) =~= a);
    assert forall|j: int| 0 <= j < b.len()
        implies t.subrange(pos + a.len(), pos + a.len() + b.len() as int)[j] == b[j] by {
        assert(t.subrange(pos, pos + ab.len() as int)[a.len() + j] == ab[a.len() + j]);
    }
    assert(t.subrange(pos + a.len(), pos + a.len() + b.len() as int) =~= b);
}

/// A single character found in `t` is the character at its position.
pub proof fn lemma_has_at_char(t: Seq<char>, pos: int, c: char)
    requires
        has_at(t, pos, seq![c]),
    ensures
        0 <= pos < t.len() && t[pos] == c,
{
    assert(t.subrange(pos, pos + 1)[0] == t[pos]);
}

/// Ten to the `k`.
pub open spec fn pow10(k: nat) -> nat
    decreases k
{
    if k == 0 {
        1
    } else {
        10 * pow10((k - 1) as nat)
    }
}

proof fn lemma_pow10_pos(k: nat)
    ensures
        pow10(k) >= 1,
    decreases k,
{
    if k > 0 {
        lemma_pow10_pos((k - 1) as nat);
    }
}

/// Every character of `ds` is a decimal digit.
pub open spec fn all_digits(ds: Seq<char>) -> bool {
    forall|i: int| 0 <= i < ds.len() ==> is_digit(#[trigger] ds[i])
}

/// The value of a run of decimal digits, most significant first.
pub open spec fn digits_val(ds: Seq<char>) -> int
    decreases ds.len()
{
    if ds.len() == 0 {
        0
    } else {
        digit_val(ds[0]) * pow10((ds.len() - 1) as nat) + digits_val(ds.drop_first())
    }
}

proof fn lemma_digit_char_val(d: int)
    requires
        0 <= d < 10,
    ensures
        is_digit(digit_char(d)),
        digit_val(digit_char(d)) == d,
{
}

proof fn lemma_digits_val_nonneg(ds: Seq<char>)
    requires
        all_digits(ds),
    ensures
        digits_val(ds) >= 0,
    decreases ds.len(),
{
    if ds.len() > 0 {
        lemma_digits_val_nonneg(ds.drop_first());
        lemma_pow10_pos((ds.len() - 1) as nat);
        assert(digit_val(ds[0]) * pow10((ds.len() - 1) as nat) >= 0) by (nonlinear_arith)
            requires
                digit_val(ds[0]) >= 0,
                pow10((ds.len() - 1) as nat) >= 1,
        ;
    }
}

proof fn lemma_dec_chars_digits(n: nat)
    ensures
        dec_chars(n).len() >= 1,
        all_digits(dec_chars(n)),
    decreases n,
{
    if n < 10 {
        lemma_digit_char_val(n as int);
    } else {
        lemma_dec_chars_digits(n / 10);
        lemma_digit_char_val((n % 10) as int);
        let ds = dec_chars(n);
        let hd = dec_chars(n / 10);
        assert(forall|i: int| 0 <= i < hd.len() ==> ds[i] == hd[i]);
        assert(ds[ds.len() - 1] == digit_char((n % 10) as int));
    }
}

proof fn lemma_digits_val_snoc(ds: Seq<char>, d: char)
    ensures
        digits_val(ds.push(d)) == digits_val(ds) * 10 + digit_val(d),
    decreases ds.len(),
{
    if ds.len() == 0 {
        assert(ds.push(d)[0] == d);
        assert(ds.push(d).drop_first() =~= Seq::<char>::empty());
        assert(pow10(0) == 1);
        assert(digits_val(Seq::<char>::empty()) == 0);
        assert(digits_val(ds.push(d)) == digit_val(d) * 1 + 0);
    } else {
        assert(ds.push(d).drop_first() =~= ds.drop_first().push(d));
        lemma_digits_val_snoc(ds.drop_first(), d);
        assert(ds.push(d)[0] == ds[0]);
        let h = digit_val(ds[0]);
        let k = (ds.len() - 1) as nat;
        let p = pow10(k);
        assert(pow10((ds.push(d).len() - 1) as nat) == 10 * p);
        assert(digits_val(ds.push(d)) == h * (10 * p) + digits_val(ds.drop_first().push(d)));
        assert(digits_val(ds.drop_first().push(d))
            == digits_val(ds.drop_first()) * 10 + digit_val(d));
        assert(digits_val(ds) == h * p + digits_val(ds.drop_first()));
        assert(h * (10 * p) == (h * p) * 10) by (nonlinear_arith);
        assert(digits_val(ds.push(d))
            == (h * p + digits_val(ds.drop_first())) * 10 + digit_val(d)) by (nonlinear_arith)
            requires
                digits_val(ds.push(d)) == h * (10 * p) + digits_val(ds.drop_first()) * 10
                    + digit_val(d),
        ;
    }
}

proof fn lemma_dec_chars_val(n: nat)
    ensures
        digits_val(dec_chars(n)) == n,
    decreases n,
{
    if n < 10 {
        lemma_digit_char_val(n as int);
        assert(dec_chars(n).drop_first() =~= Seq::<char>::empty());
        assert(pow10(0) == 1);
        assert(digits_val(Seq::<char>::empty()) == 0);
        assert(digits_val(dec_chars(n)) == digit_val(digit_char(n as int)) * 1 + 0);
    } else {
        lemma_dec_chars_val(n / 10);
        lemma_digit_char_val((n % 10) as int);
        assert(dec_chars(n) =~= dec_chars(n / 10).push(digit_char((n % 10) as int)));
        lemma_digits_val_snoc(dec_chars(n / 10), digit_char((n % 10) as int));
    }
}

proof fn lemma_parse_digits_of(t: Seq<char>, pos: int, ds: Seq<char>, acc: int, bound: int)
    requires
        has_at(t, pos, ds),
        all_digits(ds),
        0 <= acc,
        acc * pow10(ds.len()) + digits_val(ds) <= bound,
        pos + ds.len() == t.len() || !is_digit(t[pos + ds.len()]),
    ensures
        parse_digits(t, pos, acc, bound)
            == Some((acc * pow10(ds.len()) + digits_val(ds), pos + ds.len())),
    decreases ds.len(),
{
    lemma_pow10_pos(ds.len());
    if ds.len() == 0 {
        assert(pow10(0) == 1);
        assert(acc * 1 == acc) by (nonlinear_arith);
        if pos < t.len() {
            assert(!is_digit(t[pos]));
        }
    } else {
        assert(ds =~= seq![ds[0]] + ds.drop_first());
        lemma_has_at_concat(t, pos, seq![ds[0]], ds.drop_first());
        lemma_has_at_char(t, pos, ds[0]);
        let rest = ds.drop_first();
        let acc2 = acc * 10 + digit_val(ds[0]);
        let k = (ds.len() - 1) as nat;
        lemma_pow10_pos(k);
        lemma_digits_val_nonneg(rest);
        assert(acc2 * pow10(k) + digits_val(rest) == acc * pow10(ds.len()) + digits_val(ds))
            by (nonlinear_arith)
            requires
                acc2 == acc * 10 + digit_val(ds[0]),
                pow10(ds.len()) == 10 * pow10(k),
                digits_val(ds) == digit_val(ds[0]) * pow10(k) + digits_val(rest),
                k == ds.len() - 1,
        ;
        assert(acc2 <= acc2 * pow10(k) + digits_val(rest)) by (nonlinear_arith)
            requires
                acc2 >= 0,
                pow10(k) >= 1,
                digits_val(rest) >= 0,
        ;
        lemma_parse_digits_of(t, pos + 1, rest, acc2, bound);
    }
}

proof fn lemma_parse_int_of(t: Seq<char>, pos: int, i: int)
    requires
        has_at(t, pos, int_chars(i)),
        i64::MIN <= i <= i64::MAX,
        pos + int_chars(i).len() == t.len() || !is_digit(t[pos + int_chars(i).len()]),
    ensures
        parse_int(t, pos) == Some((i, pos + int_chars(i).len())),
{
    if i < 0 {
        let mag = (-i) as nat;
        lemma_dec_chars_digits(mag);
        lemma_dec_chars_val(mag);
        lemma_has_at_concat(t, pos, seq!['-'], dec_chars(mag));
        lemma_has_at_char(t, pos, '-');
        assert(t.subrange(pos + 1, pos + 1 + dec_chars(mag).len() as int)[0] == t[pos + 1]);
        assert(t[pos + 1] == dec_chars(mag)[0]);
        lemma_pow10_pos(dec_chars(mag).len());
        assert(0 * pow10(dec_chars(mag).len()) == 0) by (nonlinear_arith);
        lemma_parse_digits_of(t, pos + 1, dec_chars(mag), 0, 0x8000000000000000);
    } else {
        let mag = i as nat;
        lemma_dec_chars_digits(mag);
        lemma_dec_chars_val(mag);
        assert(t.subrange(pos, pos + dec_chars(mag).len() as int)[0] == t[pos]);
        assert(t[pos] == dec_chars(mag)[0]);
        assert(t[pos] != '-');
        lemma_pow10_pos(dec_chars(mag).len());
        assert(0 * pow10(dec_chars(mag).len()) == 0) by (nonlinear_arith);
        lemma_parse_digits_of(t, pos, dec_chars(mag), 0, 0x7fffffffffffffff);
    }
}

proof fn lemma_ctl_char_codepoint(v: int)
    requires
        0 <= v < 32,
    ensures
        ctl_char(v) as u32 == v,
{
}

proof fn lemma_hex_val_digit_char(d: int)
    requires
        0 <= d < 16,
    ensures
        hex_val(digit_char(d)) == d,
{
}

proof fn lemma_parse_str_body_of(t: Seq<char>, pos: int, s: Seq<char>)
    requires
        has_at(t, pos, str_body_chars(s) + seq!['"']),
    ensures
        parse_str_body(t, pos)
            == Some((s, pos + str_body_chars(s).len() + 1)),
    decreases s.len(),
{
    if s.len() == 0 {
        lemma_has_at_char(t, pos, '"');
    } else {
        let c = s[0];
        let rest = s.drop_first();
        let tail_region = str_body_chars(rest) + seq!['"'];
        assert(str_body_chars(s) + seq!['"'] =~= esc_char(c) + tail_region);
        lemma_has_at_concat(t, pos, esc_char(c), tail_region);
        let m = esc_char(c).len() as int;
        if c == '"' {
            assert(esc_char(c) =~= seq!['\\', '"']);
            assert(seq!['\\'] + seq!['"'] =~= esc_char(c));
            lemma_has_at_concat(t, pos, seq!['\\'], seq!['"']);
            lemma_has_at_char(t, pos, '\\');
            lemma_has_at_char(t, pos + 1, '"');
            lemma_parse_str_body_of(t, pos + 2, rest);
            assert(seq![t[pos + 1]] + rest =~= s);
        } else if c == '\\' {
            assert(esc_char(c) =~= seq!['\\', '\\']);
            assert(seq!['\\'] + seq!['\\'] =~= esc_char(c));
            lemma_has_at_concat(t, pos, seq!['\\'], seq!['\\']);
            lemma_has_at_char(t, pos, '\\');
            lemma_has_at_char(t, pos + 1, '\\');
            lemma_parse_str_body_of(t, pos + 2, rest);
            assert(seq![t[pos + 1]] + rest =~= s);
        } else if (c as u32) < 32 {
            let cu = c as u32 as int;
            let h1 = digit_char(cu / 16);
            let h2 = digit_char(cu % 16);
            assert(esc_char(c) =~= seq!['\\', 'u', '0', '0', h1, h2]);
            assert(t.subrange(pos, pos + m)[0] == t[pos]);
            assert(t.subrange(pos, pos + m)[1] == t[pos + 1]);
            assert(t.subrange(pos, pos + m)[2] == t[pos + 2]);
            assert(t.subrange(pos, pos + m)[3] == t[pos + 3]);
            assert(t.subrange(pos, pos + m)[4] == t[pos + 4]);
            assert(t.subrange(pos, pos + m)[5] == t[pos + 5]);
            assert(t[pos] == '\\' && t[pos + 1] == 'u' && t[pos + 2] == '0'
                && t[pos + 3] == '0' && t[pos + 4] == h1 && t[pos + 5] == h2);
            vstd::arithmetic::div_mod::lemma_fundamental_div_mod(cu, 16);
            lemma_hex_val_digit_char(cu / 16);
            lemma_hex_val_digit_char(cu % 16);
            assert(16 * hex_val(t[pos + 4]) + hex_val(t[pos + 5]) == cu);
            lemma_ctl_char_codepoint(cu);
            vstd::utf8::char_u32_cast(c, c as u32);
            vstd::utf8::char_u32_cast(ctl_char(cu), ctl_char(cu) as u32);
            assert(ctl_char(cu) == c);
            lemma_parse_str_body_of(t, pos + 6, rest);
            assert(seq![ctl_char(cu)] + rest =~= s);
        } else {
            assert(esc_char(c) =~= seq![c]);
            lemma_has_at_char(t, pos, c);
            lemma_parse_str_body_of(t, pos + 1, rest);
            assert(seq![t[pos]] + rest =~= s);
        }
    }
}

/// A canonical quoted string parses back to the string it encodes.
pub proof fn lemma_parse_string_of(t: Seq<char>, pos: int, s: Seq<char>)
    requires
        has_at(t, pos, str_chars(s)),
    ensures
        parse_string(t, pos) == Some((s, pos + str_chars(s).len())),
{
    assert(str_chars(s) =~= seq!['"'] + (str_body_chars(s) + seq!['"']));
    lemma_has_at_concat(t, pos, seq!['"'], str_body_chars(s) + seq!['"']);
    lemma_has_at_char(t, pos, '"');
    lemma_parse_str_body_of(t, pos + 1, s);
}

/// The canonical text of a scalar is at least one character.
pub proof fn lemma_scalar_chars_nonempty(v: SpecScalar)
    ensures
        scalar_chars(v).len() >= 1,
{
    reveal_strlit("null");
    reveal_strlit("true");
    reveal_strlit("false");
    match v {
        SpecScalar::Int(i) => {
            if i < 0 {
                lemma_dec_chars_digits((-i) as nat);
            } else {
                lemma_dec_chars_digits(i as nat);
            }
        },
        _ => {},
    }
}

/// The first character of a scalar's canonical text, used to steer the
/// parser, is never a bracket, brace, comma, colon or closing quote
/// context character.
proof fn lemma_scalar_first_char(v: SpecScalar)
    ensures
        scalar_chars(v).len() >= 1,
        scalar_chars(v)[0] == 'n' || scalar_chars(v)[0] == 't' || scalar_chars(v)[0] == 'f'
            || scalar_chars(v)[0] == '"' || scalar_chars(v)[0] == '-'
            || is_digit(scalar_chars(v)[0]),
{
    reveal_strlit("null");
    reveal_strlit("true");
    reveal_strlit("false");
    match v {
        SpecScalar::Int(i) => {
            if i < 0 {
                lemma_dec_chars_digits((-i) as nat);
                assert(scalar_chars(v)[0] == '-');
            } else {
                lemma_dec_chars_digits(i as nat);
                let ds = dec_chars(i as nat);
                assert(is_digit(ds[0]));
            }
        },
        _ => {},
    }
}

/// A canonical scalar parses back to itself when nothing that could
/// extend an integer follows it.
pub proof fn lemma_parse_scalar_of(t: Seq<char>, pos: int, v: SpecScalar)
    requires
        has_at(t, pos, scalar_chars(v)),
        scalar_wf(v),
        pos + scalar_chars(v).len() == t.len() || !is_digit(t[pos + scalar_chars(v).len()]),
    ensures
        parse_scalar(t, pos) == Some((v, pos + scalar_chars(v).len())),
{
    reveal_strlit("null");
    reveal_strlit("true");
    reveal_strlit("false");
    lemma_scalar_first_char(v);
    let m = scalar_chars(v).len() as int;
    assert(t.subrange(pos, pos + m)[0] == t[pos]);
    match v {
        SpecScalar::Null => {
            assert(t[pos] == 'n');
        },
        SpecScalar::Bool(b) => {
            assert(t[pos] == 't' || t[pos] == 'f');
        },
        SpecScalar::Int(i) => {
            lemma_parse_int_of(t, pos, i);
            assert(t[pos] != 'n' && t[pos] != 't' && t[pos] != 'f' && t[pos] != '"');
        },
        SpecScalar::Str(s) => {
            assert(t[pos] == '"');
            lemma_parse_string_of(t, pos, s);
        },
    }
}

} // verus!

verus! {

proof fn lemma_parse_arr_tail_of(t: Seq<char>, pos: int, vs: Seq<SpecScalar>)
    requires
        has_at(t, pos, arr_tail_chars(vs) + seq![']']),
        forall|i: int| 0 <= i < vs.len() ==> scalar_wf(#[trigger] vs[i]),
    ensures
        parse_arr_tail(t, pos) == Some((vs, pos + arr_tail_chars(vs).len() + 1)),
    decreases vs.len(),
{
    if vs.len() == 0 {
        assert(arr_tail_chars(vs) + seq![']'] =~= seq![']']);
        lemma_has_at_char(t, pos, ']');
    } else {
        let v0 = vs[0];
        let rest = vs.drop_first();
        let tail_region = arr_tail_chars(rest) + seq![']'];
        assert(arr_tail_chars(vs) + seq![']']
            =~= seq![','] + (scalar_chars(v0) + tail_region));
        lemma_has_at_concat(t, pos, seq![','], scalar_chars(v0) + tail_region);
        lemma_has_at_char(t, pos, ',');
        lemma_has_at_concat(t, pos + 1, scalar_chars(v0), tail_region);
        let after = pos + 1 + scalar_chars(v0).len();
        assert(t.subrange(after, after + tail_region.len() as int)[0] == t[after]);
        if rest.len() == 0 {
            assert(tail_region[0] == ']');
        } else {
            assert(tail_region[0] == arr_tail_chars(rest)[0]);
            assert(arr_tail_chars(rest)[0] == ',');
        }
        assert(!is_digit(t[after]));
        lemma_parse_scalar_of(t, pos + 1, v0);
        lemma_scalar_chars_nonempty(v0);
        assert forall|i: int| 0 <= i < rest.len() implies scalar_wf(#[trigger] rest[i]) by {
            assert(rest[i] == vs[i + 1]);
        }
        lemma_parse_arr_tail_of(t, after, rest);
        assert(seq![v0] + rest =~= vs);
    }
}

/// A canonical array of scalars parses back to itself.
pub proof fn lemma_parse_arr_of(t: Seq<char>, pos: int, vs: Seq<SpecScalar>)
    requires
        has_at(t, pos, seq!['['] + arr_body_chars(vs) + seq![']']),
        forall|i: int| 0 <= i < vs.len() ==> scalar_wf(#[trigger] vs[i]),
    ensures
        parse_arr(t, pos) == Some((vs, pos + arr_body_chars(vs).len() + 2)),
{
    let region = seq!['['] + arr_body_chars(vs) + seq![']'];
    assert(region =~= seq!['['] + (arr_body_chars(vs) + seq![']']));
    lemma_has_at_concat(t, pos, seq!['['], arr_body_chars(vs) + seq![']']);
    lemma_has_at_char(t, pos, '[');
    if vs.len() == 0 {
        assert(arr_body_chars(vs) + seq![']'] =~= seq![']']);
        lemma_has_at_char(t, pos + 1, ']');
    } else {
        let v0 = vs[0];
        let rest = vs.drop_first();
        let tail_region = arr_tail_chars(rest) + seq![']'];
        assert(arr_body_chars(vs) + seq![']'] =~= scalar_chars(v0) + tail_region);
        lemma_has_at_concat(t, pos + 1, scalar_chars(v0), tail_region);
        let after = pos + 1 + scalar_chars(v0).len();
        assert(t.subrange(after, after + tail_region.len() as int)[0] == t[after]);
        if rest.len() == 0 {
            assert(tail_region[0] == ']');
        } else {
            assert(tail_region[0] == arr_tail_chars(rest)[0]);
            assert(arr_tail_chars(rest)[0] == ',');
        }
        assert(!is_digit(t[after]));
        lemma_scalar_first_char(v0);
        assert(t.subrange(pos + 1, pos + 1 + scalar_chars(v0).len() as int)[0] == t[pos + 1]);
        assert(t[pos + 1] == scalar_chars(v0)[0]);
        assert(t[pos + 1] != ']');
        lemma_parse_scalar_of(t, pos + 1, v0);
        lemma_scalar_chars_nonempty(v0);
        assert forall|i: int| 0 <= i < rest.len() implies scalar_wf(#[trigger] rest[i]) by {
            assert(rest[i] == vs[i + 1]);
        }
        lemma_parse_arr_tail_of(t, after, rest);
        assert(seq![v0] + rest =~= vs);
    }
}

proof fn lemma_parse_member_of(t: Seq<char>, pos: int, k: Seq<char>, v: SpecScalar)
    requires
        has_at(t, pos, member_chars(k, v)),
        scalar_wf(v),
        pos + member_chars(k, v).len() == t.len()
            || !is_digit(t[pos + member_chars(k, v).len()]),
    ensures
        parse_member(t, pos) == Some(((k, v), pos + member_chars(k, v).len())),
{
    assert(member_chars(k, v) =~= str_chars(k) + (seq![':'] + scalar_chars(v)));
    lemma_has_at_concat(t, pos, str_chars(k), seq![':'] + scalar_chars(v));
    lemma_parse_string_of(t, pos, k);
    let mid = pos + str_chars(k).len();
    lemma_has_at_concat(t, mid, seq![':'], scalar_chars(v));
    lemma_has_at_char(t, mid, ':');
    lemma_parse_scalar_of(t, mid + 1, v);
}

proof fn lemma_parse_obj_tail_of(t: Seq<char>, pos: int, ms: Seq<(Seq<char>, SpecScalar)>)
    requires
        has_at(t, pos, obj_tail_chars(ms) + seq!['}']),
        forall|i: int| 0 <= i < ms.len() ==> scalar_wf(#[trigger] ms[i].1),
    ensures
        parse_obj_tail(t, pos) == Some((ms, pos + obj_tail_chars(ms).len() + 1)),
    decreases ms.len(),
{
    if ms.len() == 0 {
        assert(obj_tail_chars(ms) + seq!['}'] =~= seq!['}']);
        lemma_has_at_char(t, pos, '}');
    } else {
        let m0 = ms[0];
        let rest = ms.drop_first();
        let mc = member_chars(m0.0, m0.1);
        let tail_region = obj_tail_chars(rest) + seq!['}'];
        assert(obj_tail_chars(ms) + seq!['}'] =~= seq![','] + (mc + tail_region));
        lemma_has_at_concat(t, pos, seq![','], mc + tail_region);
        lemma_has_at_char(t, pos, ',');
        lemma_has_at_concat(t, pos + 1, mc, tail_region);
        let after = pos + 1 + mc.len();
        assert(t.subrange(after, after + tail_region.len() as int)[0] == t[after]);
        if rest.len() == 0 {
            assert(tail_region[0] == '}');
        } else {
            assert(tail_region[0] == obj_tail_chars(rest)[0]);
            assert(obj_tail_chars(rest)[0] == ',');
        }
        assert(!is_digit(t[after]));
        lemma_parse_member_of(t, pos + 1, m0.0, m0.1);
        assert(mc.len() >= 1) by {
            lemma_scalar_chars_nonempty(m0.1);
        }
        assert forall|i: int| 0 <= i < rest.len() implies scalar_wf(#[trigger] rest[i].1) by {
            assert(rest[i] == ms[i + 1]);
        }
        lemma_parse_obj_tail_of(t, after, rest);
        assert(seq![m0] + rest =~= ms);
    }
}

/// A canonical flat object parses back to itself.
pub proof fn lemma_parse_obj_of(t: Seq<char>, pos: int, ms: Seq<(Seq<char>, SpecScalar)>)
    requires
        has_at(t, pos, seq!['{'] + obj_body_chars(ms) + seq!['}']),
        forall|i: int| 0 <= i < ms.len() ==> scalar_wf(#[trigger] ms[i].1),
    ensures
        parse_obj(t, pos) == Some((ms, pos + obj_body_chars(ms).len() + 2)),
{
    let region = seq!['{'] + obj_body_chars(ms) + seq!['}'];
    assert(region =~= seq!['{'] + (obj_body_chars(ms) + seq!['}']));
    lemma_has_at_concat(t, pos, seq!['{'], obj_body_chars(ms) + seq!['}']);
    lemma_has_at_char(t, pos, '{');
    if ms.len() == 0 {
        assert(obj_body_chars(ms) + seq!['}'] =~= seq!['}']);
        lemma_has_at_char(t, pos + 1, '}');
    } else {
        let m0 = ms[0];
        let rest = ms.drop_first();
        let mc = member_chars(m0.0, m0.1);
        let tail_region = obj_tail_chars(rest) + seq!['}'];
        assert(obj_body_chars(ms) + seq!['}'] =~= mc + tail_region);
        lemma_has_at_concat(t, pos + 1, mc, tail_region);
        let after = pos + 1 + mc.len();
        assert(t.subrange(after, after + tail_region.len() as int)[0] == t[after]);
        if rest.len() == 0 {
            assert(tail_region[0] == '}');
        } else {
            assert(tail_region[0] == obj_tail_chars(rest)[0]);
            assert(obj_tail_chars(rest)[0] == ',');
        }
        assert(!is_digit(t[after]));
        lemma_parse_member_of(t, pos + 1, m0.0, m0.1);
        assert(t.subrange(pos + 1, pos + 1 + mc.len() as int)[0] == t[pos + 1]);
        assert(mc[0] == '"');
        assert(t[pos + 1] == '"');
        assert(mc.len() >= 1);
        lemma_parse_obj_tail_of(t, after, rest);
        assert(seq![m0] + rest =~= ms);
    }
}

/// The canonical text of any representable payload value parses back to
/// exactly that value: the codec's round trip.
pub proof fn lemma_parse_value_of(t: Seq<char>, pos: int, v: SpecJson)
    requires
        has_at(t, pos, value_chars(v)),
        json_wf(v),
        pos + value_chars(v).len() == t.len() || !is_digit(t[pos + value_chars(v).len()]),
    ensures
        parse_value(t, pos) == Some((v, pos + value_chars(v).len())),
{
    match v {
        SpecJson::Arr(vs) => {
            assert(t.subrange(pos, pos + value_chars(v).len() as int)[0] == t[pos]);
            assert(t[pos] == '[');
            lemma_parse_arr_of(t, pos, vs);
        },
        SpecJson::Obj(ms) => {
            assert(t.subrange(pos, pos + value_chars(v).len() as int)[0] == t[pos]);
            assert(t[pos] == '{');
            lemma_parse_obj_of(t, pos, ms);
        },
        SpecJson::Atom(s) => {
            lemma_scalar_first_char(s);
            assert(t.subrange(pos, pos + value_chars(v).len() as int)[0] == t[pos]);
            assert(t[pos] == scalar_chars(s)[0]);
            assert(t[pos] != '[' && t[pos] != '{');
            lemma_parse_scalar_of(t, pos, s);
        },
    }
}

} // verus!
