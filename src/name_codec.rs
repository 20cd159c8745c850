use vstd::prelude::*;
use crate::glyph::{AtlasError, GlyphMetrics};

verus! {

pub open spec fn is_digit(c: char) -> bool {
    '0' <= c && c <= '9'
}

pub open spec fn digit_value(c: char) -> int {
    c as int - '0' as int
}

pub open spec fn all_digits(s: Seq<char>) -> bool {
    forall|i: int| 0 <= i < s.len() ==> is_digit(#[trigger] s[i])
}

/// The number a run of decimal digits denotes.
pub open spec fn digits_value(s: Seq<char>) -> int
    decreases s.len(),
{
    if s.len() == 0 {
        0
    } else {
        digits_value(s.drop_last()) * 10 + digit_value(s.last())
    }
}

pub open spec fn unsigned_token(s: Seq<char>) -> Option<int> {
    if s.len() > 0 && all_digits(s) {
        Some(digits_value(s))
    } else {
        None
    }
}

/// The integer a token denotes under Rust's decimal integer syntax: an
/// optional `+` (or, for a signed field, `-`) and at least one digit.
pub open spec fn token_value(s: Seq<char>, signed: bool) -> Option<int> {
    if s.len() > 0 && s[0] == '+' {
        unsigned_token(s.drop_first())
    } else if signed && s.len() > 0 && s[0] == '-' {
        match unsigned_token(s.drop_first()) {
            Some(v) => Some(-v),
            None => None,
        }
    } else {
        unsigned_token(s)
    }
}

pub open spec fn in_field_range(v: int, signed: bool) -> bool {
    if signed {
        -0x8000 <= v && v <= 0x7fff
    } else {
        0 <= v && v <= 0xffff
    }
}

/// Index of the first `_` in `s`, or its length when it has none.
pub open spec fn sep_index(s: Seq<char>) -> int
    decreases s.len(),
{
    if s.len() == 0 {
        0
    } else if s[0] == '_' {
        0
    } else {
        1 + sep_index(s.drop_first())
    }
}

/// Text after the first `_`, if there is one.
pub open spec fn after_sep(s: Seq<char>) -> Option<Seq<char>> {
    if sep_index(s) < s.len() {
        Some(s.skip(sep_index(s) + 1))
    } else {
        None
    }
}

/// The `k`-th piece of `s` split on `_`, if it has that many.
pub open spec fn nth_token(s: Seq<char>, k: nat) -> Option<Seq<char>>
    decreases k,
{
    if k == 0 {
        Some(s.take(sep_index(s)))
    } else {
        match after_sep(s) {
            Some(r) => nth_token(r, (k - 1) as nat),
            None => None,
        }
    }
}

/// Whether the `k`-th field of a name is signed: the two bearings are.
pub open spec fn field_signed(k: nat) -> bool {
    k == 1 || k == 2
}

/// Value of the `k`-th field of a name, if present and in its range.
pub open spec fn field_value(s: Seq<char>, k: nat) -> Option<int> {
    match nth_token(s, k) {
        Some(t) => match token_value(t, field_signed(k)) {
            Some(v) => if in_field_range(v, field_signed(k)) {
                Some(v)
            } else {
                None
            },
            None => None,
        },
        None => None,
    }
}

/// What a file-name stem decodes to: six `_`-separated decimal fields in the
/// order char code, x bearing, y bearing, advance, reserved, reserved. Text
/// after a sixth `_` is ignored.
pub open spec fn decoded(s: Seq<char>) -> Option<GlyphMetrics> {
    if field_value(s, 0) is Some && field_value(s, 1) is Some && field_value(s, 2) is Some
        && field_value(s, 3) is Some && field_value(s, 4) is Some && field_value(s, 5) is Some {
        Some(
            GlyphMetrics {
                char_code: field_value(s, 0)->0 as u16,
                x_bearing: field_value(s, 1)->0 as i16,
                y_bearing: field_value(s, 2)->0 as i16,
                advance: field_value(s, 3)->0 as u16,
                reserved4: field_value(s, 4)->0 as u16,
                reserved5: field_value(s, 5)->0 as u16,
            },
        )
    } else {
        None
    }
}

pub open spec fn digit_char(d: int) -> char {
    if d == 0 { '0' } else if d == 1 { '1' } else if d == 2 { '2' } else if d == 3 { '3' }
    else if d == 4 { '4' } else if d == 5 { '5' } else if d == 6 { '6' } else if d == 7 { '7' }
    else if d == 8 { '8' } else { '9' }
}

/// Decimal digits of `n`, most significant first, without leading zeros.
pub open spec fn decimal(n: nat) -> Seq<char>
    decreases n,
{
    if n < 10 {
        seq![digit_char(n as int)]
    } else {
        decimal(n / 10).push(digit_char((n % 10) as int))
    }
}

pub open spec fn signed_decimal(v: int) -> Seq<char> {
    if v < 0 {
        seq!['-'] + decimal((-v) as nat)
    } else {
        decimal(v as nat)
    }
}

/// `t`, a `_`, then `rest`.
pub open spec fn joined(t: Seq<char>, rest: Seq<char>) -> Seq<char> {
    t + seq!['_'] + rest
}

/// The canonical file-name stem of a glyph's metadata.
pub open spec fn encoded(m: GlyphMetrics) -> Seq<char> {
    joined(
        decimal(m.char_code as nat),
        joined(
            signed_decimal(m.x_bearing as int),
            joined(
                signed_decimal(m.y_bearing as int),
                joined(
                    decimal(m.advance as nat),
                    joined(decimal(m.reserved4 as nat), decimal(m.reserved5 as nat)),
                ),
            ),
        ),
    )
}

proof fn lemma_digit_char(d: int)
    requires
        0 <= d < 10,
    ensures
        is_digit(digit_char(d)),
        digit_value(digit_char(d)) == d,
{
}

proof fn lemma_decimal(n: nat)
    ensures
        decimal(n).len() > 0,
        all_digits(decimal(n)),
        digits_value(decimal(n)) == n,
    decreases n,
{
    if n < 10 {
        lemma_digit_char(n as int);
        assert(decimal(n).drop_last() =~= Seq::<char>::empty());
        assert(digits_value(Seq::<char>::empty()) == 0);
    } else {
        lemma_decimal(n / 10);
        lemma_digit_char((n % 10) as int);
        let d = decimal(n);
        assert(d.drop_last() =~= decimal(n / 10));
        assert(d.last() == digit_char((n % 10) as int));
        assert(digits_value(d) == digits_value(decimal(n / 10)) * 10 + digit_value(d.last()));
        assert(n == (n / 10) * 10 + n % 10);
        assert forall|i: int| 0 <= i < d.len() implies is_digit(#[trigger] d[i]) by {
            if i < d.len() - 1 {
                assert(d[i] == decimal(n / 10)[i]);
            }
        }
    }
}

proof fn lemma_no_sep(t: Seq<char>, r: Seq<char>)
    requires
        all_digits(t),
    ensures
        sep_index(t + r) == t.len() + sep_index(r),
    decreases t.len(),
{
    if t.len() > 0 {
        assert((t + r).drop_first() =~= t.drop_first() + r);
        assert(all_digits(t.drop_first())) by {
            assert forall|i: int| 0 <= i < t.len() - 1 implies is_digit(#[trigger] t.drop_first()[i]) by {
                assert(is_digit(t[i + 1]));
            }
        }
        assert(is_digit(t[0]));
        assert((t + r)[0] == t[0]);
        lemma_no_sep(t.drop_first(), r);
    } else {
        assert(t + r =~= r);
    }
}

proof fn lemma_signed_decimal(v: int, signed: bool)
    requires
        signed || v >= 0,
    ensures
        token_value(signed_decimal(v), signed) == Some(v),
        sep_index(signed_decimal(v)) == signed_decimal(v).len(),
        forall|r: Seq<char>| sep_index(#[trigger] (signed_decimal(v) + r)) == signed_decimal(v).len() + sep_index(r),
{
    let s = signed_decimal(v);
    if v < 0 {
        lemma_decimal((-v) as nat);
        let d = decimal((-v) as nat);
        assert(s.drop_first() =~= d);
        assert(is_digit(d[0]));
        assert(unsigned_token(d) == Some(-v));
        assert(sep_index(d) == d.len()) by {
            lemma_no_sep(d, seq![]);
            assert(d + seq![] =~= d);
        }
        assert forall|r: Seq<char>| sep_index(#[trigger] (s + r)) == s.len() + sep_index(r) by {
            lemma_no_sep(d, r);
            assert((s + r).drop_first() =~= d + r);
        }
        assert(s + seq![] =~= s);
    } else {
        lemma_decimal(v as nat);
        assert(is_digit(s[0]));
        lemma_no_sep(s, seq![]);
        assert(s + seq![] =~= s);
        assert forall|r: Seq<char>| sep_index(#[trigger] (s + r)) == s.len() + sep_index(r) by {
            lemma_no_sep(s, r);
        }
    }
}

proof fn lemma_joined(t: Seq<char>, rest: Seq<char>, k: nat)
    requires
        sep_index(t + seq!['_'] + rest) == t.len(),
    ensures
        nth_token(joined(t, rest), 0) == Some(t),
        nth_token(joined(t, rest), k + 1) == nth_token(rest, k),
{
    let s = joined(t, rest);
    assert(s.take(t.len() as int) =~= t);
    assert(s.skip(t.len() as int + 1) =~= rest);
    assert(s[t.len() as int] == '_');
}

proof fn lemma_field(t: Seq<char>, rest: Seq<char>, v: int, signed: bool)
    requires
        t == signed_decimal(v),
        signed || v >= 0,
    ensures
        nth_token(joined(t, rest), 0) == Some(t),
        forall|k: nat| nth_token(#[trigger] joined(t, rest), k + 1) == nth_token(rest, k),
        token_value(t, signed) == Some(v),
{
    lemma_signed_decimal(v, signed);
    let r2 = seq!['_'] + rest;
    assert(t + seq!['_'] + rest =~= t + r2);
    assert(sep_index(t + r2) == t.len() + sep_index(r2));
    assert forall|k: nat| nth_token(#[trigger] joined(t, rest), k + 1) == nth_token(rest, k) by {
        lemma_joined(t, rest, k);
    }
    lemma_joined(t, rest, 0);
}

/// Decoding the canonical stem of any metadata gives that metadata back.
pub proof fn lemma_name_round_trip(m: GlyphMetrics)
    ensures
        decoded(encoded(m)) == Some(m),
{
    let t0 = decimal(m.char_code as nat);
    let t1 = signed_decimal(m.x_bearing as int);
    let t2 = signed_decimal(m.y_bearing as int);
    let t3 = decimal(m.advance as nat);
    let t4 = decimal(m.reserved4 as nat);
    let t5 = decimal(m.reserved5 as nat);
    let r4 = joined(t4, t5);
    let r3 = joined(t3, r4);
    let r2 = joined(t2, r3);
    let r1 = joined(t1, r2);
    let s = joined(t0, r1);
    assert(t0 == signed_decimal(m.char_code as int));
    assert(t3 == signed_decimal(m.advance as int));
    assert(t4 == signed_decimal(m.reserved4 as int));
    assert(t5 == signed_decimal(m.reserved5 as int));
    lemma_field(t0, r1, m.char_code as int, false);
    lemma_field(t1, r2, m.x_bearing as int, true);
    lemma_field(t2, r3, m.y_bearing as int, true);
    lemma_field(t3, r4, m.advance as int, false);
    lemma_field(t4, t5, m.reserved4 as int, false);
    lemma_signed_decimal(m.reserved5 as int, false);
    assert(t5.take(sep_index(t5)) =~= t5);
    assert(nth_token(t5, 0) == Some(t5));
    assert(nth_token(s, 1) == nth_token(r1, 0));
    assert(nth_token(s, 2) == nth_token(r1, 1));
    assert(nth_token(r1, 1) == nth_token(r2, 0));
    assert(nth_token(s, 3) == nth_token(r1, 2));
    assert(nth_token(r1, 2) == nth_token(r2, 1));
    assert(nth_token(r2, 1) == nth_token(r3, 0));
    assert(nth_token(s, 4) == nth_token(r1, 3));
    assert(nth_token(r1, 3) == nth_token(r2, 2));
    assert(nth_token(r2, 2) == nth_token(r3, 1));
    assert(nth_token(r3, 1) == nth_token(r4, 0));
    assert(nth_token(s, 5) == nth_token(r1, 4));
    assert(nth_token(r1, 4) == nth_token(r2, 3));
    assert(nth_token(r2, 3) == nth_token(r3, 2));
    assert(nth_token(r3, 2) == nth_token(r4, 1));
    assert(nth_token(r4, 1) == nth_token(t5, 0));
    assert(field_value(s, 0) == Some(m.char_code as int));
    assert(field_value(s, 1) == Some(m.x_bearing as int));
    assert(field_value(s, 2) == Some(m.y_bearing as int));
    assert(field_value(s, 3) == Some(m.advance as int));
    assert(field_value(s, 4) == Some(m.reserved4 as int));
    assert(field_value(s, 5) == Some(m.reserved5 as int));
}

/// Relies on `str::chars`: the characters of a string slice, in order.
#[verifier::external_body]
fn chars_of(s: &str) -> (r: Vec<char>)
    ensures
        r@ == s@,
{
    s.chars().collect()
}

/// Parses the characters `c[start..end]` as one field of a name.
fn parse_token(c: &Vec<char>, start: usize, end: usize, signed: bool) -> (r: Option<i32>)
    requires
        start <= end <= c@.len(),
    ensures
        r is Some <==> (token_value(c@.subrange(start as int, end as int), signed) is Some
            && in_field_range(token_value(c@.subrange(start as int, end as int), signed)->0, signed)),
        r is Some ==> r->0 as int == token_value(c@.subrange(start as int, end as int), signed)->0,
{
    let ghost s = c@.subrange(start as int, end as int);
    let mut i: usize = start;
    let mut neg = false;
    if i < end && c[i] == '+' {
        i = i + 1;
        assert(s.drop_first() =~= c@.subrange(i as int, end as int));
    } else if signed && i < end && c[i] == '-' {
        neg = true;
        i = i + 1;
        assert(s.drop_first() =~= c@.subrange(i as int, end as int));
    } else {
        assert(s =~= c@.subrange(i as int, end as int));
    }
    let body = i;
    let ghost body_seq = c@.subrange(body as int, end as int);
    assert(token_value(s, signed) == match unsigned_token(body_seq) {
        Some(v) => if neg { Some(-v) } else { Some(v) },
        None => None::<int>,
    });
    if body == end {
        return None;
    }
    let mut acc: u32 = 0;
    let mut big = false;
    while i < end
        invariant
            body <= i <= end <= c@.len(),
            body_seq == c@.subrange(body as int, end as int),
            s == c@.subrange(start as int, end as int),
            body_seq.len() > 0,
            token_value(s, signed) == match unsigned_token(body_seq) {
                Some(v) => if neg { Some(-v) } else { Some(v) },
                None => None::<int>,
            },
            all_digits(c@.subrange(body as int, i as int)),
            big ==> digits_value(c@.subrange(body as int, i as int)) > 0x10000,
            !big ==> acc as int == digits_value(c@.subrange(body as int, i as int)) && acc
                <= 0x10000,
        decreases end - i,
    {
        let ch = c[i];
        if !('0' <= ch && ch <= '9') {
            assert(!is_digit(body_seq[i - body]));
            assert(!all_digits(body_seq));
            return None;
        }
        let ghost prev = c@.subrange(body as int, i as int);
        let ghost next = c@.subrange(body as int, i + 1);
        assert(next.drop_last() =~= prev);
        assert(next.last() == ch);
        let d = (ch as u32) - ('0' as u32);
        if !big {
            let nv = acc * 10 + d;
            if nv > 0x10000 {
                big = true;
            } else {
                acc = nv;
            }
        } else {
            assert(digits_value(next) >= digits_value(prev)) by (nonlinear_arith)
                requires
                    digits_value(next) == digits_value(prev) * 10 + digit_value(ch),
                    digits_value(prev) > 0x10000,
                    0 <= digit_value(ch),
            ;
        }
        i = i + 1;
        assert forall|j: int| 0 <= j < next.len() implies is_digit(#[trigger] next[j]) by {
            if j < prev.len() {
                assert(next[j] == prev[j]);
            }
        }
    }
    assert(c@.subrange(body as int, i as int) =~= body_seq);
    if big {
        return None;
    }
    let v: i32 = if neg { -(acc as i32) } else { acc as i32 };
    if signed {
        if v < -0x8000 || v > 0x7fff {
            return None;
        }
    } else {
        if v < 0 || v > 0xffff {
            return None;
        }
    }
    Some(v)
}

/// Reads the field that starts at `p`: its value, and where the next field
/// starts if a `_` follows.
fn read_field(c: &Vec<char>, p: usize, signed: bool) -> (r: (Option<i32>, Option<usize>))
    requires
        p <= c@.len(),
    ensures
        ({
            let rest = c@.subrange(p as int, c@.len() as int);
            let t = token_value(rest.take(sep_index(rest)), signed);
            &&& r.0 is Some <==> (t is Some && in_field_range(t->0, signed))
            &&& r.0 is Some ==> r.0->0 as int == t->0
            &&& r.1 is Some <==> after_sep(rest) is Some
            &&& r.1 is Some ==> r.1->0 <= c@.len() && c@.subrange(r.1->0 as int, c@.len() as int)
                == after_sep(rest)->0
        }),
{
    let ghost rest = c@.subrange(p as int, c@.len() as int);
    let mut e: usize = p;
    loop
        invariant
            p <= e <= c@.len(),
            rest == c@.subrange(p as int, c@.len() as int),
            sep_index(rest) == (e - p) + sep_index(c@.subrange(e as int, c@.len() as int)),
        ensures
            p <= e <= c@.len(),
            sep_index(rest) == (e - p) + sep_index(c@.subrange(e as int, c@.len() as int)),
            e == c@.len() || c@[e as int] == '_',
        decreases c@.len() - e,
    {
        if e >= c.len() || c[e] == '_' {
            break;
        }
        assert(c@.subrange(e as int, c@.len() as int).drop_first() =~= c@.subrange(
            e + 1,
            c@.len() as int,
        ));
        e = e + 1;
    }
    if e < c.len() {
        assert(c@.subrange(e as int, c@.len() as int)[0] == '_');
    } else {
        assert(c@.subrange(e as int, c@.len() as int).len() == 0);
    }
    assert(sep_index(rest) == e - p);
    assert(rest.take(sep_index(rest)) =~= c@.subrange(p as int, e as int));
    let v = parse_token(c, p, e, signed);
    if e < c.len() {
        assert(rest.skip(sep_index(rest) + 1) =~= c@.subrange(e + 1, c@.len() as int));
        (v, Some(e + 1))
    } else {
        (v, None)
    }
}

/// Reads glyph metadata from a file-name stem of the form
/// `char_xbearing_ybearing_advance_reserved4_reserved5`: six `_`-separated
/// decimal fields.
pub fn decode_name(stem: &str) -> (r: Result<GlyphMetrics, AtlasError>)
    ensures
        match decoded(stem@) {
            Some(m) => r == Ok::<GlyphMetrics, AtlasError>(m),
            None => r == Err::<GlyphMetrics, AtlasError>(AtlasError::MalformedName),
        },
{
    let c = chars_of(stem);
    let ghost s = c@;
    let mut vals: Vec<i32> = Vec::new();
    let mut p: usize = 0;
    let mut k: usize = 0;
    assert(c@.subrange(0, c@.len() as int) =~= s);
    while k < 6
        invariant
            s == stem@,
            s == c@,
            k <= 6,
            vals@.len() == k,
            p <= c@.len(),
            forall|i: int| 0 <= i < k ==> field_value(s, i as nat) == Some(#[trigger] vals@[i] as int),
            k < 6 ==> forall|j: nat| #[trigger] nth_token(s, (k + j) as nat) == nth_token(c@.subrange(p as int, c@.len() as int), j),
        decreases 6 - k,
    {
        let ghost rest = c@.subrange(p as int, c@.len() as int);
        let signed = k == 1 || k == 2;
        let (v, next) = read_field(&c, p, signed);
        assert(nth_token(s, (k + 0) as nat) == nth_token(rest, 0));
        assert(field_signed(k as nat) == signed);
        match v {
            None => {
                assert(field_value(s, k as nat) is None);
                return Err(AtlasError::MalformedName);
            },
            Some(x) => {
                vals.push(x);
            },
        }
        if k < 5 {
            match next {
                None => {
                    assert(nth_token(s, (k + 1) as nat) == nth_token(rest, 1));
                    assert(field_value(s, (k + 1) as nat) is None);
                    return Err(AtlasError::MalformedName);
                },
                Some(q) => {
                    let ghost r2 = c@.subrange(q as int, c@.len() as int);
                    assert forall|j: nat| #[trigger] nth_token(s, (k + 1 + j) as nat) == nth_token(r2, j) by {
                        assert(nth_token(s, (k + (j + 1)) as nat) == nth_token(rest, (j + 1) as nat));
                    }
                    p = q;
                },
            }
        }
        k = k + 1;
    }
    Ok(
        GlyphMetrics {
            char_code: vals[0] as u16,
            x_bearing: vals[1] as i16,
            y_bearing: vals[2] as i16,
            advance: vals[3] as u16,
            reserved4: vals[4] as u16,
            reserved5: vals[5] as u16,
        },
    )
}

/// Relies on `FromIterator<char>` for `String`: the string of the given
/// characters, in order.
#[verifier::external_body]
fn string_of(c: &Vec<char>) -> (r: String)
    ensures
        r@ == c@,
{
    c.iter().collect()
}

fn digit_to_char(d: u32) -> (r: char)
    requires
        d < 10,
    ensures
        r == digit_char(d as int),
{
    match d {
        0 => '0',
        1 => '1',
        2 => '2',
        3 => '3',
        4 => '4',
        5 => '5',
        6 => '6',
        7 => '7',
        8 => '8',
        _ => '9',
    }
}

fn push_decimal(out: &mut Vec<char>, n: u32)
    ensures
        final(out)@ == old(out)@ + decimal(n as nat),
    decreases n,
{
    if n >= 10 {
        push_decimal(out, n / 10);
    }
    out.push(digit_to_char(n % 10));
    proof {
        if n >= 10 {
            assert(old(out)@ + decimal(n as nat) =~= old(out)@ + decimal((n / 10) as nat) + seq![
                digit_char((n % 10) as int),
            ]);
        } else {
            assert(old(out)@ + decimal(n as nat) =~= old(out)@.push(digit_char(n as int)));
        }
    }
}

fn push_signed(out: &mut Vec<char>, v: i16)
    ensures
        final(out)@ == old(out)@ + signed_decimal(v as int),
{
    if v < 0 {
        out.push('-');
        let mag: u32 = (-(v as i32)) as u32;
        push_decimal(out, mag);
        assert(final(out)@ =~= old(out)@ + signed_decimal(v as int));
    } else {
        push_decimal(out, v as u32);
    }
}

/// The canonical file-name stem of a glyph's metadata:
/// `char_xbearing_ybearing_advance_reserved4_reserved5`, in decimal.
pub fn encode_name(m: &GlyphMetrics) -> (r: String)
    ensures
        r@ == encoded(*m),
        decoded(r@) == Some(*m),
{
    let mut c: Vec<char> = Vec::new();
    push_decimal(&mut c, m.char_code as u32);
    c.push('_');
    push_signed(&mut c, m.x_bearing);
    c.push('_');
    push_signed(&mut c, m.y_bearing);
    c.push('_');
    push_decimal(&mut c, m.advance as u32);
    c.push('_');
    push_decimal(&mut c, m.reserved4 as u32);
    c.push('_');
    push_decimal(&mut c, m.reserved5 as u32);
    assert(c@ =~= encoded(*m));
    proof {
        lemma_name_round_trip(*m);
    }
    string_of(&c)
}

} // verus!
