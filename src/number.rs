//! Numeric text as the feed writes it, read without loss: every text that a
//! floating-point parse accepts is a `Number`, and nothing else is.
use vstd::prelude::*;
use vstd::utf8::encode_utf8;

verus! {

/// A number read from text. A finite one keeps every digit it was written
/// with: its value is `digits * 10^(exponent - frac_len)`.
#[derive(Clone, Debug, PartialEq)]
pub enum Number {
    Finite { negative: bool, digits: Vec<u8>, frac_len: usize, exponent: i64 },
    Infinite { negative: bool },
    NotANumber,
}

/// Bound on the magnitude of a written exponent; larger ones are held at it,
/// which lies far beyond the range of any floating-point type.
pub const EXPONENT_LIMIT: i64 = 1_000_000_000_000_000;

pub open spec fn is_digit(b: u8) -> bool {
    48 <= b <= 57
}

pub open spec fn all_digits(s: Seq<u8>) -> bool {
    forall|i: int| 0 <= i < s.len() ==> is_digit(#[trigger] s[i])
}

/// The number that a run of decimal digits spells.
pub open spec fn digits_value(s: Seq<u8>) -> nat
    decreases s.len(),
{
    if s.len() == 0 {
        0
    } else {
        digits_value(s.drop_last()) * 10 + (s.last() - 48) as nat
    }
}

/// Index of the first byte of `s` that is `a` or `b`, or its length.
pub open spec fn first_of(s: Seq<u8>, a: u8, b: u8) -> nat
    decreases s.len(),
{
    if s.len() == 0 {
        0
    } else if s[0] == a || s[0] == b {
        0
    } else {
        1 + first_of(s.drop_first(), a, b)
    }
}

pub open spec fn has_sign(s: Seq<u8>) -> bool {
    s.len() > 0 && (s[0] == 45u8 || s[0] == 43u8)
}

pub open spec fn is_minus(s: Seq<u8>) -> bool {
    s.len() > 0 && s[0] == 45u8
}

/// The text after an optional leading sign.
pub open spec fn unsigned_body(s: Seq<u8>) -> Seq<u8> {
    if has_sign(s) {
        s.drop_first()
    } else {
        s
    }
}

pub open spec fn lower_ascii(b: u8) -> u8 {
    if 65 <= b <= 90 {
        (b + 32) as u8
    } else {
        b
    }
}

pub open spec fn lower_bytes(s: Seq<u8>) -> Seq<u8> {
    s.map_values(|b: u8| lower_ascii(b))
}

/// `inf` or `infinity`, in any case.
pub open spec fn is_infinity_word(body: Seq<u8>) -> bool {
    lower_bytes(body) == seq![105u8, 110u8, 102u8] || lower_bytes(body) == seq![
        105u8,
        110u8,
        102u8,
        105u8,
        110u8,
        105u8,
        116u8,
        121u8,
    ]
}

/// `nan`, in any case.
pub open spec fn is_nan_word(body: Seq<u8>) -> bool {
    lower_bytes(body) == seq![110u8, 97u8, 110u8]
}

/// Where the exponent marker `e` or `E` stands, or the length.
pub open spec fn exp_index(body: Seq<u8>) -> nat {
    first_of(body, 101u8, 69u8)
}

/// The digits and point before the exponent.
pub open spec fn mantissa_text(body: Seq<u8>) -> Seq<u8> {
    body.subrange(0, exp_index(body) as int)
}

/// What follows the exponent marker.
pub open spec fn exponent_text(body: Seq<u8>) -> Seq<u8> {
    body.subrange(exp_index(body) as int + 1, body.len() as int)
}

pub open spec fn int_part(m: Seq<u8>) -> Seq<u8> {
    m.subrange(0, first_of(m, 46u8, 46u8) as int)
}

pub open spec fn frac_part(m: Seq<u8>) -> Seq<u8> {
    if first_of(m, 46u8, 46u8) < m.len() {
        m.subrange(first_of(m, 46u8, 46u8) as int + 1, m.len() as int)
    } else {
        seq![]
    }
}

/// An exponent: an optional sign and at least one digit.
pub open spec fn exponent_ok(e: Seq<u8>) -> bool {
    unsigned_body(e).len() > 0 && all_digits(unsigned_body(e))
}

/// The exponent's value, its magnitude held at `EXPONENT_LIMIT`.
pub open spec fn exponent_value(e: Seq<u8>) -> int {
    let v = digits_value(unsigned_body(e));
    let m = if v > EXPONENT_LIMIT {
        EXPONENT_LIMIT as int
    } else {
        v as int
    };
    if is_minus(e) {
        -m
    } else {
        m
    }
}

/// Digits with an optional point, at least one digit in all, then
/// optionally an exponent.
pub open spec fn is_finite_text(body: Seq<u8>) -> bool {
    let m = mantissa_text(body);
    &&& all_digits(int_part(m))
    &&& all_digits(frac_part(m))
    &&& int_part(m).len() + frac_part(m).len() > 0
    &&& exp_index(body) < body.len() ==> exponent_ok(exponent_text(body))
}

/// Numeric text: an optional sign, then `inf`, `infinity` or `nan` in any
/// case, or a finite number.
pub open spec fn is_number_text(s: Seq<u8>) -> bool {
    let body = unsigned_body(s);
    is_infinity_word(body) || is_nan_word(body) || is_finite_text(body)
}

/// `n` is the number that text `s` spells.
pub open spec fn spells(s: Seq<u8>, n: Number) -> bool {
    let body = unsigned_body(s);
    let m = mantissa_text(body);
    if is_infinity_word(body) {
        n == Number::Infinite { negative: is_minus(s) }
    } else if is_nan_word(body) {
        n == Number::NotANumber
    } else {
        is_finite_text(body) && finite_spells(body, is_minus(s), n)
    }
}

/// `n` is the finite number that unsigned text `body` spells, with sign
/// `neg`.
pub open spec fn finite_spells(body: Seq<u8>, neg: bool, n: Number) -> bool {
    let m = mantissa_text(body);
    &&& n matches Number::Finite { negative, digits, frac_len, exponent }
    &&& negative == neg
    &&& digits@ == int_part(m) + frac_part(m)
    &&& frac_len == frac_part(m).len()
    &&& exponent == if exp_index(body) < body.len() {
        exponent_value(exponent_text(body))
    } else {
        0
    }
}

impl Number {
    pub open spec fn wf(self) -> bool {
        match self {
            Number::Finite { negative, digits, frac_len, exponent } => {
                &&& digits@.len() > 0
                &&& all_digits(digits@)
                &&& frac_len <= digits@.len()
                &&& -EXPONENT_LIMIT <= exponent <= EXPONENT_LIMIT
            },
            _ => true,
        }
    }

    pub open spec fn is_zero_value(self) -> bool {
        self matches Number::Finite { negative, digits, frac_len, exponent } && !negative
            && digits@ == seq![48u8] && frac_len == 0 && exponent == 0
    }

    /// The number zero.
    pub fn zero() -> (r: Number)
        ensures
            r.is_zero_value(),
            r.wf(),
    {
        let mut digits: Vec<u8> = Vec::new();
        digits.push(48u8);
        proof {
            assert(digits@ =~= seq![48u8]);
        }
        Number::Finite { negative: false, digits, frac_len: 0, exponent: 0 }
    }
}

proof fn lemma_first_of(s: Seq<u8>, a: u8, b: u8)
    ensures
        first_of(s, a, b) <= s.len(),
        first_of(s, a, b) < s.len() ==> (s[first_of(s, a, b) as int] == a || s[first_of(s, a, b) as int] == b),
        forall|i: int| 0 <= i < first_of(s, a, b) ==> s[i] != a && s[i] != b,
    decreases s.len(),
{
    if s.len() > 0 && s[0] != a && s[0] != b {
        lemma_first_of(s.drop_first(), a, b);
        assert forall|i: int| 0 <= i < first_of(s, a, b) implies s[i] != a && s[i] != b by {
            if i > 0 {
                assert(s[i] == s.drop_first()[i - 1]);
            }
        }
    }
}

/// Position of the first `a` or `b` in `s[from..to]`, or `to`.
fn find_first(s: &[u8], from: usize, to: usize, a: u8, b: u8) -> (r: usize)
    requires
        from <= to <= s@.len(),
    ensures
        from <= r <= to,
        r - from == first_of(s@.subrange(from as int, to as int), a, b),
{
    let ghost sub = s@.subrange(from as int, to as int);
    proof {
        lemma_first_of(sub, a, b);
    }
    let mut i: usize = from;
    while i < to && s[i] != a && s[i] != b
        invariant
            from <= i <= to <= s@.len(),
            sub == s@.subrange(from as int, to as int),
            first_of(sub, a, b) <= sub.len(),
            first_of(sub, a, b) < sub.len() ==> (sub[first_of(sub, a, b) as int] == a
                || sub[first_of(sub, a, b) as int] == b),
            forall|j: int| 0 <= j < first_of(sub, a, b) ==> sub[j] != a && sub[j] != b,
            forall|j: int| from <= j < i ==> s@[j] != a && s@[j] != b,
        decreases to - i,
    {
        i = i + 1;
    }
    assert(i - from == first_of(sub, a, b)) by {
        if i - from < first_of(sub, a, b) {
            assert(sub[i - from] == s@[i as int]);
        }
        if i - from > first_of(sub, a, b) {
            assert(s@[from + first_of(sub, a, b)] == sub[first_of(sub, a, b) as int]);
        }
    }
    i
}

/// Whether `s[from..to]` is all digits.
fn digits_in(s: &[u8], from: usize, to: usize) -> (r: bool)
    requires
        from <= to <= s@.len(),
    ensures
        r == all_digits(s@.subrange(from as int, to as int)),
{
    let ghost sub = s@.subrange(from as int, to as int);
    let mut i: usize = from;
    while i < to
        invariant
            from <= i <= to <= s@.len(),
            sub == s@.subrange(from as int, to as int),
            forall|j: int| from <= j < i ==> is_digit(s@[j]),
        decreases to - i,
    {
        if s[i] < 48 || s[i] > 57 {
            assert(!is_digit(sub[i - from]));
            return false;
        }
        i = i + 1;
    }
    assert forall|j: int| 0 <= j < sub.len() implies is_digit(#[trigger] sub[j]) by {
        assert(sub[j] == s@[from + j]);
    }
    true
}

/// Appends `s[from..to]`.
fn copy_range(out: &mut Vec<u8>, s: &[u8], from: usize, to: usize)
    requires
        from <= to <= s@.len(),
    ensures
        final(out)@ == old(out)@ + s@.subrange(from as int, to as int),
{
    let mut i: usize = from;
    while i < to
        invariant
            from <= i <= to <= s@.len(),
            out@ == old(out)@ + s@.subrange(from as int, i as int),
        decreases to - i,
    {
        out.push(s[i]);
        i = i + 1;
        assert(old(out)@ + s@.subrange(from as int, i as int) =~= (old(out)@ + s@.subrange(
            from as int,
            i - 1,
        )).push(s@[i - 1]));
    }
}

fn lower_byte(b: u8) -> (r: u8)
    ensures
        r == lower_ascii(b),
{
    if 65 <= b && b <= 90 {
        b + 32
    } else {
        b
    }
}

/// Whether `s[from..]`, lowered, is `word`.
fn is_word(s: &[u8], from: usize, word: &[u8]) -> (r: bool)
    requires
        from <= s@.len(),
    ensures
        r == (lower_bytes(s@.subrange(from as int, s@.len() as int)) == word@),
{
    let ghost low = lower_bytes(s@.subrange(from as int, s@.len() as int));
    if s.len() - from != word.len() {
        assert(low.len() != word@.len());
        return false;
    }
    let mut i: usize = 0;
    while i < word.len()
        invariant
            0 <= i <= word@.len(),
            from + word@.len() == s@.len(),
            s@.len() == s.len(),
            low == lower_bytes(s@.subrange(from as int, s@.len() as int)),
            forall|j: int| 0 <= j < i ==> low[j] == word@[j],
        decreases word@.len() - i,
    {
        if lower_byte(s[from + i]) != word[i] {
            assert(low[i as int] != word@[i as int]);
            return false;
        }
        i = i + 1;
    }
    assert(low =~= word@);
    true
}

proof fn lemma_digits_value_snoc(s: Seq<u8>, b: u8)
    ensures
        digits_value(s.push(b)) == digits_value(s) * 10 + (b - 48) as nat,
{
    assert(s.push(b).drop_last() =~= s);
}

/// The value of the digits `s[from..to]`, held at `EXPONENT_LIMIT`.
fn clamped_value(s: &[u8], from: usize, to: usize) -> (r: i64)
    requires
        from <= to <= s@.len(),
        all_digits(s@.subrange(from as int, to as int)),
    ensures
        r == if digits_value(s@.subrange(from as int, to as int)) > EXPONENT_LIMIT {
            EXPONENT_LIMIT as int
        } else {
            digits_value(s@.subrange(from as int, to as int)) as int
        },
{
    let mut acc: i64 = 0;
    let mut i: usize = from;
    while i < to
        invariant
            from <= i <= to <= s@.len(),
            all_digits(s@.subrange(from as int, to as int)),
            0 <= acc <= EXPONENT_LIMIT,
            acc == if digits_value(s@.subrange(from as int, i as int)) > EXPONENT_LIMIT {
                EXPONENT_LIMIT as int
            } else {
                digits_value(s@.subrange(from as int, i as int)) as int
            },
        decreases to - i,
    {
        let b = s[i];
        assert(s@.subrange(from as int, to as int)[i - from] == b);
        let d = (b - 48) as i64;
        let ghost prev = digits_value(s@.subrange(from as int, i as int));
        proof {
            lemma_digits_value_snoc(s@.subrange(from as int, i as int), b);
            assert(s@.subrange(from as int, i as int).push(b) =~= s@.subrange(from as int, i + 1));
        }
        let next = acc * 10 + d;
        acc = if next > EXPONENT_LIMIT { EXPONENT_LIMIT } else { next };
        i = i + 1;
        assert(prev > EXPONENT_LIMIT ==> prev * 10 + d > EXPONENT_LIMIT) by (nonlinear_arith)
            requires
                0 <= d,
        ;
    }
    acc
}

/// Reads an exponent from `s[from..]`: an optional sign and digits.
fn parse_exponent(s: &[u8], from: usize) -> (r: Option<i64>)
    requires
        from <= s@.len(),
    ensures
        r is Some <==> exponent_ok(s@.subrange(from as int, s@.len() as int)),
        r matches Some(v) ==> v == exponent_value(s@.subrange(from as int, s@.len() as int)),
{
    let n = s.len();
    let ghost et = s@.subrange(from as int, n as int);
    let mut ds: usize = from;
    if ds < n && (s[ds] == 45u8 || s[ds] == 43u8) {
        ds = ds + 1;
    }
    assert(unsigned_body(et) =~= s@.subrange(ds as int, n as int));
    if ds == n || !digits_in(s, ds, n) {
        return None;
    }
    let v = clamped_value(s, ds, n);
    if s[from] == 45u8 {
        Some(-v)
    } else {
        Some(v)
    }
}

/// Reads a finite number, with sign `negative`, from the unsigned text
/// `s[start..]`.
fn parse_finite(s: &[u8], start: usize, negative: bool) -> (r: Option<Number>)
    requires
        start <= s@.len(),
    ensures
        r is Some <==> is_finite_text(s@.subrange(start as int, s@.len() as int)),
        r matches Some(n) ==> finite_spells(s@.subrange(start as int, s@.len() as int), negative, n)
            && n.wf(),
{
    let n = s.len();
    let ghost body = s@.subrange(start as int, n as int);
    let e = find_first(s, start, n, 101u8, 69u8);
    let ghost m = mantissa_text(body);
    assert(m =~= s@.subrange(start as int, e as int));
    let dot = find_first(s, start, e, 46u8, 46u8);
    let frac_start: usize = if dot < e { dot + 1 } else { e };
    assert(int_part(m) =~= s@.subrange(start as int, dot as int));
    assert(frac_part(m) =~= s@.subrange(frac_start as int, e as int));
    if !digits_in(s, start, dot) || !digits_in(s, frac_start, e) || (dot - start) + (e - frac_start)
        == 0 {
        return None;
    }
    let mut exponent: i64 = 0;
    if e < n {
        assert(exponent_text(body) =~= s@.subrange(e + 1, n as int));
        match parse_exponent(s, e + 1) {
            Some(v) => {
                exponent = v;
            },
            None => {
                return None;
            },
        }
    }
    let mut digits: Vec<u8> = Vec::new();
    copy_range(&mut digits, s, start, dot);
    copy_range(&mut digits, s, frac_start, e);
    proof {
        let all = int_part(m) + frac_part(m);
        assert forall|j: int| 0 <= j < all.len() implies is_digit(#[trigger] all[j]) by {
            if j < int_part(m).len() {
                assert(all[j] == int_part(m)[j]);
            } else {
                assert(all[j] == frac_part(m)[j - int_part(m).len()]);
            }
        }
    }
    Some(Number::Finite { negative, digits, frac_len: e - frac_start, exponent })
}

/// Reads numeric text as a floating-point parse reads it, keeping every
/// digit; `None` exactly where the text is not numeric.
pub fn parse_number(text: &str) -> (r: Option<Number>)
    ensures
        r is Some <==> is_number_text(encode_utf8(text@)),
        r matches Some(n) ==> spells(encode_utf8(text@), n) && n.wf(),
{
    let s = text.as_bytes();
    let ghost sq = s@;
    assert(sq == encode_utf8(text@));
    let n = s.len();
    let mut start: usize = 0;
    if n > 0 && (s[0] == 45u8 || s[0] == 43u8) {
        start = 1;
    }
    let negative = n > 0 && s[0] == 45u8;
    let ghost body = unsigned_body(sq);
    assert(body =~= sq.subrange(start as int, n as int));
    let inf: Vec<u8> = vec![105u8, 110u8, 102u8];
    let infinity: Vec<u8> = vec![105u8, 110u8, 102u8, 105u8, 110u8, 105u8, 116u8, 121u8];
    let nan: Vec<u8> = vec![110u8, 97u8, 110u8];
    assert(inf@ =~= seq![105u8, 110u8, 102u8]);
    assert(infinity@ =~= seq![105u8, 110u8, 102u8, 105u8, 110u8, 105u8, 116u8, 121u8]);
    assert(nan@ =~= seq![110u8, 97u8, 110u8]);
    if is_word(s, start, inf.as_slice()) || is_word(s, start, infinity.as_slice()) {
        return Some(Number::Infinite { negative });
    }
    if is_word(s, start, nan.as_slice()) {
        return Some(Number::NotANumber);
    }
    parse_finite(s, start, negative)
}

} // verus!
