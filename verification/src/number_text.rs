use vstd::prelude::*;

verus! {

/// A decimal digit.
pub open spec fn is_digit(c: char) -> bool {
    '0' <= c <= '9'
}

/// Every character is a decimal digit.
pub open spec fn all_digits(s: Seq<char>) -> bool {
    forall|i: int| 0 <= i < s.len() ==> is_digit(#[trigger] s[i])
}

/// The code of `c`, an ASCII capital letter taken as its small letter.
pub open spec fn ascii_lower(c: char) -> u32 {
    if 'A' <= c <= 'Z' {
        ((c as u32) + 32) as u32
    } else {
        c as u32
    }
}

/// `s` spells `word` (given in small letters), ignoring the case of ASCII
/// letters.
pub open spec fn spells(s: Seq<char>, word: Seq<char>) -> bool {
    s.len() == word.len() && forall|i: int| 0 <= i < s.len() ==> ascii_lower(#[trigger] s[i]) == word[i] as u32
}

/// `s` without a leading `+` or `-`.
pub open spec fn unsigned_part(s: Seq<char>) -> Seq<char> {
    if s.len() > 0 && (s[0] == '+' || s[0] == '-') {
        s.drop_first()
    } else {
        s
    }
}

/// `Digit+ | Digit+ '.' Digit* | Digit* '.' Digit+`.
pub open spec fn mantissa_ok(m: Seq<char>) -> bool {
    ||| (m.len() > 0 && all_digits(m))
    ||| exists|p: int|
        0 <= p < m.len() && #[trigger] m[p] == '.' && m.len() > 1 && all_digits(m.take(p)) && all_digits(
            m.skip(p + 1),
        )
}

/// `Sign? Digit+`, what follows the `e` of an exponent.
pub open spec fn exponent_ok(x: Seq<char>) -> bool {
    unsigned_part(x).len() > 0 && all_digits(unsigned_part(x))
}

/// `Number ::= Mantissa ('e' Exponent)?`, the `e` in either case.
pub open spec fn number_ok(b: Seq<char>) -> bool {
    ||| mantissa_ok(b)
    ||| exists|q: int|
        0 <= q < b.len() && ascii_lower(#[trigger] b[q]) == 'e' as u32 && mantissa_ok(b.take(q)) && exponent_ok(
            b.skip(q + 1),
        )
}

/// The texts that `str::parse` accepts as a floating-point number, as its
/// documentation gives them: an optional sign, then `inf`, `infinity`,
/// `nan` or a decimal number with an optional exponent, letters in either
/// case, no white space.
pub open spec fn float_text(s: Seq<char>) -> bool {
    let body = unsigned_part(s);
    ||| spells(body, seq!['i', 'n', 'f'])
    ||| spells(body, seq!['i', 'n', 'f', 'i', 'n', 'i', 't', 'y'])
    ||| spells(body, seq!['n', 'a', 'n'])
    ||| number_ok(body)
}

fn is_digit_char(c: char) -> (r: bool)
    ensures
        r == is_digit(c),
{
    '0' <= c && c <= '9'
}

fn lower_char(c: char) -> (r: u32)
    ensures
        r == ascii_lower(c),
{
    if 'A' <= c && c <= 'Z' {
        (c as u32) + 32
    } else {
        c as u32
    }
}

/// Whether `s[from..to]` spells `word`, ignoring ASCII case.
fn spells_at(s: &[char], from: usize, to: usize, word: &[char]) -> (r: bool)
    requires
        from <= to <= s@.len(),
    ensures
        r == spells(s@.subrange(from as int, to as int), word@),
{
    if to - from != word.len() {
        return false;
    }
    let mut i: usize = 0;
    while i < word.len()
        invariant
            to - from == word@.len(),
            from <= to <= s@.len(),
            i <= word@.len(),
            forall|j: int| 0 <= j < i ==> ascii_lower(#[trigger] s@[from + j]) == word@[j] as u32,
        decreases word@.len() - i,
    {
        if lower_char(s[from + i]) != word[i] as u32 {
            proof {
                let t = s@.subrange(from as int, to as int);
                assert(t[i as int] == s@[from + i]);
            }
            return false;
        }
        i = i + 1;
    }
    proof {
        let t = s@.subrange(from as int, to as int);
        assert forall|j: int| 0 <= j < t.len() implies ascii_lower(#[trigger] t[j]) == word@[j] as u32 by {
            assert(t[j] == s@[from + j]);
        }
    }
    true
}

/// Whether `s[from..to]` holds digits only.
fn digits_only(s: &[char], from: usize, to: usize) -> (r: bool)
    requires
        from <= to <= s@.len(),
    ensures
        r == all_digits(s@.subrange(from as int, to as int)),
{
    let mut i: usize = from;
    while i < to
        invariant
            from <= i <= to <= s@.len(),
            forall|j: int| from <= j < i ==> is_digit(#[trigger] s@[j]),
        decreases to - i,
    {
        if !is_digit_char(s[i]) {
            proof {
                let t = s@.subrange(from as int, to as int);
                assert(t[i - from] == s@[i as int]);
            }
            return false;
        }
        i = i + 1;
    }
    proof {
        let t = s@.subrange(from as int, to as int);
        assert forall|j: int| 0 <= j < t.len() implies is_digit(#[trigger] t[j]) by {
            assert(t[j] == s@[from + j]);
        }
    }
    true
}

/// Whether `s[from..to]` is a mantissa.
fn mantissa_at(s: &[char], from: usize, to: usize) -> (r: bool)
    requires
        from <= to <= s@.len(),
    ensures
        r == mantissa_ok(s@.subrange(from as int, to as int)),
{
    let ghost m = s@.subrange(from as int, to as int);
    let mut p: usize = from;
    while p < to && s[p] != '.'
        invariant
            from <= p <= to <= s@.len(),
            forall|j: int| from <= j < p ==> s@[j] != '.',
        decreases to - p,
    {
        p = p + 1;
    }
    if p == to {
        proof {
            assert forall|q: int| 0 <= q < m.len() implies #[trigger] m[q] != '.' by {
                assert(m[q] == s@[from + q]);
            }
        }
        to > from && digits_only(s, from, to)
    } else {
        let left = digits_only(s, from, p);
        let right = digits_only(s, p + 1, to);
        let ghost k = p - from;
        proof {
            assert(m[k] == '.');
            assert(m.take(k) =~= s@.subrange(from as int, p as int));
            assert(m.skip(k + 1) =~= s@.subrange(p + 1, to as int));
            assert(!is_digit('.'));
            assert(!all_digits(m)) by {
                assert(m[k] == '.');
            }
            if !(left && right && m.len() > 1) {
                assert forall|q: int|
                    0 <= q < m.len() && #[trigger] m[q] == '.' && m.len() > 1 && all_digits(m.take(q))
                        implies !all_digits(m.skip(q + 1)) by {
                    if q < k {
                        assert(m[q] == s@[from + q]);
                    } else if q > k {
                        assert(m.take(q)[k] == '.');
                    } else {
                    }
                }
            }
        }
        left && right && to - from > 1
    }
}

/// Whether `s[from..to]` is a number: a mantissa with an optional exponent.
fn number_at(s: &[char], from: usize, to: usize) -> (r: bool)
    requires
        from <= to <= s@.len(),
    ensures
        r == number_ok(s@.subrange(from as int, to as int)),
{
    let ghost b = s@.subrange(from as int, to as int);
    let mut q: usize = from;
    while q < to && lower_char(s[q]) != 'e' as u32
        invariant
            from <= q <= to <= s@.len(),
            forall|j: int| from <= j < q ==> ascii_lower(#[trigger] s@[j]) != 'e' as u32,
        decreases to - q,
    {
        q = q + 1;
    }
    if q == to {
        proof {
            assert forall|x: int| 0 <= x < b.len() implies ascii_lower(#[trigger] b[x]) != 'e' as u32 by {
                assert(b[x] == s@[from + x]);
            }
        }
        mantissa_at(s, from, to)
    } else {
        let ghost k = q - from;
        proof {
            assert(ascii_lower(b[k]) == 'e' as u32);
            assert(b.take(k) =~= s@.subrange(from as int, q as int));
            assert(b.skip(k + 1) =~= s@.subrange(q + 1, to as int));
            // A mantissa holds no `e`.
            assert(!mantissa_ok(b)) by {
                assert(!is_digit(b[k]));
                if exists|p: int|
                    0 <= p < b.len() && #[trigger] b[p] == '.' && b.len() > 1 && all_digits(b.take(p))
                        && all_digits(b.skip(p + 1)) {
                    let p = choose|p: int|
                        0 <= p < b.len() && #[trigger] b[p] == '.' && b.len() > 1 && all_digits(
                            b.take(p),
                        ) && all_digits(b.skip(p + 1));
                    if k < p {
                        assert(b.take(p)[k] == b[k]);
                    } else {
                        assert(b.skip(p + 1)[k - p - 1] == b[k]);
                    }
                }
            }
            // The `e` of an exponent is the first one.
            assert forall|x: int|
                0 <= x < b.len() && ascii_lower(#[trigger] b[x]) == 'e' as u32 && mantissa_ok(b.take(x)) implies x
                == k by {
                if x > k {
                    let t = b.take(x);
                    assert(t[k] == b[k]);
                    assert(!is_digit(t[k]));
                    if exists|p: int|
                        0 <= p < t.len() && #[trigger] t[p] == '.' && t.len() > 1 && all_digits(t.take(p))
                            && all_digits(t.skip(p + 1)) {
                        let p = choose|p: int|
                            0 <= p < t.len() && #[trigger] t[p] == '.' && t.len() > 1 && all_digits(
                                t.take(p),
                            ) && all_digits(t.skip(p + 1));
                        if k < p {
                            assert(t.take(p)[k] == t[k]);
                        } else {
                            assert(t.skip(p + 1)[k - p - 1] == t[k]);
                        }
                    }
                } else if x < k {
                    assert(b[x] == s@[from + x]);
                }
            }
        }
        let mantissa = mantissa_at(s, from, q);
        let exponent = exponent_at(s, q + 1, to);
        mantissa && exponent
    }
}

/// Whether `s[from..to]` is the part of an exponent after its `e`.
fn exponent_at(s: &[char], from: usize, to: usize) -> (r: bool)
    requires
        from <= to <= s@.len(),
    ensures
        r == exponent_ok(s@.subrange(from as int, to as int)),
{
    let ghost x = s@.subrange(from as int, to as int);
    let mut start = from;
    if start < to && (s[start] == '+' || s[start] == '-') {
        start = start + 1;
        proof {
            assert(x.drop_first() =~= s@.subrange(start as int, to as int));
        }
    }
    start < to && digits_only(s, start, to)
}

/// Whether `str::parse` accepts `s` as a floating-point number.
pub fn is_float_text(s: &[char]) -> (r: bool)
    ensures
        r == float_text(s@),
{
    let mut start: usize = 0;
    if s.len() > 0 && (s[0] == '+' || s[0] == '-') {
        start = 1;
    }
    let ghost body = unsigned_part(s@);
    proof {
        assert(body =~= s@.subrange(start as int, s@.len() as int));
    }
    let end = s.len();
    spells_at(s, start, end, &['i', 'n', 'f']) || spells_at(
        s,
        start,
        end,
        &['i', 'n', 'f', 'i', 'n', 'i', 't', 'y'],
    ) || spells_at(s, start, end, &['n', 'a', 'n']) || number_at(s, start, end)
}

/// A sign, or nothing.
pub open spec fn optional_sign(s: Seq<char>) -> bool {
    s.len() == 0 || s == seq!['+'] || s == seq!['-']
}

/// Decimal numbers are floats, with or without a sign, a point and an
/// exponent: digits `a`, a point and digits `b` (not both empty), then
/// optionally `e` or `E`, a sign and at least one digit.
pub proof fn law_decimals_are_floats(
    sign: Seq<char>,
    a: Seq<char>,
    b: Seq<char>,
    e: char,
    exp_sign: Seq<char>,
    d: Seq<char>,
)
    requires
        optional_sign(sign),
        optional_sign(exp_sign),
        e == 'e' || e == 'E',
        forall|i: int| 0 <= i < a.len() ==> '0' <= #[trigger] a[i] <= '9',
        forall|i: int| 0 <= i < b.len() ==> '0' <= #[trigger] b[i] <= '9',
        forall|i: int| 0 <= i < d.len() ==> '0' <= #[trigger] d[i] <= '9',
        a.len() + b.len() > 0,
        d.len() > 0,
    ensures
        a.len() > 0 ==> float_text(sign + a),
        float_text(sign + a + seq!['.'] + b),
        float_text(sign + a + seq!['.'] + b + seq![e] + exp_sign + d),
        a.len() > 0 ==> float_text(sign + a + seq![e] + exp_sign + d),
{
    let dot = a + seq!['.'] + b;
    let with_exp = dot + seq![e] + exp_sign + d;
    assert(float_text(sign + dot)) by {
        lemma_mantissa_with_point(a, b);
        assert(dot[0] != '+' && dot[0] != '-') by {
            if a.len() > 0 {
                assert(dot[0] == a[0]);
            } else {
                assert(dot[0] == '.');
            }
        }
        lemma_unsigned(sign, dot);
    }
    assert(sign + a + seq!['.'] + b == sign + dot) by {
        assert(sign + a + seq!['.'] + b =~= sign + dot);
    }
    assert(float_text(sign + with_exp)) by {
        lemma_mantissa_with_point(a, b);
        lemma_with_exponent(dot, e, exp_sign, d);
        assert(with_exp[0] != '+' && with_exp[0] != '-') by {
            if a.len() > 0 {
                assert(dot[0] == a[0]);
            } else {
                assert(dot[0] == '.');
            }
        }
        lemma_unsigned(sign, with_exp);
    }
    assert(sign + a + seq!['.'] + b + seq![e] + exp_sign + d == sign + with_exp) by {
        assert(sign + a + seq!['.'] + b + seq![e] + exp_sign + d =~= sign + with_exp);
    }
    if a.len() > 0 {
        assert(mantissa_ok(a)) by {
            assert(all_digits(a));
        }
        assert(a[0] != '+' && a[0] != '-');
        assert(float_text(sign + a)) by {
            assert(number_ok(a));
            lemma_unsigned(sign, a);
        }
        let a_exp = a + seq![e] + exp_sign + d;
        assert(float_text(sign + a_exp)) by {
            lemma_with_exponent(a, e, exp_sign, d);
            lemma_unsigned(sign, a_exp);
        }
        assert(sign + a + seq![e] + exp_sign + d == sign + a_exp) by {
            assert(sign + a + seq![e] + exp_sign + d =~= sign + a_exp);
        }
    }
}

proof fn lemma_mantissa_with_point(a: Seq<char>, b: Seq<char>)
    requires
        forall|i: int| 0 <= i < a.len() ==> '0' <= #[trigger] a[i] <= '9',
        forall|i: int| 0 <= i < b.len() ==> '0' <= #[trigger] b[i] <= '9',
        a.len() + b.len() > 0,
    ensures
        mantissa_ok(a + seq!['.'] + b),
{
    let m = a + seq!['.'] + b;
    let p = a.len() as int;
    assert(m[p] == '.');
    assert(m.take(p) =~= a);
    assert(m.skip(p + 1) =~= b);
    assert(all_digits(a));
    assert(all_digits(b));
}

/// A body that does not start with a sign, behind an optional sign.
proof fn lemma_unsigned(sign: Seq<char>, body: Seq<char>)
    requires
        optional_sign(sign),
        body.len() > 0,
        body[0] != '+' && body[0] != '-',
        number_ok(body),
    ensures
        float_text(sign + body),
{
    if sign.len() == 0 {
        assert(sign + body =~= body);
    } else {
        assert((sign + body).drop_first() =~= body);
    }
}

proof fn lemma_with_exponent(m: Seq<char>, e: char, exp_sign: Seq<char>, d: Seq<char>)
    requires
        mantissa_ok(m),
        optional_sign(exp_sign),
        e == 'e' || e == 'E',
        forall|i: int| 0 <= i < d.len() ==> '0' <= #[trigger] d[i] <= '9',
        d.len() > 0,
    ensures
        number_ok(m + seq![e] + exp_sign + d),
        (m + seq![e] + exp_sign + d)[0] == m[0],
{
    let b = m + seq![e] + exp_sign + d;
    let q = m.len() as int;
    assert(m.len() > 0) by {
        if m.len() == 0 {
            assert(!(exists|p: int| 0 <= p < m.len() && #[trigger] m[p] == '.'));
        }
    }
    assert(b[q] == e);
    assert(ascii_lower(b[q]) == 'e' as u32);
    assert(b.take(q) =~= m);
    let x = b.skip(q + 1);
    assert(x =~= exp_sign + d);
    if exp_sign.len() == 0 {
        assert(x =~= d);
        assert(d[0] != '+' && d[0] != '-');
        assert(unsigned_part(x) =~= d);
    } else {
        assert(unsigned_part(x) =~= d);
    }
    assert(all_digits(d));
}

/// The characters that a float's text is made of: digits, signs, the point
/// and ASCII letters.
pub open spec fn float_char(c: char) -> bool {
    ||| is_digit(c)
    ||| c == '+'
    ||| c == '-'
    ||| c == '.'
    ||| 'a' <= c <= 'z'
    ||| 'A' <= c <= 'Z'
}

proof fn lemma_digits_float_chars(s: Seq<char>)
    requires
        all_digits(s),
    ensures
        forall|i: int| 0 <= i < s.len() ==> float_char(#[trigger] s[i]),
{
    assert forall|i: int| 0 <= i < s.len() implies float_char(#[trigger] s[i]) by {
        assert(is_digit(s[i]));
    }
}

proof fn lemma_mantissa_float_chars(m: Seq<char>)
    requires
        mantissa_ok(m),
    ensures
        m.len() > 0,
        forall|i: int| 0 <= i < m.len() ==> float_char(#[trigger] m[i]),
{
    if m.len() > 0 && all_digits(m) {
        lemma_digits_float_chars(m);
    } else {
        let p = choose|p: int|
            0 <= p < m.len() && #[trigger] m[p] == '.' && m.len() > 1 && all_digits(m.take(p))
                && all_digits(m.skip(p + 1));
        assert forall|i: int| 0 <= i < m.len() implies float_char(#[trigger] m[i]) by {
            if i < p {
                assert(m.take(p)[i] == m[i]);
                assert(is_digit(m.take(p)[i]));
            } else if i > p {
                assert(m.skip(p + 1)[i - p - 1] == m[i]);
                assert(is_digit(m.skip(p + 1)[i - p - 1]));
            }
        }
    }
}

proof fn lemma_lower_letter(c: char, w: char)
    requires
        ascii_lower(c) == w as u32,
        'a' <= w <= 'z',
    ensures
        ('a' <= c <= 'z') || ('A' <= c <= 'Z'),
{
    if !('A' <= c <= 'Z') {
        assert(c as u32 == w as u32);
        assert((c as u32) as char == c);
        assert((w as u32) as char == w);
    }
}

proof fn lemma_spelled_float_chars(s: Seq<char>, word: Seq<char>)
    requires
        spells(s, word),
        forall|i: int| 0 <= i < word.len() ==> 'a' <= #[trigger] word[i] <= 'z',
    ensures
        forall|i: int| 0 <= i < s.len() ==> float_char(#[trigger] s[i]),
{
    assert forall|i: int| 0 <= i < s.len() implies float_char(#[trigger] s[i]) by {
        assert(ascii_lower(s[i]) == word[i] as u32);
        lemma_lower_letter(s[i], word[i]);
    }
}

proof fn lemma_body_float_chars(b: Seq<char>)
    requires
        spells(b, seq!['i', 'n', 'f']) || spells(b, seq!['i', 'n', 'f', 'i', 'n', 'i', 't', 'y'])
            || spells(b, seq!['n', 'a', 'n']) || number_ok(b),
    ensures
        b.len() > 0,
        forall|i: int| 0 <= i < b.len() ==> float_char(#[trigger] b[i]),
{
    let w1 = seq!['i', 'n', 'f'];
    let w2 = seq!['i', 'n', 'f', 'i', 'n', 'i', 't', 'y'];
    let w3 = seq!['n', 'a', 'n'];
    assert forall|i: int| 0 <= i < w1.len() implies 'a' <= #[trigger] w1[i] <= 'z' by {}
    assert forall|i: int| 0 <= i < w2.len() implies 'a' <= #[trigger] w2[i] <= 'z' by {}
    assert forall|i: int| 0 <= i < w3.len() implies 'a' <= #[trigger] w3[i] <= 'z' by {}
    if spells(b, w1) {
        lemma_spelled_float_chars(b, w1);
    } else if spells(b, w2) {
        lemma_spelled_float_chars(b, w2);
    } else if spells(b, w3) {
        lemma_spelled_float_chars(b, w3);
    } else if mantissa_ok(b) {
        lemma_mantissa_float_chars(b);
    } else {
        let q = choose|q: int|
            0 <= q < b.len() && ascii_lower(#[trigger] b[q]) == 'e' as u32 && mantissa_ok(b.take(q))
                && exponent_ok(b.skip(q + 1));
        lemma_mantissa_float_chars(b.take(q));
        let x = b.skip(q + 1);
        lemma_digits_float_chars(unsigned_part(x));
        lemma_lower_letter(b[q], 'e');
        assert forall|i: int| 0 <= i < b.len() implies float_char(#[trigger] b[i]) by {
            if i < q {
                assert(b.take(q)[i] == b[i]);
            } else if i > q {
                assert(x[i - q - 1] == b[i]);
                if x.len() > 0 && (x[0] == '+' || x[0] == '-') {
                    if i - q - 1 > 0 {
                        assert(unsigned_part(x)[i - q - 2] == x[i - q - 1]);
                    }
                } else {
                    assert(unsigned_part(x)[i - q - 1] == x[i - q - 1]);
                }
            }
        }
    }
}

/// A float's text is never empty and holds only digits, signs, the point
/// and ASCII letters; in particular it has no white space, so a cell with
/// white space in it is no number.
pub proof fn law_float_text_is_plain(s: Seq<char>)
    requires
        float_text(s),
    ensures
        s.len() > 0,
        forall|i: int| 0 <= i < s.len() ==> float_char(#[trigger] s[i]),
        forall|i: int| 0 <= i < s.len() ==> !crate::text::white_space(#[trigger] s[i]),
{
    let b = unsigned_part(s);
    lemma_body_float_chars(b);
    assert forall|i: int| 0 <= i < s.len() implies float_char(#[trigger] s[i]) by {
        if s.len() > 0 && (s[0] == '+' || s[0] == '-') {
            if i > 0 {
                assert(b[i - 1] == s[i]);
            }
        } else {
            assert(b[i] == s[i]);
        }
    }
    assert forall|i: int| 0 <= i < s.len() implies !crate::text::white_space(#[trigger] s[i]) by {
        assert(float_char(s[i]));
    }
}

} // verus!
