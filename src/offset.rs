use vstd::prelude::*;

verus! {

/// What follows the last comma of `s` (all of `s` where it has none).
pub open spec fn after_last_comma(s: Seq<char>) -> Seq<char>
    decreases s.len(),
{
    if s.len() == 0 {
        s
    } else if s.last() == ',' {
        Seq::empty()
    } else {
        after_last_comma(s.drop_last()).push(s.last())
    }
}

/// Unicode white space (the characters with the White_Space property).
pub open spec fn is_space(c: char) -> bool {
    ('\u{9}' <= c && c <= '\u{d}') || c == ' ' || c == '\u{85}' || c == '\u{a0}' || c == '\u{1680}'
        || ('\u{2000}' <= c && c <= '\u{200a}') || c == '\u{2028}' || c == '\u{2029}' || c
        == '\u{202f}' || c == '\u{205f}' || c == '\u{3000}'
}

/// `s` without its leading white space.
pub open spec fn trim_start(s: Seq<char>) -> Seq<char>
    decreases s.len(),
{
    if s.len() > 0 && is_space(s[0]) {
        trim_start(s.drop_first())
    } else {
        s
    }
}

/// `s` without its trailing white space.
pub open spec fn trim_end(s: Seq<char>) -> Seq<char>
    decreases s.len(),
{
    if s.len() > 0 && is_space(s.last()) {
        trim_end(s.drop_last())
    } else {
        s
    }
}

/// The value of `c` as a digit of base `radix` (10 or 16).
pub open spec fn digit_value(c: char, radix: nat) -> Option<nat> {
    if '0' <= c && c <= '9' {
        Some((c as nat - '0' as nat) as nat)
    } else if radix == 16 && 'a' <= c && c <= 'f' {
        Some((c as nat - 'a' as nat + 10) as nat)
    } else if radix == 16 && 'A' <= c && c <= 'F' {
        Some((c as nat - 'A' as nat + 10) as nat)
    } else {
        None
    }
}

/// The number that the digits `s` write in base `radix`, most significant
/// first; `None` where one of them is no digit of that base.
pub open spec fn digits_value(s: Seq<char>, radix: nat) -> Option<nat>
    decreases s.len(),
{
    if s.len() == 0 {
        Some(0)
    } else {
        match (digits_value(s.drop_last(), radix), digit_value(s.last(), radix)) {
            (Some(v), Some(d)) => Some(v * radix + d),
            _ => None,
        }
    }
}

/// A non-empty run of digits whose value is at most `limit`.
pub open spec fn magnitude(s: Seq<char>, radix: nat, limit: nat) -> Option<nat> {
    if s.len() == 0 {
        None
    } else {
        match digits_value(s, radix) {
            Some(v) => if v <= limit {
                Some(v)
            } else {
                None
            },
            None => None,
        }
    }
}

/// Digits with an optional leading `+` or `-`, read as an `i64`; `None`
/// where they are no such number or it does not fit.
pub open spec fn signed_digits(d: Seq<char>, radix: nat) -> Option<int> {
    if d.len() > 0 && d[0] == '+' {
        match magnitude(d.drop_first(), radix, i64::MAX as nat) {
            Some(v) => Some(v as int),
            None => None,
        }
    } else if d.len() > 0 && d[0] == '-' {
        match magnitude(d.drop_first(), radix, (i64::MAX + 1) as nat) {
            Some(v) => Some(-v),
            None => None,
        }
    } else {
        match magnitude(d, radix, i64::MAX as nat) {
            Some(v) => Some(v as int),
            None => None,
        }
    }
}

/// The negation of an `i64`, where it is one.
pub open spec fn negated(v: Option<int>) -> Option<int> {
    match v {
        Some(x) => if x == i64::MIN {
            None
        } else {
            Some(-x)
        },
        None => None,
    }
}

/// The signed offset that a token writes: `-0x` negated hex, `0x` hex, `-`
/// negated decimal, or decimal, where the digits may carry a sign of their own.
pub open spec fn token_offset(t: Seq<char>) -> Option<int> {
    if t.len() >= 3 && t[0] == '-' && t[1] == '0' && t[2] == 'x' {
        negated(signed_digits(t.subrange(3, t.len() as int), 16))
    } else if t.len() >= 2 && t[0] == '0' && t[1] == 'x' {
        signed_digits(t.subrange(2, t.len() as int), 16)
    } else if t.len() >= 1 && t[0] == '-' {
        negated(signed_digits(t.subrange(1, t.len() as int), 10))
    } else {
        signed_digits(t, 10)
    }
}

/// The branch offset of an operand text: its last comma-separated token,
/// without surrounding white space, read as a signed offset.
pub open spec fn operand_offset(op: Seq<char>) -> Option<int> {
    token_offset(trim_end(trim_start(after_last_comma(op))))
}

proof fn lemma_prefix_value(t: Seq<char>, radix: nat, j: int)
    requires
        0 <= j <= t.len(),
        radix >= 1,
        digits_value(t, radix).is_some(),
    ensures
        digits_value(t.take(j), radix).is_some(),
        digits_value(t.take(j), radix).unwrap() <= digits_value(t, radix).unwrap(),
    decreases t.len(),
{
    if j == t.len() {
        assert(t.take(j) =~= t);
    } else {
        let u = t.drop_last();
        lemma_prefix_value(u, radix, j);
        assert(u.take(j) =~= t.take(j));
        let v = digits_value(u, radix).unwrap();
        let d = digit_value(t.last(), radix).unwrap();
        assert(v * radix + d >= v) by (nonlinear_arith)
            requires
                radix >= 1,
                v >= 0,
                d >= 0,
        ;
    }
}

fn char_digit(c: char, radix: u64) -> (r: Option<u64>)
    requires
        radix == 10 || radix == 16,
    ensures
        r.is_some() == digit_value(c, radix as nat).is_some(),
        r.is_some() ==> r.unwrap() as nat == digit_value(c, radix as nat).unwrap(),
{
    if '0' <= c && c <= '9' {
        Some(c as u64 - '0' as u64)
    } else if radix == 16 && 'a' <= c && c <= 'f' {
        Some(c as u64 - 'a' as u64 + 10)
    } else if radix == 16 && 'A' <= c && c <= 'F' {
        Some(c as u64 - 'A' as u64 + 10)
    } else {
        None
    }
}

/// Reads the digits `s[from..to]` in base `radix`.
fn read_magnitude(s: &str, from: usize, to: usize, radix: u64, limit: u64) -> (r: Option<u64>)
    requires
        from <= to <= s@.len(),
        radix == 10 || radix == 16,
        16 <= limit <= 0x8000_0000_0000_0000,
    ensures
        r.is_some() == magnitude(s@.subrange(from as int, to as int), radix as nat, limit as nat).is_some(),
        r.is_some() ==> r.unwrap() as nat == magnitude(
            s@.subrange(from as int, to as int),
            radix as nat,
            limit as nat,
        ).unwrap(),
{
    if from == to {
        return None;
    }
    let ghost t = s@.subrange(from as int, to as int);
    let mut v: u64 = 0;
    let mut i: usize = from;
    proof {
        assert(t.take(0).len() == 0);
    }
    while i < to
        invariant
            from <= i <= to <= s@.len(),
            t == s@.subrange(from as int, to as int),
            radix == 10 || radix == 16,
            16 <= limit <= 0x8000_0000_0000_0000,
            v <= limit,
            digits_value(t.take(i - from), radix as nat) == Some(v as nat),
        decreases to - i,
    {
        let c = s.get_char(i);
        let ghost k = i - from;
        proof {
            assert(t.take(k + 1).drop_last() =~= t.take(k));
            assert(t.take(k + 1).last() == c);
        }
        match char_digit(c, radix) {
            None => {
                proof {
                    assert(digits_value(t.take(k + 1), radix as nat).is_none());
                    if digits_value(t, radix as nat).is_some() {
                        lemma_prefix_value(t, radix as nat, k + 1);
                    }
                }
                return None;
            },
            Some(d) => {
                if v > (limit - d) / radix {
                    proof {
                        assert(v * radix + d > limit) by (nonlinear_arith)
                            requires
                                v as int > (limit - d as int) / (radix as int),
                                radix > 0,
                                d < 16,
                        ;
                        if digits_value(t, radix as nat).is_some() {
                            lemma_prefix_value(t, radix as nat, k + 1);
                        }
                    }
                    return None;
                }
                proof {
                    assert(v * radix + d <= limit) by (nonlinear_arith)
                        requires
                            v as int <= (limit - d as int) / (radix as int),
                            radix > 0,
                            d < 16,
                    ;
                }
                v = v * radix + d;
                i = i + 1;
            },
        }
    }
    proof {
        assert(t.take(to - from) =~= t);
    }
    Some(v)
}

/// Reads `s[from..to]` as digits with an optional sign, into an `i64`.
fn read_signed(s: &str, from: usize, to: usize, radix: u64) -> (r: Option<i64>)
    requires
        from <= to <= s@.len(),
        radix == 10 || radix == 16,
    ensures
        r.is_some() == signed_digits(s@.subrange(from as int, to as int), radix as nat).is_some(),
        r.is_some() ==> r.unwrap() as int == signed_digits(
            s@.subrange(from as int, to as int),
            radix as nat,
        ).unwrap(),
{
    let ghost d = s@.subrange(from as int, to as int);
    if from < to && s.get_char(from) == '+' {
        assert(d.drop_first() =~= s@.subrange(from + 1, to as int));
        match read_magnitude(s, from + 1, to, radix, 0x7fff_ffff_ffff_ffff) {
            Some(v) => Some(v as i64),
            None => None,
        }
    } else if from < to && s.get_char(from) == '-' {
        assert(d.drop_first() =~= s@.subrange(from + 1, to as int));
        match read_magnitude(s, from + 1, to, radix, 0x8000_0000_0000_0000) {
            Some(v) => if v == 0x8000_0000_0000_0000 {
                Some(i64::MIN)
            } else {
                Some(-(v as i64))
            },
            None => None,
        }
    } else {
        match read_magnitude(s, from, to, radix, 0x7fff_ffff_ffff_ffff) {
            Some(v) => Some(v as i64),
            None => None,
        }
    }
}

/// Negates an `i64`, where the result is one.
fn negate(v: Option<i64>) -> (r: Option<i64>)
    ensures
        r.is_some() == negated(if v.is_some() { Some(v.unwrap() as int) } else { None }).is_some(),
        r.is_some() ==> r.unwrap() as int == -(v.unwrap() as int),
{
    match v {
        Some(x) => if x == i64::MIN {
            None
        } else {
            Some(-x)
        },
        None => None,
    }
}

fn is_space_char(c: char) -> (r: bool)
    ensures
        r == is_space(c),
{
    ('\u{9}' <= c && c <= '\u{d}') || c == ' ' || c == '\u{85}' || c == '\u{a0}' || c == '\u{1680}'
        || ('\u{2000}' <= c && c <= '\u{200a}') || c == '\u{2028}' || c == '\u{2029}' || c
        == '\u{202f}' || c == '\u{205f}' || c == '\u{3000}'
}

/// Start of the text after the last comma.
fn last_token_start(op: &str) -> (k: usize)
    ensures
        k <= op@.len(),
        after_last_comma(op@) == op@.subrange(k as int, op@.len() as int),
{
    let ghost s = op@;
    let n = op.unicode_len();
    let mut k: usize = n;
    proof {
        assert(s.subrange(0, n as int) =~= s);
    }
    while k > 0
        invariant
            k <= n == s.len(),
            s == op@,
            after_last_comma(s) =~= after_last_comma(s.subrange(0, k as int)) + s.subrange(
                k as int,
                n as int,
            ),
        decreases k,
    {
        if op.get_char(k - 1) == ',' {
            proof {
                assert(s.subrange(0, k as int).last() == ',');
            }
            return k;
        }
        proof {
            let p = s.subrange(0, k as int);
            assert(p.drop_last() =~= s.subrange(0, k - 1));
            assert(s.subrange(k - 1, n as int) =~= seq![p.last()] + s.subrange(k as int, n as int));
        }
        k = k - 1;
    }
    k
}

/// First position at or after `k` that holds no white space.
fn skip_leading_space(op: &str, k: usize) -> (a: usize)
    requires
        k <= op@.len(),
    ensures
        k <= a <= op@.len(),
        trim_start(op@.subrange(k as int, op@.len() as int)) == op@.subrange(
            a as int,
            op@.len() as int,
        ),
{
    let ghost s = op@;
    let n = op.unicode_len();
    let mut a: usize = k;
    while a < n
        invariant
            k <= a <= n == s.len(),
            s == op@,
            trim_start(s.subrange(k as int, n as int)) == trim_start(s.subrange(a as int, n as int)),
        decreases n - a,
    {
        if !is_space_char(op.get_char(a)) {
            return a;
        }
        proof {
            assert(s.subrange(a as int, n as int).drop_first() =~= s.subrange(a + 1, n as int));
        }
        a = a + 1;
    }
    a
}

/// End of `op[a..]` once its trailing white space is left out.
fn skip_trailing_space(op: &str, a: usize) -> (b: usize)
    requires
        a <= op@.len(),
    ensures
        a <= b <= op@.len(),
        trim_end(op@.subrange(a as int, op@.len() as int)) == op@.subrange(a as int, b as int),
{
    let ghost s = op@;
    let n = op.unicode_len();
    let mut b: usize = n;
    while b > a
        invariant
            a <= b <= n == s.len(),
            s == op@,
            trim_end(s.subrange(a as int, n as int)) == trim_end(s.subrange(a as int, b as int)),
        decreases b,
    {
        if !is_space_char(op.get_char(b - 1)) {
            return b;
        }
        proof {
            assert(s.subrange(a as int, b as int).drop_last() =~= s.subrange(a as int, b - 1));
        }
        b = b - 1;
    }
    b
}

/// The branch offset written by the last comma-separated token of an operand
/// text; `None` where that token is no signed offset that fits in an `i64`.
pub fn compute_offset(op_str: &str) -> (r: Option<i64>)
    ensures
        r.is_some() == operand_offset(op_str@).is_some(),
        r.is_some() ==> r.unwrap() as int == operand_offset(op_str@).unwrap(),
{
    let ghost s = op_str@;
    let k = last_token_start(op_str);
    let a = skip_leading_space(op_str, k);
    let b = skip_trailing_space(op_str, a);
    let ghost t = s.subrange(a as int, b as int);
    assert(operand_offset(s) == token_offset(t));
    let len = b - a;
    if len >= 3 && op_str.get_char(a) == '-' && op_str.get_char(a + 1) == '0' && op_str.get_char(a + 2) == 'x' {
        assert(t.subrange(3, t.len() as int) =~= s.subrange(a + 3, b as int));
        negate(read_signed(op_str, a + 3, b, 16))
    } else if len >= 2 && op_str.get_char(a) == '0' && op_str.get_char(a + 1) == 'x' {
        assert(t.subrange(2, t.len() as int) =~= s.subrange(a + 2, b as int));
        read_signed(op_str, a + 2, b, 16)
    } else if len >= 1 && op_str.get_char(a) == '-' {
        assert(t.subrange(1, t.len() as int) =~= s.subrange(a + 1, b as int));
        negate(read_signed(op_str, a + 1, b, 10))
    } else {
        read_signed(op_str, a, b, 10)
    }
}

} // verus!
