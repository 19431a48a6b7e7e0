use vstd::prelude::*;

verus! {

// ---------------------------------------------------------------------------
// Character classes
// ---------------------------------------------------------------------------

/// Unicode `White_Space`, the class that `char::is_whitespace` and `str::trim` use.
pub open spec fn is_white_space(c: char) -> bool {
    ||| '\u{9}' <= c <= '\u{d}'
    ||| c == ' '
    ||| c == '\u{85}'
    ||| c == '\u{a0}'
    ||| c == '\u{1680}'
    ||| '\u{2000}' <= c <= '\u{200a}'
    ||| c == '\u{2028}'
    ||| c == '\u{2029}'
    ||| c == '\u{202f}'
    ||| c == '\u{205f}'
    ||| c == '\u{3000}'
}

pub open spec fn ws() -> spec_fn(char) -> bool {
    |c: char| is_white_space(c)
}

pub open spec fn is_char(x: char) -> spec_fn(char) -> bool {
    |c: char| c == x
}

pub fn is_white_space_exec(c: char) -> (r: bool)
    ensures
        r == is_white_space(c),
{
    ('\u{9}' <= c && c <= '\u{d}') || c == ' ' || c == '\u{85}' || c == '\u{a0}' || c == '\u{1680}'
        || ('\u{2000}' <= c && c <= '\u{200a}') || c == '\u{2028}' || c == '\u{2029}' || c
        == '\u{202f}' || c == '\u{205f}' || c == '\u{3000}'
}

// ---------------------------------------------------------------------------
// Trimming
// ---------------------------------------------------------------------------

/// `s` without the leading characters that satisfy `p`.
pub open spec fn trim_start_by(s: Seq<char>, p: spec_fn(char) -> bool) -> Seq<char>
    decreases s.len(),
{
    if s.len() > 0 && p(s[0]) {
        trim_start_by(s.drop_first(), p)
    } else {
        s
    }
}

/// `s` without the trailing characters that satisfy `p`.
pub open spec fn trim_end_by(s: Seq<char>, p: spec_fn(char) -> bool) -> Seq<char>
    decreases s.len(),
{
    if s.len() > 0 && p(s.last()) {
        trim_end_by(s.drop_last(), p)
    } else {
        s
    }
}

/// What `str::trim` gives back.
pub open spec fn trim_ws(s: Seq<char>) -> Seq<char> {
    trim_end_by(trim_start_by(s, ws()), ws())
}

/// Trimming the front drops the longest prefix whose characters satisfy `p`.
proof fn lemma_trim_start_shape(s: Seq<char>, p: spec_fn(char) -> bool) -> (a: int)
    ensures
        0 <= a <= s.len(),
        trim_start_by(s, p) == s.skip(a),
        forall|i: int| 0 <= i < a ==> p(#[trigger] s[i]),
        a < s.len() ==> !p(s[a]),
    decreases s.len(),
{
    if s.len() > 0 && p(s[0]) {
        let a0 = lemma_trim_start_shape(s.drop_first(), p);
        assert(s.drop_first().skip(a0) =~= s.skip(a0 + 1));
        assert forall|i: int| 0 <= i < a0 + 1 implies p(#[trigger] s[i]) by {
            if i > 0 {
                assert(s[i] == s.drop_first()[i - 1]);
            }
        }
        a0 + 1
    } else {
        assert(s.skip(0) =~= s);
        0
    }
}

/// Trimming the back drops the longest suffix whose characters satisfy `p`.
proof fn lemma_trim_end_shape(s: Seq<char>, p: spec_fn(char) -> bool) -> (b: int)
    ensures
        0 <= b <= s.len(),
        trim_end_by(s, p) == s.take(b),
        forall|i: int| b <= i < s.len() ==> p(#[trigger] s[i]),
        b > 0 ==> !p(s[b - 1]),
    decreases s.len(),
{
    if s.len() > 0 && p(s.last()) {
        let b0 = lemma_trim_end_shape(s.drop_last(), p);
        assert(s.drop_last().take(b0) =~= s.take(b0));
        assert forall|i: int| b0 <= i < s.len() implies p(#[trigger] s[i]) by {
            if i < s.len() - 1 {
                assert(s[i] == s.drop_last()[i]);
            }
        }
        b0
    } else {
        assert(s.take(s.len() as int) =~= s);
        s.len() as int
    }
}

/// Trimming keeps a piece `s[a..b]` with only white space before and after it,
/// and the piece, unless empty, neither starts nor ends with white space.
pub proof fn lemma_trim_ws_shape(s: Seq<char>) -> (r: (int, int))
    ensures
        0 <= r.0 <= r.1 <= s.len(),
        trim_ws(s) == s.subrange(r.0, r.1),
        forall|i: int| 0 <= i < r.0 ==> is_white_space(#[trigger] s[i]),
        forall|i: int| r.1 <= i < s.len() ==> is_white_space(#[trigger] s[i]),
        r.0 < r.1 ==> !is_white_space(s[r.0]) && !is_white_space(s[r.1 - 1]),
{
    let a = lemma_trim_start_shape(s, ws());
    let t = s.skip(a);
    let b = lemma_trim_end_shape(t, ws());
    assert(t.take(b) =~= s.subrange(a, a + b));
    assert forall|i: int| a + b <= i < s.len() implies is_white_space(#[trigger] s[i]) by {
        assert(s[i] == t[i - a]);
        assert(ws()(t[i - a]));
    }
    assert forall|i: int| 0 <= i < a implies is_white_space(#[trigger] s[i]) by {
        assert(ws()(s[i]));
    }
    if b > 0 {
        assert(s[a + b - 1] == t[b - 1]);
        assert(!ws()(s[a]));
    }
    (a, a + b)
}

/// Number of leading white-space characters of `s`.
pub fn leading_ws(s: &Vec<char>) -> (a: usize)
    ensures
        a <= s.len(),
        s@.skip(a as int) == trim_start_by(s@, ws()),
{
    let mut i: usize = 0;
    assert(s@.skip(0) =~= s@);
    while i < s.len() && is_white_space_exec(s[i])
        invariant
            i <= s.len(),
            trim_start_by(s@, ws()) == trim_start_by(s@.skip(i as int), ws()),
        decreases s.len() - i,
    {
        assert(s@.skip(i as int).drop_first() =~= s@.skip(i + 1));
        i = i + 1;
    }
    i
}

/// End of `s[from..to]` once the trailing characters equal to `x` (or, when
/// `x` is `None`, the trailing white space) are removed.
pub fn trimmed_end(s: &Vec<char>, from: usize, to: usize, x: Option<char>) -> (b: usize)
    requires
        from <= to <= s.len(),
    ensures
        from <= b <= to,
        s@.subrange(from as int, b as int) == trim_end_by(
            s@.subrange(from as int, to as int),
            strip_class(x),
        ),
{
    let ghost p = strip_class(x);
    let mut j: usize = to;
    while j > from && in_strip_class(s[j - 1], x)
        invariant
            from <= j <= to <= s.len(),
            p == strip_class(x),
            trim_end_by(s@.subrange(from as int, to as int), p) == trim_end_by(
                s@.subrange(from as int, j as int),
                p,
            ),
        decreases j,
    {
        assert(s@.subrange(from as int, j as int).drop_last() =~= s@.subrange(
            from as int,
            j - 1,
        ));
        j = j - 1;
    }
    j
}

/// The class of characters that a trim removes: those equal to `x`, or white
/// space when `x` is `None`.
pub open spec fn strip_class(x: Option<char>) -> spec_fn(char) -> bool {
    match x {
        Some(ch) => is_char(ch),
        None => ws(),
    }
}

pub fn in_strip_class(c: char, x: Option<char>) -> (r: bool)
    ensures
        r == strip_class(x)(c),
{
    match x {
        Some(ch) => c == ch,
        None => is_white_space_exec(c),
    }
}

/// `a == b` for character sequences.
pub fn chars_eq(a: &Vec<char>, b: &Vec<char>) -> (r: bool)
    ensures
        r == (a@ == b@),
{
    if a.len() != b.len() {
        return false;
    }
    let mut i: usize = 0;
    while i < a.len()
        invariant
            a.len() == b.len(),
            i <= a.len(),
            forall|j: int| 0 <= j < i ==> a@[j] == b@[j],
        decreases a.len() - i,
    {
        if a[i] != b[i] {
            return false;
        }
        i = i + 1;
    }
    assert(a@ =~= b@);
    true
}

/// The characters of `s`, in order.
pub fn chars_of(s: &str) -> (r: Vec<char>)
    ensures
        r@ == s@,
{
    let mut r: Vec<char> = Vec::new();
    for c in it: s.chars()
        invariant
            r@ == it.seq().take(it.index() as int),
            it.seq() == s@,
    {
        r.push(c);
    }
    r
}


/// `String::push`: appends one character.
#[verifier::external_body]
fn push_char(s: &mut String, c: char)
    ensures
        final(s)@ == old(s)@.push(c),
{
    s.push(c);
}

/// The string whose characters are `cs`.
pub fn string_of(cs: &[char]) -> (r: String)
    ensures
        r@ == cs@,
{
    let mut r = String::new();
    let mut i: usize = 0;
    while i < cs.len()
        invariant
            i <= cs.len(),
            r@ == cs@.take(i as int),
        decreases cs.len() - i,
    {
        push_char(&mut r, cs[i]);
        assert(cs@.take(i + 1) =~= cs@.take(i as int).push(cs@[i as int]));
        i = i + 1;
    }
    assert(cs@.take(cs.len() as int) =~= cs@);
    r
}

/// Bounds of `s.trim()` within `s`.
pub fn trim_bounds(s: &Vec<char>) -> (r: (usize, usize))
    ensures
        r.0 <= r.1 <= s.len(),
        s@.subrange(r.0 as int, r.1 as int) == trim_ws(s@),
{
    let a = leading_ws(s);
    let b = trimmed_end(s, a, s.len(), None);
    assert(s@.skip(a as int) =~= s@.subrange(a as int, s.len() as int));
    (a, b)
}

/// `str::trim`.
pub fn trim(s: &str) -> (r: Vec<char>)
    ensures
        r@ == trim_ws(s@),
{
    let cs = chars_of(s);
    let (a, b) = trim_bounds(&cs);
    slice_of(&cs, a, b)
}

/// The characters `s[from..to]`.
pub fn slice_of(s: &Vec<char>, from: usize, to: usize) -> (r: Vec<char>)
    requires
        from <= to <= s.len(),
    ensures
        r@ == s@.subrange(from as int, to as int),
{
    let mut r: Vec<char> = Vec::new();
    let mut i = from;
    while i < to
        invariant
            from <= i <= to <= s.len(),
            r@ == s@.subrange(from as int, i as int),
        decreases to - i,
    {
        r.push(s[i]);
        assert(s@.subrange(from as int, i + 1) =~= s@.subrange(from as int, i as int).push(
            s@[i as int],
        ));
        i = i + 1;
    }
    r
}

// ---------------------------------------------------------------------------
// Decimal numerals
// ---------------------------------------------------------------------------

pub open spec fn is_digit(c: char) -> bool {
    '0' <= c <= '9'
}

pub open spec fn digit_value(c: char) -> int {
    (c as int) - ('0' as int)
}

pub open spec fn digit_char(d: int) -> char {
    ((d + ('0' as int)) as u32) as char
}

pub open spec fn all_digits(s: Seq<char>) -> bool {
    forall|i: int| 0 <= i < s.len() ==> is_digit(#[trigger] s[i])
}

/// The number that the decimal digits `s` spell (0 for no digits).
pub open spec fn digits_value(s: Seq<char>) -> nat
    decreases s.len(),
{
    if s.len() == 0 {
        0
    } else {
        (digits_value(s.drop_last()) * 10 + digit_value(s.last())) as nat
    }
}

/// The shortest decimal numeral of `n`, as `u64::to_string` writes it.
pub open spec fn decimal(n: nat) -> Seq<char>
    decreases n,
{
    if n < 10 {
        seq![digit_char(n as int)]
    } else {
        decimal(n / 10).push(digit_char((n % 10) as int))
    }
}

/// Writing a number in decimal and reading it back gives the number.
pub proof fn lemma_decimal_roundtrip(n: nat)
    ensures
        decimal(n).len() > 0,
        all_digits(decimal(n)),
        digits_value(decimal(n)) == n,
        is_digit(decimal(n)[0]),
    decreases n,
{
    lemma_digit_char((n % 10) as int);
    if n >= 10 {
        lemma_decimal_roundtrip(n / 10);
        let d = decimal(n / 10);
        let e = d.push(digit_char((n % 10) as int));
        assert(e.drop_last() =~= d);
        assert(e.last() == digit_char((n % 10) as int));
        assert((n / 10) * 10 + n % 10 == n) by (nonlinear_arith);
        assert(decimal(n) == e);
        assert(digits_value(d) == n / 10);
        assert(digit_value(e.last()) == n % 10);
        assert(digits_value(e) == digits_value(d) * 10 + digit_value(e.last()));
        assert(digits_value(e) == n);
        assert forall|i: int| 0 <= i < e.len() implies is_digit(#[trigger] e[i]) by {
            if i < d.len() {
                assert(e[i] == d[i]);
            }
        }
    } else {
        assert(decimal(n).drop_last() =~= Seq::<char>::empty());
        assert(n % 10 == n);
        assert(decimal(n).last() == digit_char(n as int));
        assert(digits_value(decimal(n).drop_last()) == 0);
    }
}

pub proof fn lemma_digit_char(d: int)
    requires
        0 <= d < 10,
    ensures
        is_digit(digit_char(d)),
        digit_value(digit_char(d)) == d,
{
    let c = digit_char(d);
    assert(c as int == d + 48);
}

/// Reading back a number written in decimal gives the number: a timestamp
/// written by `u64::to_string` parses to itself.
pub proof fn lemma_parse_decimal(n: u64)
    ensures
        parse_unsigned(decimal(n as nat), u64::MAX as int) == Some(n as nat),
{
    lemma_decimal_roundtrip(n as nat);
    assert(unsigned_digits(decimal(n as nat)) == decimal(n as nat));
}

/// The characters of `n.to_string()`.
pub fn decimal_chars(n: u64) -> (r: Vec<char>)
    ensures
        r@ == decimal(n as nat),
    decreases n,
{
    if n < 10 {
        let mut r: Vec<char> = Vec::new();
        r.push(((n as u8) + 48u8) as char);
        assert(r@ =~= decimal(n as nat));
        r
    } else {
        let mut r = decimal_chars(n / 10);
        r.push((((n % 10) as u8) + 48u8) as char);
        r
    }
}

/// Digits of `s[from..to]` read as a number, when they are all decimal digits,
/// there is at least one, and the number is at most `bound`.
pub fn parse_digits(s: &Vec<char>, from: usize, to: usize, bound: u64) -> (r: Option<u64>)
    requires
        from <= to <= s.len(),
    ensures
        ({
            let d = s@.subrange(from as int, to as int);
            match r {
                Some(v) => d.len() > 0 && all_digits(d) && digits_value(d) <= bound && v
                    == digits_value(d),
                None => !(d.len() > 0 && all_digits(d) && digits_value(d) <= bound),
            }
        }),
{
    let ghost d = s@.subrange(from as int, to as int);
    if from == to {
        return None;
    }
    let mut v: u64 = 0;
    let mut i = from;
    while i < to
        invariant
            from <= i <= to <= s.len(),
            d == s@.subrange(from as int, to as int),
            all_digits(s@.subrange(from as int, i as int)),
            v == digits_value(s@.subrange(from as int, i as int)),
            v <= bound,
        decreases to - i,
    {
        let c = s[i];
        let ghost pre = s@.subrange(from as int, i as int);
        let ghost next = s@.subrange(from as int, i + 1);
        assert(next.drop_last() =~= pre);
        if !('0' <= c && c <= '9') {
            assert(d[i - from] == c);
            return None;
        }
        let dv = (c as u32 - '0' as u32) as u64;
        assert(next.last() == c);
        assert(all_digits(next)) by {
            assert forall|k: int| 0 <= k < next.len() implies is_digit(#[trigger] next[k]) by {
                if k < pre.len() {
                    assert(next[k] == pre[k]);
                }
            }
        }
        if dv > bound || v > (bound - dv) / 10 {
            assert(dv > bound || v * 10 + dv > bound) by (nonlinear_arith)
                requires
                    dv > bound || v > (bound - dv) / 10,
            ;
            proof {
                lemma_digits_prefix_le(d, i + 1 - from);
                assert(d.take(i + 1 - from) =~= next);
            }
            return None;
        }
        assert(v * 10 + dv <= bound) by (nonlinear_arith)
            requires
                dv <= bound,
                v <= (bound - dv) / 10,
        ;
        v = v * 10 + dv;
        i = i + 1;
    }
    assert(s@.subrange(from as int, i as int) =~= d);
    Some(v)
}

/// A prefix of a numeral spells a number no larger than the whole numeral.
pub proof fn lemma_digits_prefix_le(s: Seq<char>, k: int)
    requires
        0 <= k <= s.len(),
    ensures
        all_digits(s) ==> digits_value(s.take(k)) <= digits_value(s),
    decreases s.len(),
{
    if k < s.len() && all_digits(s) {
        let t = s.drop_last();
        assert(t.take(k) =~= s.take(k));
        assert(all_digits(t)) by {
            assert forall|i: int| 0 <= i < t.len() implies is_digit(#[trigger] t[i]) by {
                assert(t[i] == s[i]);
            }
        }
        lemma_digits_prefix_le(t, k);
        assert(is_digit(s[s.len() - 1]));
    } else if k == s.len() {
        assert(s.take(k) =~= s);
    }
}


// ---------------------------------------------------------------------------
// Integer parsing, as `str::parse` does it for the integer types
// ---------------------------------------------------------------------------

/// The digits of an unsigned numeral: a single leading `+` is allowed when
/// something follows it.
pub open spec fn unsigned_digits(s: Seq<char>) -> Seq<char> {
    if s.len() > 1 && s[0] == '+' {
        s.drop_first()
    } else {
        s
    }
}

/// `s.parse::<uN>()` where `max` is `uN::MAX` (or the largest value allowed).
pub open spec fn parse_unsigned(s: Seq<char>, max: int) -> Option<nat> {
    let d = unsigned_digits(s);
    if d.len() > 0 && all_digits(d) && digits_value(d) <= max {
        Some(digits_value(d))
    } else {
        None
    }
}

/// `s.parse::<iN>()` where `max` is `iN::MAX` (and `-max - 1` is `iN::MIN`).
pub open spec fn parse_signed(s: Seq<char>, max: int) -> Option<int> {
    if s.len() > 1 && s[0] == '-' {
        let d = s.drop_first();
        if all_digits(d) && digits_value(d) <= max + 1 {
            Some(-digits_value(d))
        } else {
            None
        }
    } else {
        match parse_unsigned(s, max) {
            Some(v) => Some(v as int),
            None => None,
        }
    }
}

/// `s.parse::<i32>()`.
pub open spec fn parse_i32_spec(s: Seq<char>) -> Option<int> {
    parse_signed(s, 2147483647)
}

/// `s.parse::<i64>()`.
pub open spec fn parse_i64_spec(s: Seq<char>) -> Option<int> {
    parse_signed(s, 9223372036854775807)
}

/// Unsigned parse of `s[from..to]` with the given maximum.
pub fn parse_unsigned_range(s: &Vec<char>, from: usize, to: usize, max: u64) -> (r: Option<u64>)
    requires
        from <= to <= s.len(),
    ensures
        match r {
            Some(v) => parse_unsigned(s@.subrange(from as int, to as int), max as int) == Some(
                v as nat,
            ),
            None => parse_unsigned(s@.subrange(from as int, to as int), max as int) is None,
        },
{
    let ghost t = s@.subrange(from as int, to as int);
    if to - from > 1 && s[from] == '+' {
        assert(t.drop_first() =~= s@.subrange(from + 1, to as int));
        parse_digits(s, from + 1, to, max)
    } else {
        parse_digits(s, from, to, max)
    }
}

/// `s[from..to].parse::<i64>()`.
pub fn parse_i64_range(s: &Vec<char>, from: usize, to: usize) -> (r: Option<i64>)
    requires
        from <= to <= s.len(),
    ensures
        match r {
            Some(v) => parse_i64_spec(s@.subrange(from as int, to as int)) == Some(v as int),
            None => parse_i64_spec(s@.subrange(from as int, to as int)) is None,
        },
{
    let ghost t = s@.subrange(from as int, to as int);
    if to - from > 1 && s[from] == '-' {
        assert(t.drop_first() =~= s@.subrange(from + 1, to as int));
        match parse_digits(s, from + 1, to, 9223372036854775808) {
            Some(v) => {
                if v == 9223372036854775808 {
                    Some(i64::MIN)
                } else {
                    Some(-(v as i64))
                }
            },
            None => None,
        }
    } else {
        match parse_unsigned_range(s, from, to, 9223372036854775807) {
            Some(v) => Some(v as i64),
            None => None,
        }
    }
}

/// `s[from..to].parse::<i32>()`.
pub fn parse_i32_range(s: &Vec<char>, from: usize, to: usize) -> (r: Option<i32>)
    requires
        from <= to <= s.len(),
    ensures
        match r {
            Some(v) => parse_i32_spec(s@.subrange(from as int, to as int)) == Some(v as int),
            None => parse_i32_spec(s@.subrange(from as int, to as int)) is None,
        },
{
    let ghost t = s@.subrange(from as int, to as int);
    if to - from > 1 && s[from] == '-' {
        assert(t.drop_first() =~= s@.subrange(from + 1, to as int));
        match parse_digits(s, from + 1, to, 2147483648) {
            Some(v) => {
                if v == 2147483648 {
                    Some(i32::MIN)
                } else {
                    Some(-(v as i32))
                }
            },
            None => None,
        }
    } else {
        match parse_unsigned_range(s, from, to, 2147483647) {
            Some(v) => Some(v as i32),
            None => None,
        }
    }
}

// ---------------------------------------------------------------------------
// Searching and splitting
// ---------------------------------------------------------------------------

/// Position of the first `c` in `s`.
pub open spec fn find_char(s: Seq<char>, c: char) -> Option<int>
    decreases s.len(),
{
    if s.len() == 0 {
        None
    } else if s[0] == c {
        Some(0)
    } else {
        match find_char(s.drop_first(), c) {
            Some(i) => Some(i + 1),
            None => None,
        }
    }
}

pub proof fn lemma_find_char(s: Seq<char>, c: char)
    ensures
        match find_char(s, c) {
            Some(i) => 0 <= i < s.len() && s[i] == c && forall|j: int| 0 <= j < i ==> s[j] != c,
            None => forall|j: int| 0 <= j < s.len() ==> s[j] != c,
        },
    decreases s.len(),
{
    if s.len() > 0 && s[0] != c {
        lemma_find_char(s.drop_first(), c);
        assert forall|j: int| 1 <= j < s.len() implies s[j] == s.drop_first()[j - 1] by {}
    }
}

/// The pieces of `s` between the occurrences of `c`, as `str::split` gives them.
pub open spec fn split_by(s: Seq<char>, c: char) -> Seq<Seq<char>>
    decreases s.len(),
{
    match find_char(s, c) {
        None => seq![s],
        Some(i) => {
            proof {
                lemma_find_char(s, c);
            }
            seq![s.take(i)] + split_by(s.skip(i + 1), c)
        },
    }
}

/// Position of the first `c` in `s[from..to]`, counted from the start of `s`.
pub fn find_char_range(s: &Vec<char>, from: usize, to: usize, c: char) -> (r: Option<usize>)
    requires
        from <= to <= s.len(),
    ensures
        match r {
            Some(k) => from <= k < to && find_char(s@.subrange(from as int, to as int), c) == Some(
                k - from,
            ),
            None => find_char(s@.subrange(from as int, to as int), c) is None,
        },
{
    let ghost t = s@.subrange(from as int, to as int);
    proof {
        lemma_find_char(t, c);
    }
    let mut i = from;
    while i < to
        invariant
            from <= i <= to <= s.len(),
            t == s@.subrange(from as int, to as int),
            forall|j: int| from <= j < i ==> s@[j] != c,
        decreases to - i,
    {
        if s[i] == c {
            proof {
                lemma_find_char(t, c);
                match find_char(t, c) {
                    Some(k) => {
                        if k < i - from {
                            assert(t[k] == s@[from + k]);
                        } else if k > i - from {
                            assert(t[i - from] == s@[i as int]);
                        }
                    },
                    None => {
                        assert(t[i - from] == s@[i as int]);
                    },
                }
            }
            return Some(i);
        }
        i = i + 1;
    }
    proof {
        lemma_find_char(t, c);
        match find_char(t, c) {
            Some(k) => {
                assert(t[k] == s@[from + k]);
            },
            None => {},
        }
    }
    None
}

/// The piece of `s` that the bounds `rg` delimit.
pub open spec fn piece(s: Seq<char>, rg: (usize, usize)) -> Seq<char> {
    s.subrange(rg.0 as int, rg.1 as int)
}

/// Bounds that lie within a text of length `n`.
pub open spec fn bounds_ok(rg: (usize, usize), n: int) -> bool {
    rg.0 <= rg.1 && rg.1 <= n
}

/// The pieces of `s[from..to]` split at `c`, each given by its bounds in `s`.
pub fn split_ranges(s: &Vec<char>, from: usize, to: usize, c: char) -> (r: Vec<(usize, usize)>)
    requires
        from <= to <= s.len(),
    ensures
        r.len() == split_by(s@.subrange(from as int, to as int), c).len(),
        forall|k: int| 0 <= k < r.len() ==> #[trigger] bounds_ok(r@[k], s.len() as int),
        forall|k: int|
            0 <= k < r.len() ==> #[trigger] piece(s@, r@[k]) == split_by(
                s@.subrange(from as int, to as int),
                c,
            )[k],
{
    let ghost whole = split_by(s@.subrange(from as int, to as int), c);
    let ghost mut done: Seq<Seq<char>> = Seq::empty();
    let mut r: Vec<(usize, usize)> = Vec::new();
    let mut p = from;
    assert(whole =~= done + split_by(s@.subrange(p as int, to as int), c));
    loop
        invariant_except_break
            whole == done + split_by(s@.subrange(p as int, to as int), c),
            r.len() == done.len(),
            forall|k: int| 0 <= k < r.len() ==> #[trigger] bounds_ok(r@[k], s.len() as int),
            forall|k: int| 0 <= k < r.len() ==> #[trigger] piece(s@, r@[k]) == done[k],
        invariant
            from <= p <= to <= s.len(),
            whole == split_by(s@.subrange(from as int, to as int), c),
        ensures
            r.len() == whole.len(),
            forall|k: int| 0 <= k < r.len() ==> #[trigger] bounds_ok(r@[k], s.len() as int),
            forall|k: int| 0 <= k < r.len() ==> #[trigger] piece(s@, r@[k]) == whole[k],
        decreases to - p,
    {
        let ghost t = s@.subrange(p as int, to as int);
        let ghost r0 = r@;
        let ghost d0 = done;
        match find_char_range(s, p, to, c) {
            None => {
                r.push((p, to));
                proof {
                    assert(split_by(t, c) == seq![t]);
                    done = done.push(t);
                    assert(whole =~= done);
                    assert forall|j: int| 0 <= j < r.len() implies #[trigger] piece(s@, r@[j])
                        == done[j] by {
                        if j < d0.len() {
                            assert(done[j] == d0[j]);
                            assert(r@[j] == r0[j]);
                        }
                    }
                    assert forall|j: int| 0 <= j < r.len() implies #[trigger] bounds_ok(
                        r@[j],
                        s.len() as int,
                    ) by {
                        if j < d0.len() {
                            assert(r@[j] == r0[j]);
                        }
                    }
                }
                break;
            },
            Some(k) => {
                r.push((p, k));
                proof {
                    let i = k - p;
                    assert(split_by(t, c) == seq![t.take(i)] + split_by(t.skip(i + 1), c));
                    assert(t.take(i) =~= s@.subrange(p as int, k as int));
                    assert(t.skip(i + 1) =~= s@.subrange(k + 1, to as int));
                    done = done.push(t.take(i));
                    assert(whole =~= done + split_by(s@.subrange(k + 1, to as int), c));
                    assert forall|j: int| 0 <= j < r.len() implies #[trigger] piece(s@, r@[j])
                        == done[j] by {
                        if j < d0.len() {
                            assert(done[j] == d0[j]);
                            assert(r@[j] == r0[j]);
                        }
                    }
                    assert forall|j: int| 0 <= j < r.len() implies #[trigger] bounds_ok(
                        r@[j],
                        s.len() as int,
                    ) by {
                        if j < d0.len() {
                            assert(r@[j] == r0[j]);
                        }
                    }
                }
                p = k + 1;
            },
        }
    }
    r
}

/// `pat` occurs in `s` at position `i`.
pub open spec fn occurs_at(s: Seq<char>, pat: Seq<char>, i: int) -> bool {
    0 <= i && i + pat.len() <= s.len() && s.subrange(i, i + pat.len()) == pat
}

/// `str::contains` for a string pattern.
pub open spec fn contains_seq(s: Seq<char>, pat: Seq<char>) -> bool {
    exists|i: int| occurs_at(s, pat, i)
}

/// `str::replace`: every occurrence of `pat`, taken from left to right without
/// overlap, replaced by `rep`.
pub open spec fn replace_all(s: Seq<char>, pat: Seq<char>, rep: Seq<char>) -> Seq<char>
    recommends
        pat.len() > 0,
    decreases s.len(),
{
    if s.len() == 0 || pat.len() == 0 {
        s
    } else if occurs_at(s, pat, 0) {
        rep + replace_all(s.skip(pat.len() as int), pat, rep)
    } else {
        seq![s[0]] + replace_all(s.drop_first(), pat, rep)
    }
}

/// A text without the pattern's first character has nothing to replace.
pub proof fn lemma_replace_absent(s: Seq<char>, pat: Seq<char>, rep: Seq<char>)
    requires
        pat.len() > 0,
        forall|i: int| 0 <= i < s.len() ==> s[i] != pat[0],
    ensures
        replace_all(s, pat, rep) == s,
    decreases s.len(),
{
    if s.len() > 0 {
        if occurs_at(s, pat, 0) {
            assert(s.subrange(0, pat.len() as int)[0] == s[0]);
        }
        lemma_replace_absent(s.drop_first(), pat, rep);
        assert(seq![s[0]] + s.drop_first() =~= s);
    }
}

/// A front part without the pattern's first character is kept as it is.
pub proof fn lemma_replace_keeps_front(a: Seq<char>, b: Seq<char>, pat: Seq<char>, rep: Seq<char>)
    requires
        pat.len() > 0,
        forall|i: int| 0 <= i < a.len() ==> a[i] != pat[0],
    ensures
        replace_all(a + b, pat, rep) == a + replace_all(b, pat, rep),
    decreases a.len(),
{
    if a.len() == 0 {
        assert(a + b =~= b);
        assert(a + replace_all(b, pat, rep) =~= replace_all(b, pat, rep));
    } else {
        let s = a + b;
        if occurs_at(s, pat, 0) {
            assert(s.subrange(0, pat.len() as int)[0] == s[0]);
        }
        assert(s.drop_first() =~= a.drop_first() + b);
        lemma_replace_keeps_front(a.drop_first(), b, pat, rep);
        assert(seq![a[0]] + (a.drop_first() + replace_all(b, pat, rep)) =~= a + replace_all(
            b,
            pat,
            rep,
        ));
    }
}

/// An occurrence of the pattern at the front is replaced.
pub proof fn lemma_replace_front(b: Seq<char>, pat: Seq<char>, rep: Seq<char>)
    requires
        pat.len() > 0,
    ensures
        replace_all(pat + b, pat, rep) == rep + replace_all(b, pat, rep),
{
    let s = pat + b;
    assert(s.subrange(0, pat.len() as int) =~= pat);
    assert(s.skip(pat.len() as int) =~= b);
}

pub fn occurs_at_exec(s: &Vec<char>, pat: &[char], i: usize) -> (r: bool)
    ensures
        r == occurs_at(s@, pat@, i as int),
{
    if i > s.len() || pat.len() > s.len() - i {
        return false;
    }
    let mut k: usize = 0;
    while k < pat.len()
        invariant
            i + pat.len() <= s.len(),
            k <= pat.len(),
            forall|j: int| 0 <= j < k ==> s@[i + j] == pat@[j],
        decreases pat.len() - k,
    {
        if s[i + k] != pat[k] {
            assert(s@.subrange(i as int, i + pat.len())[k as int] != pat@[k as int]);
            return false;
        }
        k = k + 1;
    }
    assert(s@.subrange(i as int, i + pat.len()) =~= pat@);
    true
}

pub fn contains_exec(s: &Vec<char>, pat: &[char]) -> (r: bool)
    ensures
        r == contains_seq(s@, pat@),
{
    let mut i: usize = 0;
    while i < s.len()
        invariant
            i <= s.len(),
            forall|j: int| 0 <= j < i ==> !occurs_at(s@, pat@, j),
        decreases s.len() - i,
    {
        if occurs_at_exec(s, pat, i) {
            return true;
        }
        i = i + 1;
    }
    if occurs_at_exec(s, pat, i) {
        return true;
    }
    assert forall|j: int| !occurs_at(s@, pat@, j) by {
        if j > s.len() {
        }
    }
    false
}

pub fn replace_exec(s: &Vec<char>, pat: &[char], rep: &[char]) -> (r: Vec<char>)
    requires
        pat.len() > 0,
    ensures
        r@ == replace_all(s@, pat@, rep@),
{
    let mut r: Vec<char> = Vec::new();
    let mut i: usize = 0;
    assert(s@.skip(0) =~= s@);
    while i < s.len()
        invariant
            i <= s.len(),
            pat.len() > 0,
            replace_all(s@, pat@, rep@) == r@ + replace_all(s@.skip(i as int), pat@, rep@),
        decreases s.len() - i,
    {
        let ghost t = s@.skip(i as int);
        if occurs_at_exec(s, pat, i) {
            assert(t.subrange(0, pat@.len() as int) =~= s@.subrange(i as int, i + pat.len()));
            assert(t.skip(pat.len() as int) =~= s@.skip(i + pat.len()));
            let mut k: usize = 0;
            let ghost r0 = r@;
            while k < rep.len()
                invariant
                    k <= rep.len(),
                    r@ == r0 + rep@.take(k as int),
                decreases rep.len() - k,
            {
                r.push(rep[k]);
                assert(rep@.take(k + 1) =~= rep@.take(k as int).push(rep@[k as int]));
                k = k + 1;
            }
            assert(rep@.take(rep.len() as int) =~= rep@);
            assert(r@ + replace_all(s@.skip(i + pat.len()), pat@, rep@) =~= r0 + (rep@
                + replace_all(t.skip(pat.len() as int), pat@, rep@)));
            i = i + pat.len();
        } else {
            assert(!occurs_at(t, pat@, 0)) by {
                if occurs_at(t, pat@, 0) {
                    assert(t.subrange(0, pat@.len() as int) =~= s@.subrange(
                        i as int,
                        i + pat.len(),
                    ));
                }
            }
            let ghost r0 = r@;
            r.push(s[i]);
            assert(t.drop_first() =~= s@.skip(i + 1));
            assert(r@ + replace_all(s@.skip(i + 1), pat@, rep@) =~= r0 + (seq![t[0]]
                + replace_all(t.drop_first(), pat@, rep@)));
            i = i + 1;
        }
    }
    assert(s@.skip(i as int) =~= Seq::<char>::empty());
    assert(r@ + Seq::<char>::empty() =~= r@);
    r
}

} // verus!
