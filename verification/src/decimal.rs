//! Decimal numbers in text: writing integers, reading them back, and telling
//! whether a text is a number at all.
use vstd::prelude::*;

verus! {

/// Is `c` one of `0` to `9`?
pub open spec fn is_digit(c: char) -> bool {
    '0' <= c <= '9'
}

/// The value of a decimal digit.
pub open spec fn digit_value(c: char) -> nat {
    (c as int - '0' as int) as nat
}

/// The character that writes the digit `d`.
pub open spec fn digit_char(d: nat) -> char {
    ((48 + d) as u8) as char
}

/// `n` in decimal, without leading zeros.
pub open spec fn decimal(n: nat) -> Seq<char>
    decreases n,
{
    if n < 10 {
        seq![digit_char(n)]
    } else {
        decimal(n / 10).push(digit_char(n % 10))
    }
}

/// `n` in decimal, with a leading `-` where it is negative.
pub open spec fn signed_decimal(n: int) -> Seq<char> {
    if n < 0 {
        seq!['-'] + decimal((-n) as nat)
    } else {
        decimal(n as nat)
    }
}

/// Is `s` made of digits only?
pub open spec fn all_digits(s: Seq<char>) -> bool {
    forall|i: int| 0 <= i < s.len() ==> is_digit(#[trigger] s[i])
}

/// The number that a run of digits writes.
pub open spec fn digits_value(s: Seq<char>) -> nat
    decreases s.len(),
{
    if s.len() == 0 {
        0
    } else {
        10 * digits_value(s.drop_last()) + digit_value(s.last())
    }
}

/// The number that `s` writes with digits alone, if it does and is at most `max`.
pub open spec fn read_digits(s: Seq<char>, max: nat) -> Option<nat> {
    if s.len() > 0 && all_digits(s) && digits_value(s) <= max {
        Some(digits_value(s))
    } else {
        None
    }
}

/// The unsigned number that `s` writes: digits, after a `+` or nothing.
pub open spec fn read_unsigned(s: Seq<char>, max: nat) -> Option<nat> {
    if s.len() > 0 && s[0] == '+' {
        read_digits(s.skip(1), max)
    } else {
        read_digits(s, max)
    }
}

/// The 32-bit signed number that `s` writes: digits, after a sign or nothing.
pub open spec fn read_i32(s: Seq<char>) -> Option<int> {
    if s.len() > 0 && s[0] == '-' {
        match read_digits(s.skip(1), 0x8000_0000) {
            Some(n) => Some(-(n as int)),
            None => None,
        }
    } else {
        match read_unsigned(s, 0x7fff_ffff) {
            Some(n) => Some(n as int),
            None => None,
        }
    }
}

/// Where the run of digits that begins at `i` ends.
pub open spec fn digit_run(s: Seq<char>, i: int) -> int
    decreases s.len() - i,
{
    if 0 <= i < s.len() && is_digit(s[i]) {
        digit_run(s, i + 1)
    } else {
        i
    }
}

/// The position after a sign at `i`, or `i` where there is none.
pub open spec fn after_sign(s: Seq<char>, i: int) -> int {
    if 0 <= i < s.len() && (s[i] == '+' || s[i] == '-') {
        i + 1
    } else {
        i
    }
}

/// Is `s[i..]` empty, or `e`, a sign or nothing, and digits?
pub open spec fn is_exponent(s: Seq<char>, i: int) -> bool {
    ||| i == s.len()
    ||| {
        let a = after_sign(s, i + 1);
        &&& i < s.len()
        &&& s[i] == 'e' || s[i] == 'E'
        &&& a < digit_run(s, a)
        &&& digit_run(s, a) == s.len()
    }
}

/// Is `s[i..]` digits with at most one point among them, at least one digit, and
/// an exponent or nothing?
pub open spec fn is_decimal_number(s: Seq<char>, i: int) -> bool {
    let a = digit_run(s, i);
    if a < s.len() && s[a] == '.' {
        let b = digit_run(s, a + 1);
        (i < a || a + 1 < b) && is_exponent(s, b)
    } else {
        i < a && is_exponent(s, a)
    }
}

/// `c` with an ASCII capital made small.
pub open spec fn ascii_lower(c: char) -> char {
    if 'A' <= c <= 'Z' {
        ((c as u8 + 32) as u8) as char
    } else {
        c
    }
}

/// Is `s[i..]` the word `w`, whatever the case of its ASCII letters?
pub open spec fn is_word(s: Seq<char>, i: int, w: Seq<char>) -> bool {
    &&& s.len() - i == w.len()
    &&& forall|k: int| 0 <= k < w.len() ==> ascii_lower(#[trigger] s[i + k]) == w[k]
}

/// Is `s` a number in the notation that a floating-point number is read from: a
/// sign or nothing, then a decimal number, `inf`, `infinity` or `nan`?
pub open spec fn is_number(s: Seq<char>) -> bool {
    let i = after_sign(s, 0);
    ||| is_decimal_number(s, i)
    ||| is_word(s, i, seq!['i', 'n', 'f'])
    ||| is_word(s, i, seq!['i', 'n', 'f', 'i', 'n', 'i', 't', 'y'])
    ||| is_word(s, i, seq!['n', 'a', 'n'])
}

// ─── Facts ────────────────────────────────────────────────────────────────────

/// Decimal text is a run of digits, and it is not empty.
pub proof fn lemma_decimal_digits(n: nat)
    ensures
        decimal(n).len() > 0,
        all_digits(decimal(n)),
        digits_value(decimal(n)) == n,
    decreases n,
{
    assert forall|d: nat| d < 10 implies is_digit(#[trigger] digit_char(d)) && digit_value(
        digit_char(d),
    ) == d by {
        lemma_digit_char(d);
    }
    if n < 10 {
        assert(decimal(n) =~= seq![digit_char(n)]);
        assert(decimal(n).drop_last() =~= Seq::<char>::empty());
        reveal_with_fuel(digits_value, 2);
    } else {
        lemma_decimal_digits(n / 10);
        let p = decimal(n / 10);
        assert(decimal(n) == p.push(digit_char(n % 10)));
        assert(p.push(digit_char(n % 10)).drop_last() =~= p);
        assert(n == 10 * (n / 10) + n % 10);
    }
}

proof fn lemma_digit_char(d: nat)
    requires
        d < 10,
    ensures
        is_digit(digit_char(d)),
        digit_value(digit_char(d)) == d,
{
    assert(digit_char(d) as int == 48 + d);
}

/// Reading back what was written gives the number that was written.
pub proof fn lemma_read_unsigned_decimal(n: nat, max: nat)
    requires
        n <= max,
    ensures
        read_unsigned(decimal(n), max) == Some(n),
{
    lemma_decimal_digits(n);
    assert(is_digit(decimal(n)[0]));
}

/// A written number reads back as itself.
pub proof fn law_written_number_reads_back(n: int)
    requires
        -0x8000_0000 <= n <= 0x7fff_ffff,
    ensures
        read_i32(signed_decimal(n)) == Some(n),
{
    if n < 0 {
        lemma_decimal_digits((-n) as nat);
        assert(signed_decimal(n).skip(1) =~= decimal((-n) as nat));
    } else {
        lemma_decimal_digits(n as nat);
        lemma_read_unsigned_decimal(n as nat, 0x7fff_ffff);
        assert(is_digit(decimal(n as nat)[0]));
    }
}

proof fn lemma_value_grows(s: Seq<char>, k: int)
    requires
        0 <= k <= s.len(),
    ensures
        digits_value(s.take(k)) <= digits_value(s),
    decreases s.len() - k,
{
    if k < s.len() {
        lemma_value_grows(s, k + 1);
        assert(s.take(k + 1).drop_last() =~= s.take(k));
    } else {
        assert(s.take(k) =~= s);
    }
}

// ─── Writing ──────────────────────────────────────────────────────────────────

/// Appends `n` in decimal.
pub fn push_decimal(out: &mut String, n: u64)
    ensures
        final(out)@ == old(out)@ + decimal(n as nat),
    decreases n,
{
    if n < 10 {
        out.push((48 + n as u8) as char);
    } else {
        push_decimal(out, n / 10);
        let d: u64 = n % 10;
        out.push((48 + d as u8) as char);
    }
}

/// `n` in decimal, with a leading `-` where it is negative.
pub fn signed_decimal_text(n: i32) -> (r: String)
    ensures
        r@ == signed_decimal(n as int),
{
    let mut out = String::new();
    if n < 0 {
        out.push('-');
        push_decimal(&mut out, (-(n as i64)) as u64);
        assert(out@ =~= signed_decimal(n as int));
    } else {
        push_decimal(&mut out, n as u64);
        assert(out@ =~= signed_decimal(n as int));
    }
    out
}

// ─── Reading ──────────────────────────────────────────────────────────────────

/// Is `c` one of `0` to `9`?
pub fn is_digit_char(c: char) -> (r: bool)
    ensures
        r == is_digit(c),
{
    '0' <= c && c <= '9'
}

/// The number that `v[from..to]` writes with digits alone, if it does and is at most `max`.
pub fn parse_digits(v: &Vec<char>, from: usize, to: usize, max: u64) -> (r: Option<u64>)
    requires
        from <= to <= v@.len(),
    ensures
        r matches Some(n) ==> read_digits(v@.subrange(from as int, to as int), max as nat) == Some(
            n as nat,
        ),
        r is None ==> read_digits(v@.subrange(from as int, to as int), max as nat) is None,
{
    if from == to {
        return None;
    }
    let ghost s = v@.subrange(from as int, to as int);
    let mut i: usize = from;
    let mut n: u64 = 0;
    while i < to
        invariant
            from <= i <= to <= v@.len(),
            s == v@.subrange(from as int, to as int),
            n == digits_value(s.take(i - from)),
            n <= max,
            forall|k: int| 0 <= k < i - from ==> is_digit(#[trigger] s[k]),
        decreases to - i,
    {
        let c = v[i];
        let ghost k = i - from;
        assert(s[k] == c);
        if !is_digit_char(c) {
            return None;
        }
        let d: u64 = (c as u32 - 48) as u64;
        proof {
            assert(s.take(k + 1).drop_last() =~= s.take(k));
            assert(s.take(k + 1).last() == c);
            assert(digits_value(s.take(k + 1)) == 10 * n + d);
            lemma_value_grows(s, k + 1);
        }
        if n > max / 10 || d > max - n * 10 {
            return None;
        }
        n = n * 10 + d;
        i = i + 1;
    }
    proof {
        assert(s.take(to - from) =~= s);
    }
    Some(n)
}

/// The unsigned number that `v[from..to]` writes, if it does.
pub fn parse_unsigned(v: &Vec<char>, from: usize, to: usize) -> (r: Option<usize>)
    requires
        from <= to <= v@.len(),
    ensures
        r matches Some(n) ==> read_unsigned(
            v@.subrange(from as int, to as int),
            usize::MAX as nat,
        ) == Some(n as nat),
        r is None ==> read_unsigned(v@.subrange(from as int, to as int), usize::MAX as nat) is None,
{
    let start: usize = if from < to && v[from] == '+' {
        from + 1
    } else {
        from
    };
    proof {
        let s = v@.subrange(from as int, to as int);
        if from < to && v@[from as int] == '+' {
            assert(s.skip(1) =~= v@.subrange(from + 1, to as int));
        }
    }
    match parse_digits(v, start, to, usize::MAX as u64) {
        Some(n) => Some(n as usize),
        None => None,
    }
}

/// The 32-bit signed number that `v[from..to]` writes, if it does.
pub fn parse_i32(v: &Vec<char>, from: usize, to: usize) -> (r: Option<i32>)
    requires
        from <= to <= v@.len(),
    ensures
        r matches Some(n) ==> read_i32(v@.subrange(from as int, to as int)) == Some(n as int),
        r is None ==> read_i32(v@.subrange(from as int, to as int)) is None,
{
    let ghost s = v@.subrange(from as int, to as int);
    let signed: bool = from < to && (v[from] == '-' || v[from] == '+');
    let negative: bool = from < to && v[from] == '-';
    let start: usize = if signed {
        from + 1
    } else {
        from
    };
    proof {
        if signed {
            assert(s.skip(1) =~= v@.subrange(from + 1, to as int));
        }
    }
    let max: u64 = if negative {
        0x8000_0000
    } else {
        0x7fff_ffff
    };
    match parse_digits(v, start, to, max) {
        Some(n) => if negative {
            Some((-(n as i64)) as i32)
        } else {
            Some(n as i32)
        },
        None => None,
    }
}

// ─── Recognising ──────────────────────────────────────────────────────────────

fn digit_run_end(v: &Vec<char>, i: usize) -> (r: usize)
    requires
        i <= v@.len(),
    ensures
        r == digit_run(v@, i as int),
        i <= r <= v@.len(),
{
    let mut k: usize = i;
    while k < v.len() && is_digit_char(v[k])
        invariant
            i <= k <= v@.len(),
            digit_run(v@, i as int) == digit_run(v@, k as int),
        decreases v@.len() - k,
    {
        k = k + 1;
    }
    k
}

fn sign_end(v: &Vec<char>, i: usize) -> (r: usize)
    requires
        i <= v@.len(),
    ensures
        r == after_sign(v@, i as int),
        i <= r <= v@.len(),
{
    if i < v.len() && (v[i] == '+' || v[i] == '-') {
        i + 1
    } else {
        i
    }
}

fn exponent_at(v: &Vec<char>, i: usize) -> (r: bool)
    requires
        i <= v@.len(),
    ensures
        r == is_exponent(v@, i as int),
{
    if i == v.len() {
        return true;
    }
    if v[i] != 'e' && v[i] != 'E' {
        return false;
    }
    let a = sign_end(v, i + 1);
    let b = digit_run_end(v, a);
    a < b && b == v.len()
}

fn decimal_number_at(v: &Vec<char>, i: usize) -> (r: bool)
    requires
        i <= v@.len(),
    ensures
        r == is_decimal_number(v@, i as int),
{
    let a = digit_run_end(v, i);
    if a < v.len() && v[a] == '.' {
        let b = digit_run_end(v, a + 1);
        (i < a || a + 1 < b) && exponent_at(v, b)
    } else {
        i < a && exponent_at(v, a)
    }
}

/// `c` with an ASCII capital made small.
pub fn lower_ascii(c: char) -> (r: char)
    ensures
        r == ascii_lower(c),
{
    if 'A' <= c && c <= 'Z' {
        (c as u8 + 32) as char
    } else {
        c
    }
}

fn word_at(v: &Vec<char>, i: usize, w: &Vec<char>) -> (r: bool)
    requires
        i <= v@.len(),
    ensures
        r == is_word(v@, i as int, w@),
{
    let len = v.len();
    if len - i != w.len() {
        return false;
    }
    let mut k: usize = 0;
    while k < w.len()
        invariant
            len == v@.len(),
            i <= len,
            len - i == w@.len(),
            k <= w@.len(),
            forall|m: int| 0 <= m < k ==> ascii_lower(#[trigger] v@[i + m]) == w@[m],
        decreases w@.len() - k,
    {
        if lower_ascii(v[i + k]) != w[k] {
            assert(ascii_lower(v@[i + k as int]) != w@[k as int]);
            return false;
        }
        k = k + 1;
    }
    true
}

/// Is `v` a number in the notation that a floating-point number is read from?
pub fn number_text(v: &Vec<char>) -> (r: bool)
    ensures
        r == is_number(v@),
{
    let i = sign_end(v, 0);
    let inf: Vec<char> = vec!['i', 'n', 'f'];
    let infinity: Vec<char> = vec!['i', 'n', 'f', 'i', 'n', 'i', 't', 'y'];
    let nan: Vec<char> = vec!['n', 'a', 'n'];
    assert(inf@ =~= seq!['i', 'n', 'f']);
    assert(infinity@ =~= seq!['i', 'n', 'f', 'i', 'n', 'i', 't', 'y']);
    assert(nan@ =~= seq!['n', 'a', 'n']);
    decimal_number_at(v, i) || word_at(v, i, &inf) || word_at(v, i, &infinity) || word_at(
        v,
        i,
        &nan,
    )
}

// ─── Laws of numbers ──────────────────────────────────────────────────────────

proof fn lemma_digit_run(s: Seq<char>, i: int, n: int)
    requires
        0 <= i <= n <= s.len(),
        forall|k: int| i <= k < n ==> is_digit(#[trigger] s[k]),
        n < s.len() ==> !is_digit(s[n]),
    ensures
        digit_run(s, i) == n,
    decreases n - i,
{
    if i < n {
        assert(is_digit(s[i]));
        lemma_digit_run(s, i + 1, n);
    }
}

/// What a number may look like: a sign or nothing, digits with or without a point among or
/// before or behind them, and then nothing, or an `e`, a sign or nothing, and digits.
pub proof fn law_decimals_are_numbers(
    sign: Seq<char>,
    whole: Seq<char>,
    fraction: Option<Seq<char>>,
    exponent: Option<(char, Seq<char>, Seq<char>)>,
)
    requires
        sign.len() == 0 || sign == seq!['+'] || sign == seq!['-'],
        all_digits(whole),
        fraction matches Some(f) ==> all_digits(f) && whole.len() + f.len() > 0,
        fraction is None ==> whole.len() > 0,
        exponent matches Some((e, es, ed)) ==> (e == 'e' || e == 'E') && (es.len() == 0 || es
            == seq!['+'] || es == seq!['-']) && ed.len() > 0 && all_digits(ed),
    ensures
        is_number(
            sign + whole + (match fraction {
                Some(f) => seq!['.'] + f,
                None => Seq::empty(),
            }) + (match exponent {
                Some((e, es, ed)) => seq![e] + es + ed,
                None => Seq::empty(),
            }),
        ),
{
    let point = match fraction {
        Some(f) => seq!['.'] + f,
        None => Seq::<char>::empty(),
    };
    let power = match exponent {
        Some((e, es, ed)) => seq![e] + es + ed,
        None => Seq::<char>::empty(),
    };
    let s = sign + whole + point + power;
    let i = sign.len() as int;
    let a = i + whole.len();
    let b = a + point.len();
    let n = s.len() as int;
    assert forall|k: int| i <= k < a implies is_digit(#[trigger] s[k]) by {
        assert(s[k] == whole[k - i]);
    }
    assert(a < b ==> s[a] == '.');
    assert forall|k: int| a < k < b implies is_digit(#[trigger] s[k]) by {
        assert(s[k] == fraction->0[k - a - 1]);
    }
    if let Some((e, es, ed)) = exponent {
        assert(s[b] == e);
        let c = b + 1 + es.len();
        assert forall|k: int| c <= k < n implies is_digit(#[trigger] s[k]) by {
            assert(s[k] == ed[k - c]);
        }
        lemma_digit_run(s, c, n);
        if es.len() > 0 {
            assert(s[b + 1] == es[0]);
        } else {
            assert(is_digit(s[b + 1]));
        }
        assert(after_sign(s, b + 1) == c);
    }
    assert(is_exponent(s, b));
    lemma_digit_run(s, i, a);
    if a < b {
        lemma_digit_run(s, a + 1, b);
    }
    if sign.len() > 0 {
        assert(s[0] == sign[0]);
    } else if whole.len() > 0 {
        assert(is_digit(s[0]));
    }
    assert(after_sign(s, 0) == i);
    assert(is_decimal_number(s, i));
}

/// What no number is: a text without a character, and a text with a character that does not
/// occur in the writing of a number.
pub proof fn law_other_texts_are_no_numbers(s: Seq<char>, k: int)
    ensures
        s.len() == 0 ==> !is_number(s),
        0 <= k < s.len() && !is_digit(s[k]) && s[k] != '+' && s[k] != '-' && s[k] != '.' && !(
        ascii_lower(s[k]) == 'a' || ascii_lower(s[k]) == 'e' || ascii_lower(s[k]) == 'f'
            || ascii_lower(s[k]) == 'i' || ascii_lower(s[k]) == 'n' || ascii_lower(s[k]) == 't'
            || ascii_lower(s[k]) == 'y') ==> !is_number(s),
{
    let i = after_sign(s, 0);
    let w1 = seq!['i', 'n', 'f'];
    let w2 = seq!['i', 'n', 'f', 'i', 'n', 'i', 't', 'y'];
    let w3 = seq!['n', 'a', 'n'];
    lemma_run_bounds(s, i);
    let a = digit_run(s, i);
    if a < s.len() {
        lemma_run_bounds(s, a + 1);
        let b = digit_run(s, a + 1);
        if b < s.len() {
            lemma_run_bounds(s, after_sign(s, b + 1));
        }
        lemma_run_bounds(s, after_sign(s, a + 1));
    }
    if 0 <= k < s.len() && k >= i {
        if is_word(s, i, w1) {
            assert(ascii_lower(s[i + (k - i)]) == w1[k - i]);
        }
        if is_word(s, i, w2) {
            assert(ascii_lower(s[i + (k - i)]) == w2[k - i]);
        }
        if is_word(s, i, w3) {
            assert(ascii_lower(s[i + (k - i)]) == w3[k - i]);
        }
    }
}

proof fn lemma_run_bounds(s: Seq<char>, i: int)
    requires
        0 <= i <= s.len(),
    ensures
        i <= digit_run(s, i) <= s.len(),
        forall|k: int| i <= k < digit_run(s, i) ==> is_digit(#[trigger] s[k]),
    decreases s.len() - i,
{
    if i < s.len() && is_digit(s[i]) {
        lemma_run_bounds(s, i + 1);
    }
}

/// A number is read with a sign or without one, whatever zeros it begins with; one that is
/// too great, and a text with anything but digits behind its sign, is not.
pub proof fn law_reading_of_whole_numbers(digits: Seq<char>)
    requires
        digits.len() > 0,
        all_digits(digits),
    ensures
        digits_value(digits) <= 0x7fff_ffff ==> read_i32(digits) == Some(digits_value(digits) as int)
            && read_i32(seq!['+'] + digits) == Some(digits_value(digits) as int),
        digits_value(digits) <= 0x8000_0000 ==> read_i32(seq!['-'] + digits) == Some(
            -(digits_value(digits) as int),
        ),
        digits_value(digits) > 0x7fff_ffff ==> read_i32(digits) is None,
        digits_value(digits) > 0x8000_0000 ==> read_i32(seq!['-'] + digits) is None,
        digits_value(seq!['0'] + digits) == digits_value(digits),
{
    assert(is_digit(digits[0]));
    assert((seq!['+'] + digits).skip(1) =~= digits);
    assert((seq!['-'] + digits).skip(1) =~= digits);
    lemma_leading_zero(digits);
}

proof fn lemma_leading_zero(digits: Seq<char>)
    ensures
        digits_value(seq!['0'] + digits) == digits_value(digits),
    decreases digits.len(),
{
    let s = seq!['0'] + digits;
    if digits.len() == 0 {
        assert(s =~= seq!['0']);
        assert(s.drop_last() =~= Seq::<char>::empty());
        assert(digits_value(s.drop_last()) == 0);
        assert(s.last() == '0');
        assert(digit_value('0') == 0);
    } else {
        assert(s.drop_last() =~= seq!['0'] + digits.drop_last());
        lemma_leading_zero(digits.drop_last());
    }
}

/// Each digit counts ten times the next.
pub proof fn law_digits_are_decimal(digits: Seq<char>, d: char)
    ensures
        digits_value(digits.push(d)) == 10 * digits_value(digits) + digit_value(d),
        digits_value(Seq::empty()) == 0,
        is_digit(d) ==> digit_value(d) == d as int - 48,
{
    assert(digits.push(d).drop_last() =~= digits);
}

/// A number is written with digits that have its value, and with no zero before them.
pub proof fn law_written_without_leading_zeros(n: nat)
    ensures
        all_digits(decimal(n)),
        decimal(n).len() > 0,
        digits_value(decimal(n)) == n,
        n > 0 ==> decimal(n)[0] != '0',
        n == 0 ==> decimal(n) == seq!['0'],
    decreases n,
{
    lemma_decimal_digits(n);
    if n >= 10 {
        law_written_without_leading_zeros(n / 10);
        assert(decimal(n)[0] == decimal(n / 10)[0]);
    } else {
        lemma_digit_char(n);
        assert(decimal(n)[0] == digit_char(n));
        assert(digit_value('0') == 0);
        if n == 0 {
            assert(digit_char(0) as int == 48);
            assert(decimal(0) =~= seq!['0']);
        }
    }
}

} // verus!
