//! Text as sequences of characters: searching and splicing.
use vstd::prelude::*;

verus! {

/// `String::push` appends one character at the end of the string.
pub assume_specification[ String::push ](s: &mut String, c: char)
    ensures
        final(s)@ == old(s)@.push(c),
;

/// `==` on string slices compares their characters.
pub assume_specification[ <str as PartialEq>::eq ](a: &str, b: &str) -> (r: bool)
    ensures
        r == (a@ == b@),
;

/// Is `a` the same text as `b`?
pub fn same_text(a: &str, b: &str) -> (r: bool)
    ensures
        r == (a@ == b@),
{
    *a == *b
}

// ─── Searching ────────────────────────────────────────────────────────────────

/// Does `pat` stand in `s` at position `i`?
pub open spec fn matches_at(s: Seq<char>, pat: Seq<char>, i: int) -> bool {
    &&& 0 <= i
    &&& i + pat.len() <= s.len()
    &&& s.subrange(i, i + pat.len()) == pat
}

/// Is `i` the first position of `pat` in `s[from..to]`?
pub open spec fn is_first_match(
    s: Seq<char>,
    pat: Seq<char>,
    from: int,
    to: int,
    i: int,
) -> bool {
    &&& from <= i
    &&& i + pat.len() <= to
    &&& matches_at(s, pat, i)
    &&& forall|j: int| from <= j < i ==> !#[trigger] matches_at(s, pat, j)
}

/// The first position of `pat` in `s[from..to]`, if there is one.
pub open spec fn find_in(s: Seq<char>, pat: Seq<char>, from: int, to: int) -> Option<int> {
    if exists|i: int| is_first_match(s, pat, from, to, i) {
        Some(choose|i: int| is_first_match(s, pat, from, to, i))
    } else {
        None
    }
}

/// The first position of `pat` in `s`, if there is one.
pub open spec fn find(s: Seq<char>, pat: Seq<char>) -> Option<int> {
    find_in(s, pat, 0, s.len() as int)
}

/// Is `i` the last position of `pat` in `s[..to]`?
pub open spec fn is_last_match(s: Seq<char>, pat: Seq<char>, to: int, i: int) -> bool {
    &&& 0 <= i
    &&& i + pat.len() <= to
    &&& matches_at(s, pat, i)
    &&& forall|j: int| i < j <= to - pat.len() ==> !#[trigger] matches_at(s, pat, j)
}

/// The last position of `pat` in `s[..to]`, if there is one.
pub open spec fn rfind_in(s: Seq<char>, pat: Seq<char>, to: int) -> Option<int> {
    if exists|i: int| is_last_match(s, pat, to, i) {
        Some(choose|i: int| is_last_match(s, pat, to, i))
    } else {
        None
    }
}

/// Does `pat` occur anywhere in `s`?
pub open spec fn occurs(s: Seq<char>, pat: Seq<char>) -> bool {
    exists|i: int| matches_at(s, pat, i)
}

/// How often `pat` occurs in `s[from..]`, counting from left to right without overlap.
pub open spec fn count_from(s: Seq<char>, pat: Seq<char>, from: int) -> nat
    recommends
        pat.len() > 0,
    decreases s.len() - from,
{
    match find_in(s, pat, from, s.len() as int) {
        Some(i) => if from <= i < s.len() && pat.len() > 0 {
            1 + count_from(s, pat, i + pat.len())
        } else {
            0
        },
        None => 0,
    }
}

/// `s` with `s[from..to]` replaced by `new`.
pub open spec fn splice(s: Seq<char>, from: int, to: int, new: Seq<char>) -> Seq<char> {
    s.subrange(0, from) + new + s.subrange(to, s.len() as int)
}

/// What `find_in` finds is the first match, and it finds one wherever there is one.
pub proof fn lemma_find_in(s: Seq<char>, pat: Seq<char>, from: int, to: int)
    ensures
        find_in(s, pat, from, to) matches Some(i) ==> is_first_match(s, pat, from, to, i),
        find_in(s, pat, from, to) is None ==> forall|j: int|
            from <= j && j + pat.len() <= to ==> !#[trigger] matches_at(s, pat, j),
{
    if find_in(s, pat, from, to) is None {
        assert forall|j: int| from <= j && j + pat.len() <= to implies !#[trigger] matches_at(
            s,
            pat,
            j,
        ) by {
            if matches_at(s, pat, j) {
                lemma_first_exists(s, pat, from, to, j);
            }
        }
    }
}

proof fn lemma_first_exists(s: Seq<char>, pat: Seq<char>, from: int, to: int, j: int)
    requires
        from <= j,
        j + pat.len() <= to,
        matches_at(s, pat, j),
    ensures
        exists|i: int| is_first_match(s, pat, from, to, i),
    decreases j - from,
{
    if exists|k: int| from <= k < j && matches_at(s, pat, k) {
        let k = choose|k: int| from <= k < j && matches_at(s, pat, k);
        lemma_first_exists(s, pat, from, to, k);
    } else {
        assert(is_first_match(s, pat, from, to, j));
    }
}

/// A first match is the position that `find_in` names.
pub proof fn lemma_first_is_found(s: Seq<char>, pat: Seq<char>, from: int, to: int, i: int)
    requires
        is_first_match(s, pat, from, to, i),
    ensures
        find_in(s, pat, from, to) == Some(i),
{
    let c = choose|c: int| is_first_match(s, pat, from, to, c);
    assert(is_first_match(s, pat, from, to, c));
    if c < i {
        assert(!matches_at(s, pat, c));
    } else if i < c {
        assert(!matches_at(s, pat, i));
    }
}

/// A last match is the position that `rfind_in` names.
pub proof fn lemma_last_is_found(s: Seq<char>, pat: Seq<char>, to: int, i: int)
    requires
        is_last_match(s, pat, to, i),
    ensures
        rfind_in(s, pat, to) == Some(i),
{
    let c = choose|c: int| is_last_match(s, pat, to, c);
    assert(is_last_match(s, pat, to, c));
    if c < i {
        assert(!matches_at(s, pat, i));
    } else if i < c {
        assert(!matches_at(s, pat, c));
    }
}

/// How many bytes a character takes in UTF-8.
pub open spec fn utf8_width(c: char) -> nat {
    if c <= '\u{7f}' {
        1
    } else if c <= '\u{7ff}' {
        2
    } else if c <= '\u{ffff}' {
        3
    } else {
        4
    }
}

/// How many bytes a text takes in UTF-8.
pub open spec fn utf8_len(s: Seq<char>) -> nat
    decreases s.len(),
{
    if s.len() == 0 {
        0
    } else {
        utf8_len(s.drop_last()) + utf8_width(s.last())
    }
}

/// How many bytes a character takes in UTF-8.
pub fn width_of(c: char) -> (r: usize)
    ensures
        r == utf8_width(c),
{
    if c <= '\u{7f}' {
        1
    } else if c <= '\u{7ff}' {
        2
    } else if c <= '\u{ffff}' {
        3
    } else {
        4
    }
}

/// The characters of `s`, in order.
pub fn chars_of(s: &str) -> (r: Vec<char>)
    ensures
        r@ == s@,
{
    let mut out: Vec<char> = Vec::new();
    for c in it: s.chars()
        invariant
            out@ == it.seq().take(it.index() as int),
            it.seq() == s@,
    {
        out.push(c);
    }
    out
}

/// The text made of the characters `v[from..to]`.
pub fn text_of(v: &Vec<char>, from: usize, to: usize) -> (r: String)
    requires
        from <= to <= v@.len(),
    ensures
        r@ == v@.subrange(from as int, to as int),
{
    let mut out = String::new();
    push_range(&mut out, v, from, to);
    assert(out@ =~= v@.subrange(from as int, to as int));
    out
}

/// Appends the characters `v[from..to]` to `out`.
pub fn push_range(out: &mut String, v: &Vec<char>, from: usize, to: usize)
    requires
        from <= to <= v@.len(),
    ensures
        final(out)@ == old(out)@ + v@.subrange(from as int, to as int),
{
    let mut i: usize = from;
    while i < to
        invariant
            from <= i <= to <= v@.len(),
            out@ == old(out)@ + v@.subrange(from as int, i as int),
        decreases to - i,
    {
        out.push(v[i]);
        i = i + 1;
    }
}

/// Does `pat` stand in `s` at position `i`?
pub fn is_match_at(s: &Vec<char>, pat: &Vec<char>, i: usize) -> (r: bool)
    ensures
        r == matches_at(s@, pat@, i as int),
{
    if i > s.len() || pat.len() > s.len() - i {
        return false;
    }
    let len = s.len();
    let mut k: usize = 0;
    while k < pat.len()
        invariant
            0 <= k <= pat@.len(),
            len == s@.len(),
            i + pat@.len() <= len,
            forall|m: int| 0 <= m < k ==> s@[i + m] == pat@[m],
        decreases pat@.len() - k,
    {
        if s[i + k] != pat[k] {
            assert(s@.subrange(i as int, i + pat@.len())[k as int] != pat@[k as int]);
            return false;
        }
        k = k + 1;
    }
    assert(s@.subrange(i as int, i + pat@.len()) =~= pat@);
    true
}

/// The first position of `pat` in `s[from..to]`, if there is one.
pub fn find_from(s: &Vec<char>, pat: &Vec<char>, from: usize, to: usize) -> (r: Option<usize>)
    requires
        from <= to <= s@.len(),
    ensures
        r matches Some(i) ==> find_in(s@, pat@, from as int, to as int) == Some(i as int),
        r is None ==> find_in(s@, pat@, from as int, to as int) is None,
{
    let mut i: usize = from;
    while i <= to && pat.len() <= to - i
        invariant
            from <= i <= to + 1,
            to <= s@.len(),
            forall|j: int| from <= j < i ==> !#[trigger] matches_at(s@, pat@, j),
        decreases to + 1 - i,
    {
        if is_match_at(s, pat, i) {
            proof {
                lemma_first_is_found(s@, pat@, from as int, to as int, i as int);
            }
            return Some(i);
        }
        if i == to {
            proof {
                assert forall|j: int| from <= j && j + pat@.len()
                    <= to implies !#[trigger] matches_at(s@, pat@, j) by {}
                lemma_find_in(s@, pat@, from as int, to as int);
            }
            return None;
        }
        i = i + 1;
    }
    proof {
        lemma_find_in(s@, pat@, from as int, to as int);
    }
    None
}

/// The last position of `pat` in `s[..to]`, if there is one.
pub fn rfind_to(s: &Vec<char>, pat: &Vec<char>, to: usize) -> (r: Option<usize>)
    requires
        to <= s@.len(),
    ensures
        r matches Some(i) ==> rfind_in(s@, pat@, to as int) == Some(i as int),
        r is None ==> rfind_in(s@, pat@, to as int) is None,
{
    if pat.len() > to {
        return None;
    }
    let mut i: usize = to - pat.len();
    loop
        invariant
            pat@.len() <= to <= s@.len(),
            0 <= i <= to - pat@.len(),
            forall|j: int| i < j <= to - pat@.len() ==> !#[trigger] matches_at(s@, pat@, j),
        decreases i,
    {
        if is_match_at(s, pat, i) {
            proof {
                lemma_last_is_found(s@, pat@, to as int, i as int);
            }
            return Some(i);
        }
        if i == 0 {
            return None;
        }
        i = i - 1;
    }
}

/// How often `pat` occurs in `s`, counting from left to right without overlap.
pub fn count_matches(s: &Vec<char>, pat: &Vec<char>) -> (n: usize)
    requires
        pat@.len() > 0,
    ensures
        n == count_from(s@, pat@, 0),
        n <= s@.len(),
{
    let mut n: usize = 0;
    let mut pos: usize = 0;
    loop
        invariant
            pat@.len() > 0,
            n <= pos <= s@.len(),
            n + count_from(s@, pat@, pos as int) == count_from(s@, pat@, 0),
        decreases s@.len() - pos,
    {
        proof {
            lemma_find_in(s@, pat@, pos as int, s@.len() as int);
        }
        match find_from(s, pat, pos, s.len()) {
            Some(i) => {
                n = n + 1;
                pos = i + pat.len();
            },
            None => {
                return n;
            },
        }
    }
}

/// Does `pat` occur anywhere in `s`?
pub fn has_match(s: &Vec<char>, pat: &Vec<char>) -> (r: bool)
    ensures
        r == occurs(s@, pat@),
{
    let f = find_from(s, pat, 0, s.len());
    proof {
        lemma_find_in(s@, pat@, 0, s@.len() as int);
        if f is None && occurs(s@, pat@) {
            let i = choose|i: int| matches_at(s@, pat@, i);
            assert(matches_at(s@, pat@, i));
        }
    }
    f.is_some()
}

/// `before`, `middle` and `after` in one.
pub fn quoted(before: &str, middle: &str, after: &str) -> (r: String)
    ensures
        r@ == before@ + middle@ + after@,
{
    let mut out = before.to_owned();
    out.append(middle);
    out.append(after);
    out
}

/// `s` with `s[from..to]` replaced by `new`.
pub fn spliced(s: &Vec<char>, from: usize, to: usize, new: &str) -> (r: String)
    requires
        from <= to <= s@.len(),
    ensures
        r@ == splice(s@, from as int, to as int, new@),
{
    let mut out = text_of(s, 0, from);
    out.append(new);
    push_range(&mut out, s, to, s.len());
    out
}

/// What stands between two texts occurs in the whole.
pub proof fn lemma_occurs_between(a: Seq<char>, b: Seq<char>, c: Seq<char>)
    ensures
        occurs(a + b + c, b),
{
    let s = a + b + c;
    assert(s.subrange(a.len() as int, a.len() as int + b.len()) =~= b);
    assert(matches_at(s, b, a.len() as int));
}

} // verus!
