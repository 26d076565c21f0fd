//! Annotation: giving a number to every symbol of a schematic whose reference still
//! ends in `?`.
use vstd::prelude::*;
use crate::decimal::{
    decimal, digits_value, is_digit, lemma_decimal_digits, lemma_read_unsigned_decimal,
    parse_unsigned, push_decimal, read_unsigned,
};
use crate::text::{
    chars_of, find_from, find_in, is_first_match, lemma_find_in, lemma_first_is_found, matches_at,
    push_range, splice, text_of, utf8_len, utf8_width, width_of,
};

verus! {

/// Is a character outside ASCII alphabetic?
pub uninterp spec fn alphabetic(c: char) -> bool;

/// Is a character a letter: in ASCII one of `a` to `z` and `A` to `Z`?
pub open spec fn is_letter(c: char) -> bool {
    'a' <= c <= 'z' || 'A' <= c <= 'Z' || (c > '\u{7f}' && alphabetic(c))
}

/// `char::is_alphabetic` tells whether a character has the Unicode property
/// `Alphabetic`. In ASCII those are the letters; which of the others have it depends
/// on the character alone.
pub assume_specification[ char::is_alphabetic ](c: char) -> (r: bool)
    ensures
        r == is_letter(c),
        r == alphabetic(c) || c <= '\u{7f}',
;

// ─── The references of a schematic ────────────────────────────────────────────

/// The places from `from` on where a reference stands between quotes, each from its
/// first character to its closing quote.
pub open spec fn references_from(s: Seq<char>, from: int) -> Seq<(int, int)>
    decreases s.len() - from,
{
    match find_in(s, "(reference \""@, from, s.len() as int) {
        Some(i) => if from <= i && i + 12 < s.len() {
            let rest = references_from(s, i + 13);
            match find_in(s, "\""@, i + 12, s.len() as int) {
                Some(end) => seq![(i + 12, end)] + rest,
                None => rest,
            }
        } else {
            Seq::empty()
        },
        None => Seq::empty(),
    }
}

/// Is something written in one byte behind the opening quote of every reference from
/// `from` on?
pub open spec fn is_readable(s: Seq<char>, from: int) -> bool
    decreases s.len() - from,
{
    match find_in(s, "(reference \""@, from, s.len() as int) {
        Some(i) => if from <= i < s.len() {
            i + 12 < s.len() && utf8_width(s[i + 12]) == 1 && is_readable(s, i + 13)
        } else {
            true
        },
        None => true,
    }
}

/// The text of a reference.
pub open spec fn text_at(s: Seq<char>, place: (int, int)) -> Seq<char> {
    s.subrange(place.0, place.1)
}

/// Where the letters and `#` at the beginning of a reference end.
pub open spec fn letters_end(t: Seq<char>, i: int) -> int
    decreases t.len() - i,
{
    if 0 <= i < t.len() && (is_letter(t[i]) || t[i] == '#') {
        letters_end(t, i + 1)
    } else {
        i
    }
}

/// The letters and `#` at the beginning of a reference.
pub open spec fn prefix_of(t: Seq<char>) -> Seq<char> {
    t.take(letters_end(t, 0))
}

/// The number in a reference: what follows as many characters as its prefix has bytes.
pub open spec fn number_of(t: Seq<char>) -> Option<nat> {
    let skipped = utf8_len(prefix_of(t));
    read_unsigned(
        t.skip(if skipped <= t.len() {
            skipped as int
        } else {
            t.len() as int
        }),
        usize::MAX as nat,
    )
}

/// Is a reference still without a number?
pub open spec fn is_unnumbered(t: Seq<char>) -> bool {
    t.len() > 0 && t.last() == '?'
}

/// A text without the question marks at its end.
pub open spec fn without_marks(t: Seq<char>) -> Seq<char>
    decreases t.len(),
{
    if t.len() > 0 && t.last() == '?' {
        without_marks(t.drop_last())
    } else {
        t
    }
}

/// The number after the highest one that is used with a prefix, if any is.
pub open spec fn next_used(s: Seq<char>, places: Seq<(int, int)>, prefix: Seq<char>) -> Option<nat>
    decreases places.len(),
{
    if places.len() == 0 {
        None
    } else {
        let before = next_used(s, places.drop_last(), prefix);
        let t = text_at(s, places.last());
        match number_of(t) {
            Some(n) => if prefix_of(t) == prefix {
                match before {
                    Some(b) => if n >= b {
                        Some(n + 1)
                    } else {
                        Some(b)
                    },
                    None => Some(n + 1),
                }
            } else {
                before
            },
            None => before,
        }
    }
}

/// How many of the references want a number for a prefix.
pub open spec fn wanted(s: Seq<char>, places: Seq<(int, int)>, prefix: Seq<char>) -> nat
    decreases places.len(),
{
    if places.len() == 0 {
        0
    } else {
        let t = text_at(s, places.last());
        wanted(s, places.drop_last(), prefix) + (if is_unnumbered(t) && without_marks(t) == prefix {
            1nat
        } else {
            0
        })
    }
}

/// The first number that is given out for a prefix.
pub open spec fn first_free(s: Seq<char>, places: Seq<(int, int)>, prefix: Seq<char>) -> nat {
    match next_used(s, places, prefix) {
        Some(n) => n,
        None => 1,
    }
}

/// The number that is given to the reference at place `k`.
pub open spec fn given_number(s: Seq<char>, places: Seq<(int, int)>, k: int) -> nat {
    let prefix = without_marks(text_at(s, places[k]));
    first_free(s, places, prefix) + wanted(s, places.take(k), prefix)
}

/// The reference that is written at place `k`.
pub open spec fn new_reference(s: Seq<char>, places: Seq<(int, int)>, k: int) -> Seq<char> {
    without_marks(text_at(s, places[k])) + decimal(given_number(s, places, k))
}

/// Where the last of the first `n` references ends that get a number.
pub open spec fn done_to(s: Seq<char>, places: Seq<(int, int)>, n: int) -> int
    decreases n,
{
    if n <= 0 {
        0
    } else if is_unnumbered(text_at(s, places[n - 1])) {
        places[n - 1].1
    } else {
        done_to(s, places, n - 1)
    }
}

/// The schematic up to there, with those references numbered.
pub open spec fn numbered_to(s: Seq<char>, places: Seq<(int, int)>, n: int) -> Seq<char>
    decreases n,
{
    if n <= 0 {
        Seq::empty()
    } else if is_unnumbered(text_at(s, places[n - 1])) {
        numbered_to(s, places, n - 1) + s.subrange(done_to(s, places, n - 1), places[n - 1].0)
            + new_reference(s, places, n - 1)
    } else {
        numbered_to(s, places, n - 1)
    }
}

/// The schematic with every reference numbered.
pub open spec fn annotated(s: Seq<char>) -> Seq<char> {
    let places = references_from(s, 0);
    let n = places.len() as int;
    numbered_to(s, places, n) + s.skip(done_to(s, places, n))
}

/// Can the schematic be annotated: are its references readable, and do the numbers
/// leave room for the next ones?
pub open spec fn can_be_annotated(s: Seq<char>) -> bool {
    let places = references_from(s, 0);
    &&& is_readable(s, 0)
    &&& forall|k: int|
        0 <= k < places.len() ==> number_of(text_at(s, #[trigger] places[k])) != Some(
            usize::MAX as nat,
        )
    &&& forall|k: int|
        0 <= k < places.len() && is_unnumbered(text_at(s, #[trigger] places[k])) ==> given_number(
            s,
            places,
            k,
        ) < usize::MAX
}

// ─── Finding the references ───────────────────────────────────────────────────

/// The places that a list of them stands for.
pub open spec fn places_view(v: Seq<(usize, usize)>) -> Seq<(int, int)> {
    Seq::new(v.len(), |i: int| (v[i].0 as int, v[i].1 as int))
}

/// Do the places lie in the text, one after the other?
pub open spec fn in_order(s: Seq<char>, places: Seq<(int, int)>) -> bool {
    &&& forall|i: int|
        0 <= i < places.len() ==> 0 <= (#[trigger] places[i]).0 <= places[i].1 < s.len()
    &&& forall|i: int, j: int|
        0 <= i < j < places.len() ==> (#[trigger] places[i]).1 < (#[trigger] places[j]).0
}

/// Does every place begin before `pos` and end at the next quote?
spec fn are_quoted(s: Seq<char>, places: Seq<(int, int)>, pos: int) -> bool {
    forall|i: int|
        0 <= i < places.len() ==> (#[trigger] places[i]).0 < pos && is_first_match(
            s,
            "\""@,
            places[i].0,
            s.len() as int,
            places[i].1,
        )
}

/// A place that is found later lies behind those found before.
proof fn lemma_next_place(s: Seq<char>, places: Seq<(int, int)>, pos: int, i: int, end: int)
    requires
        in_order(s, places),
        are_quoted(s, places, pos),
        0 <= pos <= i,
        matches_at(s, "(reference \""@, i),
        is_first_match(s, "\""@, i + 12, s.len() as int, end),
    ensures
        in_order(s, places.push((i + 12, end))),
        are_quoted(s, places.push((i + 12, end)), i + 13),
{
    reveal_strlit("(reference \"");
    reveal_strlit("\"");
    let all = places.push((i + 12, end));
    assert(s.subrange(i, i + 12)[11] == "(reference \""@[11]);
    assert(s[i + 11] == '"');
    assert(s.subrange(i + 11, i + 12) =~= "\""@);
    assert(matches_at(s, "\""@, i + 11));
    assert(matches_at(s, "\""@, end));
    assert forall|k: int| 0 <= k < all.len() implies 0 <= (#[trigger] all[k]).0 <= all[k].1
        < s.len() && all[k].0 < i + 13 && is_first_match(
        s,
        "\""@,
        all[k].0,
        s.len() as int,
        all[k].1,
    ) by {
        if k < places.len() {
            assert(all[k] == places[k]);
        }
    }
    assert forall|a: int, b: int| 0 <= a < b < all.len() implies (#[trigger] all[a]).1 < (
    #[trigger] all[b]).0 by {
        assert(all[a] == places[a]);
        if b < places.len() {
            assert(all[b] == places[b]);
        } else if places[a].1 > i + 11 {
            assert(!matches_at(s, "\""@, i + 11));
        }
    }
}

fn list_references(s: &Vec<char>) -> (r: Option<Vec<(usize, usize)>>)
    ensures
        match r {
            Some(v) => is_readable(s@, 0) && places_view(v@) == references_from(s@, 0) && in_order(
                s@,
                places_view(v@),
            ),
            None => !is_readable(s@, 0),
        },
{
    let opening = chars_of("(reference \"");
    let quote = chars_of("\"");
    let mut out: Vec<(usize, usize)> = Vec::new();
    let mut pos: usize = 0;
    proof {
        reveal_strlit("(reference \"");
        reveal_strlit("\"");
        assert(places_view(out@) + references_from(s@, 0) =~= references_from(s@, 0));
    }
    loop
        invariant
            opening@ == "(reference \""@,
            opening@.len() == 12,
            quote@ == "\""@,
            quote@.len() == 1,
            pos <= s@.len(),
            references_from(s@, 0) == places_view(out@) + references_from(s@, pos as int),
            is_readable(s@, 0) == is_readable(s@, pos as int),
            in_order(s@, places_view(out@)),
            are_quoted(s@, places_view(out@), pos as int),
        decreases s@.len() - pos,
    {
        proof {
            lemma_find_in(s@, opening@, pos as int, s@.len() as int);
        }
        match find_from(s, &opening, pos, s.len()) {
            None => {
                assert(places_view(out@) + Seq::<(int, int)>::empty() =~= places_view(out@));
                return Some(out);
            },
            Some(i) => {
                let start: usize = i + 12;
                if start >= s.len() || width_of(s[start]) != 1 {
                    return None;
                }
                proof {
                    lemma_find_in(s@, quote@, start as int, s@.len() as int);
                }
                let ghost rest = references_from(s@, i + 13);
                if let Some(end) = find_from(s, &quote, start, s.len()) {
                    let ghost before = places_view(out@);
                    proof {
                        let place = (start as int, end as int);
                        assert(places_view(out@.push((start, end))) =~= before.push(place));
                        assert(before + (seq![place] + rest) =~= before.push(place) + rest);
                        lemma_next_place(s@, before, pos as int, i as int, end as int);
                    }
                    out.push((start, end));
                }
                proof {
                    assert(are_quoted(s@, places_view(out@), start + 1));
                }
                pos = start + 1;
            },
        }
    }
}

// ─── Reading a reference ──────────────────────────────────────────────────────

/// A reference taken apart: its prefix and its number.
struct Reference {
    prefix: String,
    number: Option<usize>,
}

fn read_reference(s: &Vec<char>, from: usize, to: usize) -> (r: Reference)
    requires
        from <= to < s@.len(),
    ensures
        r.prefix@ == prefix_of(s@.subrange(from as int, to as int)),
        match r.number {
            Some(n) => number_of(s@.subrange(from as int, to as int)) == Some(n as nat),
            None => number_of(s@.subrange(from as int, to as int)) is None,
        },
{
    let ghost t = s@.subrange(from as int, to as int);
    let len: usize = to - from;
    let mut k: usize = 0;
    let mut bytes: usize = 0;
    assert(t.take(0) =~= Seq::<char>::empty());
    while k < len && (s[from + k].is_alphabetic() || s[from + k] == '#')
        invariant
            k <= len,
            len == to - from,
            from <= to < s@.len(),
            t == s@.subrange(from as int, to as int),
            letters_end(t, 0) == letters_end(t, k as int),
            bytes == if utf8_len(t.take(k as int)) <= len {
                utf8_len(t.take(k as int)) as int
            } else {
                len as int
            },
        decreases len - k,
    {
        proof {
            assert(t[k as int] == s@[from + k]);
            assert(t.take(k + 1).drop_last() =~= t.take(k as int));
        }
        let width = width_of(s[from + k]);
        bytes = if width <= len - bytes {
            bytes + width
        } else {
            len
        };
        k = k + 1;
    }
    proof {
        assert(k < len ==> t[k as int] == s@[from + k]);
        assert(prefix_of(t) == t.take(k as int));
        assert(s@.subrange(from as int, from + k) =~= t.take(k as int));
        assert(s@.subrange(from + bytes, to as int) =~= t.skip(bytes as int));
    }
    Reference {
        prefix: text_of(s, from, from + k),
        number: parse_unsigned(s, from + bytes, to),
    }
}

fn find_marks(s: &Vec<char>, from: usize, to: usize) -> (r: usize)
    requires
        from <= to < s@.len(),
    ensures
        from <= r <= to,
        s@.subrange(from as int, r as int) == without_marks(s@.subrange(from as int, to as int)),
{
    let mut k: usize = to;
    while k > from && s[k - 1] == '?'
        invariant
            from <= k <= to < s@.len(),
            without_marks(s@.subrange(from as int, to as int)) == without_marks(
                s@.subrange(from as int, k as int),
            ),
        decreases k,
    {
        assert(s@.subrange(from as int, k as int).drop_last() =~= s@.subrange(from as int, k - 1));
        k = k - 1;
    }
    k
}

// ─── Counting ─────────────────────────────────────────────────────────────────

/// The number that was last noted for a prefix.
spec fn noted(log: Seq<(String, usize)>, prefix: Seq<char>) -> Option<nat>
    decreases log.len(),
{
    if log.len() == 0 {
        None
    } else if log.last().0@ == prefix {
        Some(log.last().1 as nat)
    } else {
        noted(log.drop_last(), prefix)
    }
}

proof fn lemma_noted(log: Seq<(String, usize)>, entry: (String, usize), prefix: Seq<char>)
    ensures
        noted(log.push(entry), prefix) == (if entry.0@ == prefix {
            Some(entry.1 as nat)
        } else {
            noted(log, prefix)
        }),
{
    assert(log.push(entry).drop_last() =~= log);
}

fn find_noted(log: &Vec<(String, usize)>, prefix: &String) -> (r: Option<usize>)
    ensures
        match r {
            Some(n) => noted(log@, prefix@) == Some(n as nat),
            None => noted(log@, prefix@) is None,
        },
{
    let mut i: usize = log.len();
    assert(log@.take(i as int) =~= log@);
    while i > 0
        invariant
            i <= log@.len(),
            noted(log@, prefix@) == noted(log@.take(i as int), prefix@),
        decreases i,
    {
        let ghost upto = log@.take(i as int);
        i = i - 1;
        assert(upto.drop_last() =~= log@.take(i as int));
        assert(upto.last() == log@[i as int]);
        if log[i].0 == *prefix {
            return Some(log[i].1);
        }
    }
    None
}

/// Notes the number after the highest one used with each prefix. `None` is for a number
/// that has none after it.
fn note_used(s: &Vec<char>, places: &Vec<(usize, usize)>) -> (r: Option<Vec<(String, usize)>>)
    requires
        in_order(s@, places_view(places@)),
    ensures
        match r {
            Some(log) => (forall|prefix: Seq<char>|
                noted(log@, prefix) == #[trigger] next_used(s@, places_view(places@), prefix)) && (
            forall|k: int|
                0 <= k < places@.len() ==> number_of(
                    text_at(s@, #[trigger] places_view(places@)[k]),
                ) != Some(usize::MAX as nat)),
            None => exists|k: int|
                0 <= k < places@.len() && number_of(
                    text_at(s@, #[trigger] places_view(places@)[k]),
                ) == Some(usize::MAX as nat),
        },
{
    let ghost all = places_view(places@);
    let mut log: Vec<(String, usize)> = Vec::new();
    let mut i: usize = 0;
    while i < places.len()
        invariant
            i <= places@.len(),
            all == places_view(places@),
            in_order(s@, all),
            forall|prefix: Seq<char>|
                noted(log@, prefix) == #[trigger] next_used(s@, all.take(i as int), prefix),
            forall|k: int|
                0 <= k < i ==> number_of(text_at(s@, #[trigger] all[k])) != Some(
                    usize::MAX as nat,
                ),
        decreases places@.len() - i,
    {
        let (from, to) = places[i];
        let ghost upto = all.take(i + 1);
        proof {
            assert(all[i as int] == (from as int, to as int));
            assert(upto.drop_last() =~= all.take(i as int));
            assert(upto.last() == all[i as int]);
        }
        let reference = read_reference(s, from, to);
        let ghost before = log@;
        match reference.number {
            Some(n) => {
                if n == usize::MAX {
                    return None;
                }
                let next: usize = match find_noted(&log, &reference.prefix) {
                    Some(b) => if n >= b {
                        n + 1
                    } else {
                        b
                    },
                    None => n + 1,
                };
                let ghost prefix = reference.prefix@;
                log.push((reference.prefix, next));
                proof {
                    assert forall|p: Seq<char>| noted(log@, p) == #[trigger] next_used(
                        s@,
                        upto,
                        p,
                    ) by {
                        lemma_noted(before, log@[log@.len() - 1], p);
                        assert(log@ =~= before.push(log@[log@.len() - 1]));
                        assert(noted(before, p) == next_used(s@, all.take(i as int), p));
                    }
                }
            },
            None => {
                proof {
                    assert forall|p: Seq<char>| noted(log@, p) == #[trigger] next_used(
                        s@,
                        upto,
                        p,
                    ) by {
                        assert(noted(before, p) == next_used(s@, all.take(i as int), p));
                    }
                }
            },
        }
        i = i + 1;
    }
    assert(all.take(places@.len() as int) =~= all);
    Some(log)
}

// ─── Numbering ────────────────────────────────────────────────────────────────

/// The number that is noted for a prefix once the first `n` references are done.
spec fn noted_after(s: Seq<char>, places: Seq<(int, int)>, n: int, prefix: Seq<char>) -> Option<
    nat,
> {
    if wanted(s, places.take(n), prefix) == 0 {
        next_used(s, places, prefix)
    } else {
        Some(first_free(s, places, prefix) + wanted(s, places.take(n), prefix))
    }
}

/// Numbers the references. `None` is for a number that leaves no room for the next.
fn number_references(
    s: &Vec<char>,
    places: &Vec<(usize, usize)>,
    used: Vec<(String, usize)>,
) -> (r: Option<String>)
    requires
        in_order(s@, places_view(places@)),
        forall|prefix: Seq<char>|
            noted(used@, prefix) == #[trigger] next_used(s@, places_view(places@), prefix),
    ensures
        ({
            let all = places_view(places@);
            let n = all.len() as int;
            match r {
                Some(t) => t@ == numbered_to(s@, all, n) + s@.skip(done_to(s@, all, n)) && (
                forall|k: int|
                    0 <= k < n && is_unnumbered(text_at(s@, #[trigger] all[k])) ==> given_number(
                        s@,
                        all,
                        k,
                    ) < usize::MAX),
                None => exists|k: int|
                    0 <= k < n && is_unnumbered(text_at(s@, #[trigger] all[k])) && given_number(
                        s@,
                        all,
                        k,
                    ) >= usize::MAX,
            }
        }),
{
    let ghost all = places_view(places@);
    let mut log = used;
    let mut out = String::new();
    let mut done: usize = 0;
    let mut i: usize = 0;
    assert(out@ =~= numbered_to(s@, all, 0));
    assert forall|prefix: Seq<char>| noted(log@, prefix) == #[trigger] noted_after(
        s@,
        all,
        0,
        prefix,
    ) by {
        assert(noted(log@, prefix) == next_used(s@, all, prefix));
    }
    while i < places.len()
        invariant
            i <= places@.len(),
            all == places_view(places@),
            in_order(s@, all),
            forall|prefix: Seq<char>|
                noted(log@, prefix) == #[trigger] noted_after(s@, all, i as int, prefix),
            out@ == numbered_to(s@, all, i as int),
            done == done_to(s@, all, i as int),
            done <= s@.len(),
            i < all.len() ==> done <= all[i as int].0,
            forall|k: int|
                0 <= k < i && is_unnumbered(text_at(s@, #[trigger] all[k])) ==> given_number(
                    s@,
                    all,
                    k,
                ) < usize::MAX,
        decreases places@.len() - i,
    {
        let (from, to) = places[i];
        let ghost upto = all.take(i + 1);
        let ghost t = text_at(s@, all[i as int]);
        let ghost before = log@;
        proof {
            assert(all[i as int] == (from as int, to as int));
            assert(upto.drop_last() =~= all.take(i as int));
            assert(upto.last() == all[i as int]);
        }
        if from < to && s[to - 1] == '?' {
            assert(is_unnumbered(t));
            let mark = find_marks(s, from, to);
            let prefix = text_of(s, from, mark);
            assert(noted(log@, prefix@) == noted_after(s@, all, i as int, prefix@));
            let number: usize = match find_noted(&log, &prefix) {
                Some(n) => n,
                None => 1,
            };
            assert(number == given_number(s@, all, i as int));
            if number == usize::MAX {
                return None;
            }
            push_range(&mut out, s, done, from);
            out.append(prefix.as_str());
            push_decimal(&mut out, number as u64);
            done = to;
            let ghost p0 = prefix@;
            log.push((prefix, number + 1));
            proof {
                assert(out@ =~= numbered_to(s@, all, i + 1));
                let entry = log@[log@.len() - 1];
                assert(log@ =~= before.push(entry));
                assert forall|p: Seq<char>| noted(log@, p) == #[trigger] noted_after(
                    s@,
                    all,
                    i + 1,
                    p,
                ) by {
                    lemma_noted(before, entry, p);
                    assert(noted(before, p) == noted_after(s@, all, i as int, p));
                }
            }
        } else {
            proof {
                assert(!is_unnumbered(t));
                assert forall|p: Seq<char>| noted(log@, p) == #[trigger] noted_after(
                    s@,
                    all,
                    i + 1,
                    p,
                ) by {
                    assert(noted(before, p) == noted_after(s@, all, i as int, p));
                }
            }
        }
        proof {
            if i + 1 < all.len() {
                assert(all[i as int].1 < all[i + 1].0);
                assert(all[i as int].0 <= all[i as int].1);
            }
        }
        i = i + 1;
    }
    push_range(&mut out, s, done, s.len());
    assert(s@.subrange(done as int, s@.len() as int) =~= s@.skip(done as int));
    Some(out)
}

fn try_annotate(content: &str) -> (r: Option<String>)
    ensures
        match r {
            Some(t) => can_be_annotated(content@) && t@ == annotated(content@),
            None => !can_be_annotated(content@),
        },
{
    let s = chars_of(content);
    let places = match list_references(&s) {
        Some(places) => places,
        None => {
            return None;
        },
    };
    let ghost all = references_from(s@, 0);
    match note_used(&s, &places) {
        Some(used) => number_references(&s, &places, used),
        None => {
            proof {
                let k = choose|k: int|
                    0 <= k < places@.len() && number_of(
                        text_at(s@, #[trigger] places_view(places@)[k]),
                    ) == Some(usize::MAX as nat);
                assert(number_of(text_at(s@, all[k])) == Some(usize::MAX as nat));
            }
            None
        },
    }
}

/// Can the schematic be annotated?
pub fn can_annotate(content: &str) -> (r: bool)
    ensures
        r == can_be_annotated(content@),
{
    try_annotate(content).is_some()
}

/// Gives a number to every reference in the text of a schematic that ends in `?`: the
/// next one that is free for its prefix.
pub fn annotate_schematic(content: &str) -> (r: String)
    requires
        can_be_annotated(content@),
    ensures
        r@ == annotated(content@),
{
    match try_annotate(content) {
        Some(t) => t,
        None => vstd::pervasive::unreached(),
    }
}

// ─── Laws ─────────────────────────────────────────────────────────────────────

proof fn lemma_nothing_to_number(s: Seq<char>, places: Seq<(int, int)>, n: int)
    requires
        n <= places.len(),
        forall|k: int| 0 <= k < n ==> !is_unnumbered(text_at(s, #[trigger] places[k])),
    ensures
        done_to(s, places, n) == 0,
        numbered_to(s, places, n) == Seq::<char>::empty(),
    decreases n,
{
    if n > 0 {
        assert(!is_unnumbered(text_at(s, places[n - 1])));
        lemma_nothing_to_number(s, places, n - 1);
    }
}

/// A schematic in which every reference has its number is left as it is.
pub proof fn law_numbered_schematic_is_unchanged(s: Seq<char>)
    requires
        forall|k: int|
            0 <= k < references_from(s, 0).len() ==> !is_unnumbered(
                text_at(s, #[trigger] references_from(s, 0)[k]),
            ),
    ensures
        annotated(s) == s,
{
    let places = references_from(s, 0);
    lemma_nothing_to_number(s, places, places.len() as int);
    assert(Seq::<char>::empty() + s.skip(0) =~= s);
}

/// The reference at place `k` once the schematic is annotated.
pub open spec fn reference_after(s: Seq<char>, places: Seq<(int, int)>, k: int) -> Seq<char> {
    if is_unnumbered(text_at(s, places[k])) {
        new_reference(s, places, k)
    } else {
        text_at(s, places[k])
    }
}

/// Is a prefix made of ASCII letters and `#`?
pub open spec fn is_plain_prefix(p: Seq<char>) -> bool {
    forall|i: int| 0 <= i < p.len() ==> #[trigger] p[i] <= '\u{7f}' && (is_letter(p[i]) || p[i]
        == '#')
}

proof fn lemma_letters_end(t: Seq<char>, i: int, n: int)
    requires
        0 <= i <= n <= t.len(),
        forall|k: int| i <= k < n ==> is_letter(#[trigger] t[k]) || t[k] == '#',
        n < t.len() ==> !is_letter(t[n]) && t[n] != '#',
    ensures
        letters_end(t, i) == n,
    decreases n - i,
{
    if i < n {
        lemma_letters_end(t, i + 1, n);
    }
}

/// A plain prefix and a number are read back from the reference that they make.
proof fn lemma_parts(prefix: Seq<char>, n: nat)
    requires
        is_plain_prefix(prefix),
        n <= usize::MAX,
    ensures
        prefix_of(prefix + decimal(n)) == prefix,
        number_of(prefix + decimal(n)) == Some(n),
{
    let t = prefix + decimal(n);
    lemma_decimal_digits(n);
    assert(is_digit(decimal(n)[0]));
    assert(t[prefix.len() as int] == decimal(n)[0]);
    lemma_letters_end(t, 0, prefix.len() as int);
    assert(t.take(prefix.len() as int) =~= prefix);
    lemma_plain_len(prefix);
    assert(t.skip(prefix.len() as int) =~= decimal(n));
    lemma_read_unsigned_decimal(n, usize::MAX as nat);
}

proof fn lemma_plain_len(p: Seq<char>)
    requires
        is_plain_prefix(p),
    ensures
        utf8_len(p) == p.len(),
    decreases p.len(),
{
    if p.len() > 0 {
        assert(p[p.len() - 1] <= '\u{7f}');
        assert forall|i: int| 0 <= i < p.drop_last().len() implies #[trigger] p.drop_last()[i]
            <= '\u{7f}' && (is_letter(p.drop_last()[i]) || p.drop_last()[i] == '#') by {
            assert(p.drop_last()[i] == p[i]);
        }
        lemma_plain_len(p.drop_last());
    }
}

proof fn lemma_next_used(s: Seq<char>, places: Seq<(int, int)>, l: int, n: nat)
    requires
        0 <= l < places.len(),
        number_of(text_at(s, places[l])) == Some(n),
    ensures
        next_used(s, places, prefix_of(text_at(s, places[l]))) matches Some(m) && m > n,
    decreases places.len(),
{
    if l < places.len() - 1 {
        assert(places.drop_last()[l] == places[l]);
        lemma_next_used(s, places.drop_last(), l, n);
    }
}

proof fn lemma_wanted(s: Seq<char>, places: Seq<(int, int)>, k: int, l: int, prefix: Seq<char>)
    requires
        0 <= k < l <= places.len(),
        is_unnumbered(text_at(s, places[k])),
        without_marks(text_at(s, places[k])) == prefix,
    ensures
        wanted(s, places.take(k), prefix) < wanted(s, places.take(l), prefix),
    decreases l,
{
    assert(places.take(l).drop_last() =~= places.take(l - 1));
    assert(places.take(l).last() == places[l - 1]);
    if k < l - 1 {
        lemma_wanted(s, places, k, l - 1, prefix);
    }
}

/// A reference that is given out is used nowhere else in the annotated schematic,
/// where the prefixes that want a number are made of ASCII letters and `#`.
pub proof fn law_new_references_are_unique(s: Seq<char>, k: int, l: int)
    requires
        can_be_annotated(s),
        0 <= k < references_from(s, 0).len(),
        0 <= l < references_from(s, 0).len(),
        k != l,
        is_unnumbered(text_at(s, references_from(s, 0)[k])),
        is_plain_prefix(without_marks(text_at(s, references_from(s, 0)[k]))),
        is_unnumbered(text_at(s, references_from(s, 0)[l])) ==> is_plain_prefix(
            without_marks(text_at(s, references_from(s, 0)[l])),
        ),
    ensures
        text_at(annotated(s), references_from(annotated(s), 0)[k]) != text_at(
            annotated(s),
            references_from(annotated(s), 0)[l],
        ),
{
    law_references_after_annotation(s, k);
    law_references_after_annotation(s, l);
    let places = references_from(s, 0);
    let p = without_marks(text_at(s, places[k]));
    let a = given_number(s, places, k);
    let t = text_at(s, places[l]);
    lemma_parts(p, a);
    if is_unnumbered(t) {
        let q = without_marks(t);
        let b = given_number(s, places, l);
        lemma_parts(q, b);
        if p == q {
            if k < l {
                lemma_wanted(s, places, k, l, p);
            } else {
                lemma_wanted(s, places, l, k, p);
            }
        }
    } else if t == p + decimal(a) {
        lemma_next_used(s, places, l, a);
        assert(false);
    }
}

/// The numbers given out for a prefix follow one another, from the first free one on.
pub proof fn law_numbers_are_sequential(s: Seq<char>, k: int, l: int)
    requires
        0 <= k < l < references_from(s, 0).len(),
        is_unnumbered(text_at(s, references_from(s, 0)[k])),
        is_unnumbered(text_at(s, references_from(s, 0)[l])),
        without_marks(text_at(s, references_from(s, 0)[k])) == without_marks(
            text_at(s, references_from(s, 0)[l]),
        ),
        forall|m: int|
            k < m < l ==> !(is_unnumbered(text_at(s, #[trigger] references_from(s, 0)[m]))
                && without_marks(text_at(s, references_from(s, 0)[m])) == without_marks(
                text_at(s, references_from(s, 0)[k]),
            )),
    ensures
        given_number(s, references_from(s, 0), l) == given_number(s, references_from(s, 0), k) + 1,
{
    let places = references_from(s, 0);
    let prefix = without_marks(text_at(s, places[k]));
    assert(places.take(k + 1).drop_last() =~= places.take(k));
    assert(wanted(s, places.take(k + 1), prefix) == wanted(s, places.take(k), prefix) + 1);
    lemma_none_wanted(s, places, k + 1, l, prefix);
}

proof fn lemma_none_wanted(s: Seq<char>, places: Seq<(int, int)>, k: int, l: int, prefix: Seq<char>)
    requires
        0 <= k <= l <= places.len(),
        forall|m: int|
            k <= m < l ==> !(is_unnumbered(text_at(s, #[trigger] places[m])) && without_marks(
                text_at(s, places[m]),
            ) == prefix),
    ensures
        wanted(s, places.take(l), prefix) == wanted(s, places.take(k), prefix),
    decreases l - k,
{
    if k < l {
        assert(places.take(l).drop_last() =~= places.take(l - 1));
        assert(places.take(l).last() == places[l - 1]);
        lemma_none_wanted(s, places, k, l - 1, prefix);
    }
}

// ─── The references of an annotated schematic ─────────────────────────────────

/// Every place begins behind its opening and ends at the first quote.
proof fn lemma_place(s: Seq<char>, from: int, k: int)
    requires
        0 <= from,
        0 <= k < references_from(s, from).len(),
    ensures
        from + 12 <= references_from(s, from)[k].0,
        matches_at(s, "(reference \""@, references_from(s, from)[k].0 - 12),
        is_first_match(
            s,
            "\""@,
            references_from(s, from)[k].0,
            s.len() as int,
            references_from(s, from)[k].1,
        ),
    decreases s.len() - from,
{
    lemma_find_in(s, "(reference \""@, from, s.len() as int);
    let i = find_in(s, "(reference \""@, from, s.len() as int)->0;
    lemma_find_in(s, "\""@, i + 12, s.len() as int);
    match find_in(s, "\""@, i + 12, s.len() as int) {
        Some(end) => {
            if k > 0 {
                assert(references_from(s, from)[k] == references_from(s, i + 13)[k - 1]);
                lemma_place(s, i + 13, k - 1);
            }
        },
        None => {
            lemma_place(s, i + 13, k);
        },
    }
}

/// The last character of an opening is a quote, and no other one of it is.
proof fn lemma_opening(s: Seq<char>, i: int, j: int)
    requires
        matches_at(s, "(reference \""@, i),
        i <= j < i + 12,
    ensures
        i + 12 <= s.len(),
        s[j] == '"' <==> j == i + 11,
        j == i + 10 ==> s[j] == ' ',
{
    reveal_strlit("(reference \"");
    let pat = "(reference \""@;
    assert(s.subrange(i, i + pat.len())[j - i] == pat[j - i]);
    assert(pat[j - i] == '"' <==> j - i == 11);
}

proof fn lemma_quote(s: Seq<char>, i: int)
    ensures
        matches_at(s, "\""@, i) <==> 0 <= i < s.len() && s[i] == '"',
{
    reveal_strlit("\"");
    if 0 <= i < s.len() {
        assert(s.subrange(i, i + 1) =~= seq![s[i]]);
        assert("\""@ =~= seq!['"']);
        assert(s.subrange(i, i + 1)[0] == s[i]);
        assert("\""@[0] == '"');
    }
}

/// Where two texts end alike, a match in one is a match in the other.
proof fn lemma_same_end(s: Seq<char>, t: Seq<char>, pat: Seq<char>, i: int, d: int)
    requires
        0 <= i <= s.len(),
        0 <= i + d,
        s.len() + d == t.len(),
        s.skip(i) == t.skip(i + d),
    ensures
        forall|j: int|
            i <= j ==> (#[trigger] matches_at(s, pat, j) <==> matches_at(t, pat, j + d)),
{
    assert forall|j: int| i <= j implies (#[trigger] matches_at(s, pat, j) <==> matches_at(
        t,
        pat,
        j + d,
    )) by {
        if j + pat.len() <= s.len() {
            let l = pat.len();
            assert(s.subrange(j, j + l) =~= s.skip(i).subrange(j - i, j - i + l));
            assert(t.subrange(j + d, j + d + l) =~= t.skip(i + d).subrange(j - i, j - i + l));
        }
    }
}

/// What is found behind a place where two texts end alike.
proof fn lemma_find_same_end(s: Seq<char>, t: Seq<char>, pat: Seq<char>, i: int, d: int)
    requires
        0 <= i <= s.len(),
        0 <= i + d,
        s.len() + d == t.len(),
        s.skip(i) == t.skip(i + d),
    ensures
        find_in(t, pat, i + d, t.len() as int) == match find_in(s, pat, i, s.len() as int) {
            Some(j) => Some(j + d),
            None => None,
        },
{
    lemma_same_end(s, t, pat, i, d);
    lemma_find_in(s, pat, i, s.len() as int);
    lemma_find_in(t, pat, i + d, t.len() as int);
    match find_in(s, pat, i, s.len() as int) {
        Some(j) => {
            assert(matches_at(t, pat, j + d));
            assert forall|m: int| i + d <= m < j + d implies !#[trigger] matches_at(t, pat, m) by {
                assert(!matches_at(s, pat, m - d));
            }
            lemma_first_is_found(t, pat, i + d, t.len() as int, j + d);
        },
        None => {
            if find_in(t, pat, i + d, t.len() as int) is Some {
                let m = find_in(t, pat, i + d, t.len() as int)->0;
                assert(matches_at(t, pat, m));
                assert(!matches_at(s, pat, m - d));
            }
        },
    }
}

/// Where two texts end alike, their references there are the same.
proof fn lemma_references_same_end(s: Seq<char>, t: Seq<char>, i: int, d: int)
    requires
        0 <= i <= s.len(),
        0 <= i + d,
        s.len() + d == t.len(),
        s.skip(i) == t.skip(i + d),
    ensures
        references_from(t, i + d).len() == references_from(s, i).len(),
        forall|k: int|
            0 <= k < references_from(s, i).len() ==> references_from(t, i + d)[k] == (
                (#[trigger] references_from(s, i)[k]).0 + d,
                references_from(s, i)[k].1 + d,
            ),
    decreases s.len() - i,
{
    let n = s.len() as int;
    lemma_find_same_end(s, t, "(reference \""@, i, d);
    lemma_find_in(s, "(reference \""@, i, n);
    match find_in(s, "(reference \""@, i, n) {
        Some(j) => {
            if j + 12 < n {
                assert(s.skip(j + 12) =~= s.skip(i).skip(j + 12 - i));
                assert(t.skip(j + 12 + d) =~= t.skip(i + d).skip(j + 12 - i));
                assert(s.skip(j + 13) =~= s.skip(i).skip(j + 13 - i));
                assert(t.skip(j + 13 + d) =~= t.skip(i + d).skip(j + 13 - i));
                lemma_find_same_end(s, t, "\""@, j + 12, d);
                lemma_references_same_end(s, t, j + 13, d);
                let rest = references_from(s, j + 13);
                let rest_t = references_from(t, j + 13 + d);
                if find_in(s, "\""@, j + 12, n) is Some {
                    assert forall|k: int| 0 <= k < references_from(s, i).len() implies
                        references_from(t, i + d)[k] == (
                        (#[trigger] references_from(s, i)[k]).0 + d,
                        references_from(s, i)[k].1 + d,
                    ) by {
                        if k > 0 {
                            assert(references_from(s, i)[k] == rest[k - 1]);
                            assert(references_from(t, i + d)[k] == rest_t[k - 1]);
                        }
                    }
                }
            }
        },
        None => {},
    }
}

/// No opening begins inside of a reference that ends in anything but a space, so that the
/// next one is looked for behind its quote.
proof fn lemma_behind(s: Seq<char>, a: int, b: int)
    requires
        0 <= a < b,
        is_first_match(s, "\""@, a, s.len() as int, b),
        s[b - 1] != ' ',
    ensures
        b < s.len(),
        references_from(s, a + 1) == references_from(s, b + 1),
        is_readable(s, a + 1) == is_readable(s, b + 1),
{
    lemma_quote(s, b);
    let pat = "(reference \""@;
    let n = s.len() as int;
    reveal_strlit("(reference \"");
    assert forall|j: int| a < j <= b implies !#[trigger] matches_at(s, pat, j) by {
        if matches_at(s, pat, j) {
            lemma_opening(s, j, j + 11);
            if j + 11 < b {
                lemma_quote(s, j + 11);
                assert(!matches_at(s, "\""@, j + 11));
            } else {
                lemma_opening(s, j, b);
                lemma_opening(s, j, b - 1);
            }
        }
    }
    lemma_find_in(s, pat, a + 1, n);
    lemma_find_in(s, pat, b + 1, n);
    match find_in(s, pat, b + 1, n) {
        Some(i) => {
            assert(is_first_match(s, pat, a + 1, n, i));
            lemma_first_is_found(s, pat, a + 1, n, i);
        },
        None => {
            if find_in(s, pat, a + 1, n) is Some {
                let i = find_in(s, pat, a + 1, n)->0;
                assert(matches_at(s, pat, i));
            }
        },
    }
}

/// The places once the text at place `k` is one of another length.
spec fn moved(places: Seq<(int, int)>, k: int, len: int) -> Seq<(int, int)> {
    let d = len - (places[k].1 - places[k].0);
    Seq::new(
        places.len(),
        |j: int|
            if j < k {
                places[j]
            } else if j == k {
                (places[j].0, places[j].0 + len)
            } else {
                (places[j].0 + d, places[j].1 + d)
            },
    )
}

/// What is found before a stretch that is replaced is found there again.
proof fn lemma_find_before(s: Seq<char>, a: int, b: int, t: Seq<char>, pat: Seq<char>, from: int)
    requires
        0 <= a <= b <= s.len(),
        0 <= from,
        find_in(s, pat, from, s.len() as int) matches Some(i) && i + pat.len() <= a,
    ensures
        find_in(splice(s, a, b, t), pat, from, splice(s, a, b, t).len() as int) == find_in(
            s,
            pat,
            from,
            s.len() as int,
        ),
{
    let s1 = splice(s, a, b, t);
    let i = find_in(s, pat, from, s.len() as int)->0;
    lemma_find_in(s, pat, from, s.len() as int);
    assert(s1.subrange(i, i + pat.len()) =~= s.subrange(i, i + pat.len()));
    assert forall|j: int| from <= j < i implies !#[trigger] matches_at(s1, pat, j) by {
        assert(!matches_at(s, pat, j));
        assert(s1.subrange(j, j + pat.len()) =~= s.subrange(j, j + pat.len()));
    }
    lemma_first_is_found(s1, pat, from, s1.len() as int, i);
}

/// The first reference from `from` on, and the others behind it.
proof fn lemma_first_reference(s: Seq<char>, from: int, k: int) -> (r: (int, int))
    requires
        0 <= from,
        0 <= k < references_from(s, from).len(),
    ensures
        find_in(s, "(reference \""@, from, s.len() as int) == Some(r.0),
        "(reference \""@.len() == 12,
        "\""@.len() == 1,
        from <= r.0,
        r.0 + 12 <= references_from(s, from)[k].0,
        r.0 + 12 < s.len(),
        find_in(s, "\""@, r.0 + 12, s.len() as int) == Some(r.1),
        r.1 < s.len(),
        references_from(s, from) == seq![(r.0 + 12, r.1)] + references_from(s, r.0 + 13),
        k > 0 ==> r.1 < references_from(s, from)[k].0,
{
    let (a, b) = references_from(s, from)[k];
    let n = s.len() as int;
    let pat = "(reference \""@;
    reveal_strlit("(reference \"");
    reveal_strlit("\"");
    lemma_place(s, from, k);
    lemma_find_in(s, pat, from, n);
    let i = find_in(s, pat, from, n)->0;
    if i + 12 > a {
        assert(!matches_at(s, pat, a - 12));
    }
    lemma_find_in(s, "\""@, i + 12, n);
    lemma_quote(s, b);
    if find_in(s, "\""@, i + 12, n) is None {
        assert(!matches_at(s, "\""@, b));
    }
    let end = find_in(s, "\""@, i + 12, n)->0;
    if k > 0 {
        lemma_in_order(s, from, 0, k);
    }
    (i, end)
}

/// Can a text stand in the place of a reference: is it not empty, without a quote, and does
/// it not end in a space?
spec fn is_replacement(t: Seq<char>) -> bool {
    &&& t.len() > 0
    &&& t.last() != ' '
    &&& forall|i: int| 0 <= i < t.len() ==> #[trigger] t[i] != '"'
}

/// Another text for a reference ends at the same quote.
proof fn lemma_quote_replaced(s: Seq<char>, a: int, b: int, t: Seq<char>)
    requires
        0 <= a < b,
        is_first_match(s, "\""@, a, s.len() as int, b),
        is_replacement(t),
    ensures
        b < s.len(),
        is_first_match(
            splice(s, a, b, t),
            "\""@,
            a,
            splice(s, a, b, t).len() as int,
            a + t.len(),
        ),
        splice(s, a, b, t)[a + t.len() - 1] == t.last(),
        s.skip(b + 1) == splice(s, a, b, t).skip(a + t.len() + 1),
{
    let s1 = splice(s, a, b, t);
    let e = a + t.len();
    reveal_strlit("\"");
    lemma_quote(s, b);
    assert(s1[e] == s[b]);
    lemma_quote(s1, e);
    assert forall|j: int| a <= j < e implies !#[trigger] matches_at(s1, "\""@, j) by {
        lemma_quote(s1, j);
        assert(s1[j] == t[j - a]);
    }
    assert(s1[e - 1] == t.last());
    assert(s.skip(b + 1) =~= s1.skip(e + 1));
}

/// Another text for a reference ends at the same quote, and what is behind it stays as it
/// was.
proof fn lemma_behind_replaced(s: Seq<char>, a: int, b: int, t: Seq<char>)
    requires
        0 <= a < b,
        is_first_match(s, "\""@, a, s.len() as int, b),
        s[b - 1] != ' ',
        is_replacement(t),
    ensures
        ({
            let s1 = splice(s, a, b, t);
            let d = t.len() - (b - a);
            let rest = references_from(s, a + 1);
            let rest1 = references_from(s1, a + 1);
            &&& find_in(s1, "\""@, a, s1.len() as int) == Some(b + d)
            &&& rest1.len() == rest.len()
            &&& forall|j: int|
                0 <= j < rest.len() ==> rest1[j] == ((#[trigger] rest[j]).0 + d, rest[j].1 + d)
            &&& is_readable(s1, a + 1) == is_readable(s, a + 1)
        }),
{
    let s1 = splice(s, a, b, t);
    let d = t.len() - (b - a);
    let e = a + t.len();
    lemma_quote_replaced(s, a, b, t);
    lemma_first_is_found(s1, "\""@, a, s1.len() as int, e);
    lemma_behind(s, a, b);
    lemma_behind(s1, a, e);
    assert(s1.len() == s.len() + d);
    lemma_references_same_end(s, s1, b + 1, d);
    lemma_readable_same_end(s, s1, b + 1, d);
}

/// Another text for one reference leaves every other one where it is between its
/// neighbours.
proof fn lemma_replaced(s: Seq<char>, from: int, k: int, t: Seq<char>)
    requires
        0 <= from,
        0 <= k < references_from(s, from).len(),
        is_unnumbered(text_at(s, references_from(s, from)[k])),
        is_replacement(t),
    ensures
        references_from(
            splice(s, references_from(s, from)[k].0, references_from(s, from)[k].1, t),
            from,
        ) == moved(references_from(s, from), k, t.len() as int),
    decreases s.len() - from,
{
    let places = references_from(s, from);
    let (a, b) = places[k];
    let s1 = splice(s, a, b, t);
    let (i, end) = lemma_first_reference(s, from, k);
    let rest = references_from(s, i + 13);
    let rest1 = references_from(s1, i + 13);
    lemma_place(s, from, k);
    lemma_quote(s, b);
    lemma_find_before(s, a, b, t, "(reference \""@, from);
    let after = moved(places, k, t.len() as int);
    if k == 0 {
        assert(s[b - 1] == text_at(s, (a, b)).last());
        lemma_behind_replaced(s, a, b, t);
        assert(references_from(s1, from) == seq![(a, a + t.len())] + rest1);
        assert forall|j: int| 0 < j < places.len() implies #[trigger] after[j] == rest1[j - 1] by {
            assert(places[j] == rest[j - 1]);
        }
    } else {
        lemma_find_before(s, a, b, t, "\""@, i + 12);
        assert(places[k] == rest[k - 1]);
        lemma_replaced(s, i + 13, k - 1, t);
        assert(references_from(s1, from) == seq![(i + 12, end)] + rest1);
        assert forall|j: int| 0 < j < places.len() implies #[trigger] after[j] == rest1[j - 1] by {
            assert(places[j] == rest[j - 1]);
        }
    }
    assert(references_from(s1, from) =~= after);
}

/// A readable schematic stays so with another text for one reference, where that begins with
/// a character of one byte.
proof fn lemma_readable_replaced(s: Seq<char>, from: int, k: int, t: Seq<char>)
    requires
        0 <= from,
        0 <= k < references_from(s, from).len(),
        is_unnumbered(text_at(s, references_from(s, from)[k])),
        is_replacement(t),
        utf8_width(t[0]) == 1,
        is_readable(s, from),
    ensures
        is_readable(
            splice(s, references_from(s, from)[k].0, references_from(s, from)[k].1, t),
            from,
        ),
    decreases s.len() - from,
{
    let (a, b) = references_from(s, from)[k];
    let s1 = splice(s, a, b, t);
    let (i, end) = lemma_first_reference(s, from, k);
    lemma_place(s, from, k);
    lemma_quote(s, b);
    lemma_find_before(s, a, b, t, "(reference \""@, from);
    if k == 0 {
        assert(s[b - 1] == text_at(s, (a, b)).last());
        lemma_behind_replaced(s, a, b, t);
        assert(s1[a] == t[0]);
    } else {
        assert(references_from(s, from)[k] == references_from(s, i + 13)[k - 1]);
        lemma_find_in(s, "\""@, i + 12, s.len() as int);
        assert(s1[i + 12] == s[i + 12]);
        lemma_readable_replaced(s, i + 13, k - 1, t);
    }
}

/// Where two texts end alike, they are equally readable there.
proof fn lemma_readable_same_end(s: Seq<char>, t: Seq<char>, i: int, d: int)
    requires
        0 <= i <= s.len(),
        0 <= i + d,
        s.len() + d == t.len(),
        s.skip(i) == t.skip(i + d),
    ensures
        is_readable(t, i + d) == is_readable(s, i),
    decreases s.len() - i,
{
    let n = s.len() as int;
    reveal_strlit("(reference \"");
    lemma_find_same_end(s, t, "(reference \""@, i, d);
    lemma_find_in(s, "(reference \""@, i, n);
    if let Some(j) = find_in(s, "(reference \""@, i, n) {
        if j + 12 < n {
            assert(s.skip(i)[j + 12 - i] == s[j + 12]);
            assert(t.skip(i + d)[j + 12 - i] == t[j + 12 + d]);
            assert(s.skip(j + 13) =~= s.skip(i).skip(j + 13 - i));
            assert(t.skip(j + 13 + d) =~= t.skip(i + d).skip(j + 13 - i));
            lemma_readable_same_end(s, t, j + 13, d);
        }
    }
}

/// The references of a readable schematic begin with a character of one byte.
proof fn lemma_readable_place(s: Seq<char>, from: int, k: int)
    requires
        0 <= from,
        0 <= k < references_from(s, from).len(),
        is_readable(s, from),
    ensures
        utf8_width(s[references_from(s, from)[k].0]) == 1,
    decreases s.len() - from,
{
    let (i, end) = lemma_first_reference(s, from, k);
    if k > 0 {
        assert(references_from(s, from)[k] == references_from(s, i + 13)[k - 1]);
        lemma_readable_place(s, i + 13, k - 1);
    }
}

/// The schematic with the first `n` references numbered.
spec fn numbered(s: Seq<char>, n: int) -> Seq<char> {
    let places = references_from(s, 0);
    numbered_to(s, places, n) + s.skip(done_to(s, places, n))
}

proof fn lemma_done(s: Seq<char>, n: int, k: int)
    requires
        0 <= n <= k < references_from(s, 0).len(),
    ensures
        0 <= done_to(s, references_from(s, 0), n) <= references_from(s, 0)[k].0,
    decreases n,
{
    let places = references_from(s, 0);
    lemma_place(s, 0, k);
    if n > 0 {
        lemma_place(s, 0, n - 1);
        lemma_in_order(s, 0, n - 1, k);
        if !is_unnumbered(text_at(s, places[n - 1])) {
            lemma_done(s, n - 1, k);
        }
    }
}

proof fn lemma_in_order(s: Seq<char>, from: int, k: int, l: int)
    requires
        0 <= from,
        0 <= k < l < references_from(s, from).len(),
    ensures
        references_from(s, from)[k].1 < references_from(s, from)[l].0,
    decreases s.len() - from,
{
    let places = references_from(s, from);
    lemma_find_in(s, "(reference \""@, from, s.len() as int);
    let i = find_in(s, "(reference \""@, from, s.len() as int)->0;
    let rest = references_from(s, i + 13);
    lemma_find_in(s, "\""@, i + 12, s.len() as int);
    match find_in(s, "\""@, i + 12, s.len() as int) {
        Some(end) => {
            assert(places[l] == rest[l - 1]);
            if k > 0 {
                assert(places[k] == rest[k - 1]);
                lemma_in_order(s, i + 13, k - 1, l - 1);
            } else {
                lemma_place(s, i + 13, l - 1);
                let a = places[l].0;
                lemma_opening(s, a - 12, a - 1);
                lemma_quote(s, a - 1);
                if end >= a {
                    assert(!matches_at(s, "\""@, a - 1));
                }
            }
        },
        None => {
            lemma_in_order(s, i + 13, k, l);
        },
    }
}

proof fn lemma_without_marks(t: Seq<char>)
    ensures
        without_marks(t).len() <= t.len(),
        without_marks(t) == t.take(without_marks(t).len() as int),
    decreases t.len(),
{
    if t.len() > 0 && t.last() == '?' {
        lemma_without_marks(t.drop_last());
        let m = without_marks(t).len() as int;
        assert(t.drop_last().take(m) =~= t.take(m));
    } else {
        assert(t.take(t.len() as int) =~= t);
    }
}

/// A reference that is given out holds no quote and ends in a digit.
proof fn lemma_new_reference(s: Seq<char>, k: int)
    requires
        0 <= k < references_from(s, 0).len(),
    ensures
        ({
            let t = new_reference(s, references_from(s, 0), k);
            &&& t.len() > 0
            &&& is_digit(t.last())
            &&& forall|i: int| 0 <= i < t.len() ==> #[trigger] t[i] != '"'
        }),
{
    let places = references_from(s, 0);
    let (a, b) = places[k];
    let old = text_at(s, places[k]);
    let t = new_reference(s, places, k);
    let number = decimal(given_number(s, places, k));
    lemma_place(s, 0, k);
    lemma_without_marks(old);
    lemma_decimal_digits(given_number(s, places, k));
    let p = without_marks(old);
    assert(t.last() == number.last());
    assert(is_digit(number[number.len() - 1]));
    assert forall|i: int| 0 <= i < t.len() implies #[trigger] t[i] != '"' by {
        if i < p.len() {
            assert(t[i] == old[i]);
            lemma_quote(s, a + i);
            assert(!matches_at(s, "\""@, a + i));
        } else {
            assert(t[i] == number[i - p.len()]);
            assert(is_digit(number[i - p.len()]));
        }
    }
}

/// In a readable schematic, such a reference begins with a character of one byte.
proof fn lemma_new_reference_begins(s: Seq<char>, k: int)
    requires
        is_readable(s, 0),
        0 <= k < references_from(s, 0).len(),
    ensures
        utf8_width(new_reference(s, references_from(s, 0), k)[0]) == 1,
{
    let places = references_from(s, 0);
    let old = text_at(s, places[k]);
    let p = without_marks(old);
    let n = given_number(s, places, k);
    lemma_place(s, 0, k);
    lemma_readable_place(s, 0, k);
    lemma_without_marks(old);
    lemma_decimal_digits(n);
    if p.len() > 0 {
        assert(new_reference(s, places, k)[0] == old[0]);
    } else {
        assert(new_reference(s, places, k)[0] == decimal(n)[0]);
        assert(is_digit(decimal(n)[0]));
    }
}

/// Numbering one more reference replaces its text, which stands as far from the end as it did.
proof fn lemma_one_more(s: Seq<char>, n: int)
    requires
        0 < n <= references_from(s, 0).len(),
    ensures
        ({
            let places = references_from(s, 0);
            let (a, b) = places[n - 1];
            let t = numbered(s, n - 1);
            let d = t.len() - s.len();
            &&& 0 <= a + d
            &&& text_at(t, (a + d, b + d)) == text_at(s, (a, b))
            &&& numbered(s, n) == if is_unnumbered(text_at(s, (a, b))) {
                splice(t, a + d, b + d, new_reference(s, places, n - 1))
            } else {
                t
            }
        }),
{
    let places = references_from(s, 0);
    let (a, b) = places[n - 1];
    let t = numbered(s, n - 1);
    let d = t.len() - s.len();
    let done = done_to(s, places, n - 1);
    let head = numbered_to(s, places, n - 1);
    lemma_done(s, n - 1, n - 1);
    lemma_place(s, 0, n - 1);
    lemma_quote(s, b);
    assert(t == head + s.skip(done));
    assert(d == head.len() - done);
    assert(text_at(t, (a + d, b + d)) =~= text_at(s, (a, b)));
    if is_unnumbered(text_at(s, (a, b))) {
        assert(numbered(s, n) =~= splice(t, a + d, b + d, new_reference(s, places, n - 1)));
    }
}

/// The texts of the references up to one that gets another text.
proof fn lemma_texts_replaced(s: Seq<char>, k: int, t: Seq<char>, j: int)
    requires
        0 <= j <= k < references_from(s, 0).len(),
    ensures
        ({
            let places = references_from(s, 0);
            let after = moved(places, k, t.len() as int);
            text_at(splice(s, places[k].0, places[k].1, t), after[j]) == if j < k {
                text_at(s, places[j])
            } else {
                t
            }
        }),
{
    let places = references_from(s, 0);
    let s1 = splice(s, places[k].0, places[k].1, t);
    let after = moved(places, k, t.len() as int);
    lemma_place(s, 0, k);
    lemma_quote(s, places[k].1);
    if j < k {
        lemma_place(s, 0, j);
        lemma_in_order(s, 0, j, k);
        assert(text_at(s1, after[j]) =~= text_at(s, places[j]));
    } else {
        assert(text_at(s1, after[j]) =~= t);
    }
}

/// Numbering the first `n` references numbers those and leaves the others where they are,
/// counted from the end.
proof fn lemma_numbered(s: Seq<char>, n: int)
    requires
        0 <= n <= references_from(s, 0).len(),
    ensures
        ({
            let places = references_from(s, 0);
            let t = numbered(s, n);
            let after = references_from(t, 0);
            let d = t.len() - s.len();
            &&& is_readable(s, 0) ==> is_readable(t, 0)
            &&& after.len() == places.len()
            &&& forall|k: int|
                0 <= k < n ==> text_at(t, #[trigger] after[k]) == reference_after(s, places, k)
            &&& forall|k: int|
                n <= k < places.len() ==> #[trigger] after[k] == (
                    places[k].0 + d,
                    places[k].1 + d,
                )
        }),
    decreases n,
{
    let places = references_from(s, 0);
    let t = numbered(s, n);
    let after = references_from(t, 0);
    if n <= 0 {
        assert(t =~= s);
    } else {
        lemma_numbered(s, n - 1);
        lemma_one_more(s, n);
        let t0 = numbered(s, n - 1);
        let after0 = references_from(t0, 0);
        let d0 = t0.len() - s.len();
        let (a, b) = places[n - 1];
        assert(after0[n - 1] == (a + d0, b + d0));
        if is_unnumbered(text_at(s, places[n - 1])) {
            let new = new_reference(s, places, n - 1);
            lemma_new_reference(s, n - 1);
            lemma_replaced(t0, 0, n - 1, new);
            if is_readable(s, 0) {
                lemma_new_reference_begins(s, n - 1);
                lemma_readable_replaced(t0, 0, n - 1, new);
            }
            assert forall|k: int| 0 <= k < n implies text_at(t, #[trigger] after[k])
                == reference_after(s, places, k) by {
                lemma_texts_replaced(t0, n - 1, new, k);
                assert(k < n - 1 ==> text_at(t0, after0[k]) == reference_after(s, places, k));
            }
            lemma_place(s, 0, n - 1);
            lemma_place(t0, 0, n - 1);
            lemma_quote(t0, b + d0);
            assert(t.len() == t0.len() + new.len() - (b - a));
            assert forall|k: int| n <= k < places.len() implies #[trigger] after[k] == (
                places[k].0 + t.len() - s.len(),
                places[k].1 + t.len() - s.len(),
            ) by {
                assert(after0[k] == (places[k].0 + d0, places[k].1 + d0));
            }
        }
    }
}

/// Annotating a schematic numbers the references that want it and touches no other: the
/// references of the annotated schematic are the old ones, in their order, each with its
/// number.
pub proof fn law_references_after_annotation(s: Seq<char>, k: int)
    ensures
        references_from(annotated(s), 0).len() == references_from(s, 0).len(),
        0 <= k < references_from(s, 0).len() ==> text_at(
            annotated(s),
            references_from(annotated(s), 0)[k],
        ) == reference_after(s, references_from(s, 0), k),
{
    lemma_numbered(s, references_from(s, 0).len() as int);
    if 0 <= k < references_from(s, 0).len() {
        assert(references_from(annotated(s), 0)[k] == references_from(
            numbered(s, references_from(s, 0).len() as int),
            0,
        )[k]);
    }
}

/// An annotated schematic is left as it is when it is annotated again.
pub proof fn law_annotating_twice(s: Seq<char>)
    ensures
        annotated(annotated(s)) == annotated(s),
{
    let t = annotated(s);
    assert forall|k: int| 0 <= k < references_from(t, 0).len() implies !is_unnumbered(
        text_at(t, #[trigger] references_from(t, 0)[k]),
    ) by {
        law_references_after_annotation(s, k);
        lemma_new_reference(s, k);
    }
    law_references_after_annotation(s, 0);
    law_numbered_schematic_is_unchanged(t);
}

/// The last digits of a number make no greater one.
proof fn lemma_last_digits(s: Seq<char>, k: int)
    requires
        0 <= k <= s.len(),
    ensures
        digits_value(s.skip(k)) <= digits_value(s),
    decreases s.len(),
{
    if k < s.len() {
        assert(s.skip(k).drop_last() =~= s.drop_last().skip(k));
        assert(s.skip(k).last() == s.last());
        lemma_last_digits(s.drop_last(), k);
    }
}

/// The number in a reference is at most the one that was written behind a prefix that does
/// not end in a digit.
proof fn lemma_number_read(prefix: Seq<char>, n: nat)
    requires
        prefix.len() == 0 || !is_digit(prefix.last()),
    ensures
        number_of(prefix + decimal(n)) matches Some(m) ==> m <= n,
{
    let t = prefix + decimal(n);
    let skipped = utf8_len(prefix_of(t));
    let k = if skipped <= t.len() {
        skipped as int
    } else {
        t.len() as int
    };
    let tail = t.skip(k);
    lemma_decimal_digits(n);
    if number_of(t) is Some {
        let digits = if tail[0] == '+' {
            tail.skip(1)
        } else {
            tail
        };
        let from = t.len() - digits.len();
        if from < prefix.len() {
            assert(digits[prefix.len() - 1 - from] == prefix.last());
        }
        assert(digits =~= decimal(n).skip(from - prefix.len()));
        lemma_last_digits(decimal(n), from - prefix.len());
    }
}

/// A schematic that was annotated can be annotated again, unless a reference that was given
/// out reads as the highest number there is.
pub proof fn law_annotated_schematic_can_be_annotated(s: Seq<char>)
    requires
        can_be_annotated(s),
    ensures
        can_be_annotated(annotated(s)) <==> forall|k: int|
            0 <= k < references_from(s, 0).len() && is_unnumbered(
                text_at(s, #[trigger] references_from(s, 0)[k]),
            ) ==> number_of(new_reference(s, references_from(s, 0), k)) != Some(usize::MAX as nat),
{
    let places = references_from(s, 0);
    let t = annotated(s);
    let after = references_from(t, 0);
    lemma_numbered(s, places.len() as int);
    assert(t == numbered(s, places.len() as int));
    assert forall|k: int| 0 <= k < after.len() implies !is_unnumbered(
        text_at(t, #[trigger] after[k]),
    ) && text_at(t, after[k]) == reference_after(s, places, k) by {
        lemma_new_reference(s, k);
    }
    let max = usize::MAX as nat;
    if forall|k: int|
        0 <= k < places.len() && is_unnumbered(text_at(s, #[trigger] places[k])) ==> number_of(
            new_reference(s, places, k),
        ) != Some(max) {
        assert forall|k: int| 0 <= k < after.len() implies number_of(
            text_at(t, #[trigger] after[k]),
        ) != Some(max) by {
            assert(number_of(text_at(s, places[k])) != Some(max));
        }
    } else {
        let k = choose|k: int|
            0 <= k < places.len() && is_unnumbered(text_at(s, #[trigger] places[k])) && number_of(
                new_reference(s, places, k),
            ) == Some(max);
        assert(number_of(text_at(t, after[k])) == Some(max));
    }
}

/// A schematic in which no prefix that wants a number ends in a digit can be annotated a
/// second time, and is left as it is then.
pub proof fn law_second_annotation_changes_nothing(s: Seq<char>)
    requires
        can_be_annotated(s),
        forall|k: int|
            0 <= k < references_from(s, 0).len() && is_unnumbered(
                text_at(s, #[trigger] references_from(s, 0)[k]),
            ) ==> {
                let prefix = without_marks(text_at(s, references_from(s, 0)[k]));
                prefix.len() == 0 || !is_digit(prefix.last())
            },
    ensures
        can_be_annotated(annotated(s)),
        annotated(annotated(s)) == annotated(s),
{
    let places = references_from(s, 0);
    assert forall|k: int|
        0 <= k < places.len() && is_unnumbered(text_at(s, #[trigger] places[k])) implies number_of(
        new_reference(s, places, k),
    ) != Some(usize::MAX as nat) by {
        lemma_number_read(without_marks(text_at(s, places[k])), given_number(s, places, k));
    }
    law_annotated_schematic_can_be_annotated(s);
    law_annotating_twice(s);
}

// ─── What annotating does ─────────────────────────────────────────────────────

/// Every reference that is found stands between quotes behind an opening `(reference `, and
/// reaches to the next quote.
pub proof fn law_found_references_are_references(s: Seq<char>, k: int)
    requires
        0 <= k < references_from(s, 0).len(),
    ensures
        ({
            let (a, b) = references_from(s, 0)[k];
            &&& matches_at(s, "(reference \""@, a - 12)
            &&& a <= b < s.len()
            &&& s[b] == '"'
            &&& forall|j: int| a <= j < b ==> #[trigger] s[j] != '"'
        }),
{
    lemma_place(s, 0, k);
    let (a, b) = references_from(s, 0)[k];
    lemma_quote(s, b);
    assert forall|j: int| a <= j < b implies #[trigger] s[j] != '"' by {
        lemma_quote(s, j);
        assert(!matches_at(s, "\""@, j));
    }
}

proof fn lemma_reference_found(s: Seq<char>, from: int, i: int, end: int)
    requires
        0 <= from <= i,
        matches_at(s, "(reference \""@, i),
        !matches_at(s, "(reference \""@, i - 12),
        is_first_match(s, "\""@, i + 12, s.len() as int, end),
    ensures
        references_from(s, from).contains((i + 12, end)),
    decreases s.len() - from,
{
    let n = s.len() as int;
    reveal_strlit("(reference \"");
    reveal_strlit("\"");
    lemma_find_in(s, "(reference \""@, from, n);
    let k = find_in(s, "(reference \""@, from, n)->0;
    let rest = references_from(s, k + 13);
    let all = references_from(s, from);
    lemma_find_in(s, "\""@, k + 12, n);
    assert(k <= i);
    if k == i {
        lemma_first_is_found(s, "\""@, i + 12, n, end);
        assert(all[0] == (i + 12, end));
    } else {
        assert(k + 13 <= i) by {
            if i < k + 12 {
                assert(s.subrange(k, k + 12)[i - k] == "(reference \""@[i - k]);
                assert(s.subrange(i, i + 12)[0] == "(reference \""@[0]);
            }
        }
        lemma_reference_found(s, k + 13, i, end);
        let j = choose|j: int| 0 <= j < rest.len() && rest[j] == (i + 12, end);
        if find_in(s, "\""@, k + 12, n) is Some {
            assert(all[j + 1] == rest[j]);
        } else {
            assert(all[j] == rest[j]);
        }
    }
}

/// No reference is passed over: every text between quotes behind an opening `(reference ` is
/// found, unless that opening is itself the beginning of such a text.
pub proof fn law_no_reference_is_passed_over(s: Seq<char>, i: int, end: int)
    requires
        matches_at(s, "(reference \""@, i),
        !matches_at(s, "(reference \""@, i - 12),
        i + 12 <= end < s.len(),
        s[end] == '"',
        forall|j: int| i + 12 <= j < end ==> #[trigger] s[j] != '"',
    ensures
        references_from(s, 0).contains((i + 12, end)),
{
    reveal_strlit("\"");
    lemma_quote(s, end);
    assert forall|j: int| i + 12 <= j < end implies !#[trigger] matches_at(s, "\""@, j) by {
        lemma_quote(s, j);
    }
    lemma_reference_found(s, 0, i, end);
}

/// The marks of a reference without a number are the question marks at its end, all of them.
pub proof fn law_marks(p: Seq<char>, marks: Seq<char>)
    requires
        p.len() == 0 || p.last() != '?',
        forall|i: int| 0 <= i < marks.len() ==> #[trigger] marks[i] == '?',
    ensures
        without_marks(p + marks) == p,
        is_unnumbered(p + marks) <==> marks.len() > 0,
    decreases marks.len(),
{
    if marks.len() == 0 {
        assert(p + marks =~= p);
    } else {
        assert((p + marks).drop_last() =~= p + marks.drop_last());
        assert(marks[marks.len() - 1] == '?');
        assert forall|i: int| 0 <= i < marks.drop_last().len() implies #[trigger] marks.drop_last()[
            i] == '?' by {
            assert(marks.drop_last()[i] == marks[i]);
        }
        law_marks(p, marks.drop_last());
    }
}

/// A prefix of ASCII letters and a number are read back from the reference that they make.
pub proof fn law_parts_of_a_reference(prefix: Seq<char>, n: nat)
    requires
        is_plain_prefix(prefix),
        n <= usize::MAX,
    ensures
        prefix_of(prefix + decimal(n)) == prefix,
        number_of(prefix + decimal(n)) == Some(n),
{
    lemma_parts(prefix, n);
}

/// What follows the letters of a reference is its number where it is one: a reference with
/// anything else there has none.
pub proof fn law_number_follows_the_letters(prefix: Seq<char>, rest: Seq<char>)
    requires
        is_plain_prefix(prefix),
        rest.len() > 0 ==> !is_letter(rest[0]) && rest[0] != '#',
    ensures
        prefix_of(prefix + rest) == prefix,
        number_of(prefix + rest) == read_unsigned(rest, usize::MAX as nat),
{
    let t = prefix + rest;
    let n = prefix.len() as int;
    if rest.len() > 0 {
        assert(t[n] == rest[0]);
    }
    lemma_letters_end(t, 0, n);
    assert(t.take(n) =~= prefix);
    lemma_plain_len(prefix);
    assert(t.skip(n) =~= rest);
}

/// A reference that ends in question marks gets a number in their place; any other is kept to
/// the letter.
pub proof fn law_reference_gets_a_number(s: Seq<char>, k: int, p: Seq<char>, marks: Seq<char>)
    requires
        0 <= k < references_from(s, 0).len(),
        s.subrange(references_from(s, 0)[k].0, references_from(s, 0)[k].1) == p + marks,
        p.len() == 0 || p.last() != '?',
        forall|i: int| 0 <= i < marks.len() ==> #[trigger] marks[i] == '?',
    ensures
        ({
            let (a, b) = references_from(annotated(s), 0)[k];
            let after = annotated(s).subrange(a, b);
            &&& marks.len() > 0 ==> after == p + decimal(
                given_number(s, references_from(s, 0), k),
            )
            &&& marks.len() == 0 ==> after == p
        }),
{
    law_references_after_annotation(s, k);
    law_marks(p, marks);
    if marks.len() == 0 {
        assert(p + marks =~= p);
    }
}

proof fn lemma_next_used_exact(s: Seq<char>, places: Seq<(int, int)>, prefix: Seq<char>)
    ensures
        match next_used(s, places, prefix) {
            Some(m) => m > 0 && exists|l: int|
                0 <= l < places.len() && prefix_of(text_at(s, #[trigger] places[l])) == prefix
                    && number_of(text_at(s, places[l])) == Some((m - 1) as nat),
            None => forall|l: int|
                0 <= l < places.len() && prefix_of(text_at(s, #[trigger] places[l])) == prefix
                    ==> number_of(text_at(s, places[l])) is None,
        },
    decreases places.len(),
{
    if places.len() > 0 {
        let before = places.drop_last();
        lemma_next_used_exact(s, before, prefix);
        let last = places.len() - 1;
        let t = text_at(s, places[last]);
        match next_used(s, places, prefix) {
            Some(m) => {
                if prefix_of(t) == prefix && number_of(t) == Some((m - 1) as nat) && m > 0 {
                    assert(prefix_of(text_at(s, places[last])) == prefix);
                } else {
                    let l = choose|l: int|
                        0 <= l < before.len() && prefix_of(text_at(s, #[trigger] before[l]))
                            == prefix && number_of(text_at(s, before[l])) == Some((m - 1) as nat);
                    assert(places[l] == before[l]);
                }
            },
            None => {
                assert forall|l: int|
                    0 <= l < places.len() && prefix_of(text_at(s, #[trigger] places[l]))
                        == prefix implies number_of(text_at(s, places[l])) is None by {
                    if l < last {
                        assert(before[l] == places[l]);
                    }
                }
            },
        }
    }
}

/// The first reference of a prefix that gets a number gets the one after the highest that is
/// used with the prefix, and 1 where none is used.
pub proof fn law_first_number_of_a_prefix(s: Seq<char>, k: int, prefix: Seq<char>)
    requires
        0 <= k < references_from(s, 0).len(),
        without_marks(text_at(s, references_from(s, 0)[k])) == prefix,
        forall|m: int|
            0 <= m < k ==> !(is_unnumbered(text_at(s, #[trigger] references_from(s, 0)[m]))
                && without_marks(text_at(s, references_from(s, 0)[m])) == prefix),
    ensures
        ({
            let places = references_from(s, 0);
            let n = given_number(s, places, k);
            &&& forall|l: int|
                0 <= l < places.len() && prefix_of(text_at(s, #[trigger] places[l])) == prefix ==> (
                number_of(text_at(s, places[l])) matches Some(used) ==> used < n)
            &&& n == 1 || exists|l: int|
                0 <= l < places.len() && prefix_of(text_at(s, #[trigger] places[l])) == prefix
                    && number_of(text_at(s, places[l])) == Some((n - 1) as nat)
            &&& n >= 1
        }),
{
    let places = references_from(s, 0);
    let n = given_number(s, places, k);
    lemma_none_wanted(s, places, 0, k, prefix);
    assert(places.take(0) =~= Seq::<(int, int)>::empty());
    assert(wanted(s, places.take(0), prefix) == 0);
    lemma_next_used_exact(s, places, prefix);
    assert forall|l: int|
        0 <= l < places.len() && prefix_of(text_at(s, #[trigger] places[l])) == prefix implies (
    number_of(text_at(s, places[l])) matches Some(used) ==> used < n) by {
        if let Some(used) = number_of(text_at(s, places[l])) {
            lemma_next_used(s, places, l, used);
        }
    }
}

/// The text between two neighbouring references, before the first or behind the last.
pub open spec fn between(s: Seq<char>, places: Seq<(int, int)>, k: int) -> Seq<char> {
    s.subrange(
        if k == 0 {
            0
        } else {
            places[k - 1].1
        },
        if k < places.len() {
            places[k].0
        } else {
            s.len() as int
        },
    )
}

proof fn lemma_between_moved(s: Seq<char>, n: int, x: Seq<char>, k: int)
    requires
        0 <= n < references_from(s, 0).len(),
        0 <= k <= references_from(s, 0).len(),
    ensures
        ({
            let places = references_from(s, 0);
            between(
                splice(s, places[n].0, places[n].1, x),
                moved(places, n, x.len() as int),
                k,
            ) == between(s, places, k)
        }),
{
    let places = references_from(s, 0);
    let (a, b) = places[n];
    let s1 = splice(s, a, b, x);
    let after = moved(places, n, x.len() as int);
    lemma_place(s, 0, n);
    lemma_quote(s, b);
    if k > 0 {
        lemma_place(s, 0, k - 1);
        lemma_quote(s, places[k - 1].1);
        if k - 1 < n {
            lemma_in_order(s, 0, k - 1, n);
        } else if n < k - 1 {
            lemma_in_order(s, 0, n, k - 1);
        }
    }
    if k < places.len() {
        lemma_place(s, 0, k);
        lemma_quote(s, places[k].1);
        if k < n {
            lemma_in_order(s, 0, k, n);
        } else if n < k {
            lemma_in_order(s, 0, n, k);
        }
        if k > 0 {
            lemma_in_order(s, 0, k - 1, k);
        }
    }
    assert(between(s1, after, k) =~= between(s, places, k));
}

proof fn lemma_between_numbered(s: Seq<char>, n: int, k: int)
    requires
        0 <= n <= references_from(s, 0).len(),
        0 <= k <= references_from(s, 0).len(),
    ensures
        between(numbered(s, n), references_from(numbered(s, n), 0), k) == between(
            s,
            references_from(s, 0),
            k,
        ),
    decreases n,
{
    let places = references_from(s, 0);
    if n <= 0 {
        assert(numbered(s, 0) =~= s);
    } else {
        lemma_between_numbered(s, n - 1, k);
        lemma_numbered(s, n - 1);
        lemma_one_more(s, n);
        let t0 = numbered(s, n - 1);
        let after0 = references_from(t0, 0);
        let d0 = t0.len() - s.len();
        assert(after0[n - 1] == (places[n - 1].0 + d0, places[n - 1].1 + d0));
        if is_unnumbered(text_at(s, places[n - 1])) {
            let new = new_reference(s, places, n - 1);
            lemma_new_reference(s, n - 1);
            lemma_replaced(t0, 0, n - 1, new);
            lemma_between_moved(t0, n - 1, new, k);
        }
    }
}

/// Annotating a schematic changes nothing but references: the text before the first, between
/// any two neighbours and behind the last stays as it is.
pub proof fn law_rest_of_the_schematic_is_kept(s: Seq<char>, k: int)
    requires
        0 <= k <= references_from(s, 0).len(),
    ensures
        references_from(annotated(s), 0).len() == references_from(s, 0).len(),
        between(annotated(s), references_from(annotated(s), 0), k) == between(
            s,
            references_from(s, 0),
            k,
        ),
{
    let n = references_from(s, 0).len() as int;
    law_references_after_annotation(s, k);
    lemma_between_numbered(s, n, k);
    assert(annotated(s) == numbered(s, n));
}

proof fn lemma_ascii_is_readable(s: Seq<char>, from: int)
    requires
        0 <= from,
        forall|i: int| 0 <= i < s.len() ==> #[trigger] s[i] <= '\u{7f}',
        forall|i: int| #[trigger] matches_at(s, "(reference \""@, i) ==> i + 12 < s.len(),
    ensures
        is_readable(s, from),
    decreases s.len() - from,
{
    reveal_strlit("(reference \"");
    lemma_find_in(s, "(reference \""@, from, s.len() as int);
    if let Some(i) = find_in(s, "(reference \""@, from, s.len() as int) {
        assert(s[i + 12] <= '\u{7f}');
        lemma_ascii_is_readable(s, i + 13);
    }
}

/// A schematic in ASCII can be annotated, where something follows every opening of a
/// reference and the numbers leave room for the next ones.
pub proof fn law_ascii_schematic_can_be_annotated(s: Seq<char>)
    requires
        forall|i: int| 0 <= i < s.len() ==> #[trigger] s[i] <= '\u{7f}',
        forall|i: int| #[trigger] matches_at(s, "(reference \""@, i) ==> i + 12 < s.len(),
        forall|k: int|
            0 <= k < references_from(s, 0).len() ==> number_of(
                text_at(s, #[trigger] references_from(s, 0)[k]),
            ) != Some(usize::MAX as nat),
        forall|k: int|
            0 <= k < references_from(s, 0).len() && is_unnumbered(
                text_at(s, #[trigger] references_from(s, 0)[k]),
            ) ==> given_number(s, references_from(s, 0), k) < usize::MAX,
    ensures
        can_be_annotated(s),
{
    lemma_ascii_is_readable(s, 0);
}

} // verus!
