//! The order of texts, and lists of texts kept in that order.
use vstd::prelude::*;
use crate::text::chars_of;

verus! {

/// The texts of a list of strings.
pub open spec fn texts(v: Seq<String>) -> Seq<Seq<char>> {
    Seq::new(v.len(), |i: int| v[i]@)
}

/// Does `a` come before `b`, character by character?
pub open spec fn text_less(a: Seq<char>, b: Seq<char>) -> bool
    decreases a.len(),
{
    if b.len() == 0 {
        false
    } else if a.len() == 0 {
        true
    } else if a[0] != b[0] {
        a[0] < b[0]
    } else {
        text_less(a.skip(1), b.skip(1))
    }
}

/// Is `s` in strictly ascending order, so that nothing occurs twice in it?
pub open spec fn ascending(s: Seq<Seq<char>>) -> bool {
    forall|i: int, j: int|
        0 <= i < j < s.len() ==> text_less(#[trigger] s[i], #[trigger] s[j])
}

/// No text comes before itself.
pub proof fn lemma_less_irreflexive(a: Seq<char>)
    ensures
        !text_less(a, a),
    decreases a.len(),
{
    if a.len() > 0 {
        lemma_less_irreflexive(a.skip(1));
    }
}

/// What comes before something that comes before `c` comes before `c`.
pub proof fn lemma_less_transitive(a: Seq<char>, b: Seq<char>, c: Seq<char>)
    requires
        text_less(a, b),
        text_less(b, c),
    ensures
        text_less(a, c),
    decreases a.len(),
{
    if a.len() > 0 && a[0] == b[0] && b[0] == c[0] {
        lemma_less_transitive(a.skip(1), b.skip(1), c.skip(1));
    }
}

/// Of two different texts one comes before the other.
pub proof fn lemma_less_total(a: Seq<char>, b: Seq<char>)
    ensures
        text_less(a, b) || a == b || text_less(b, a),
    decreases a.len(),
{
    if a.len() == 0 || b.len() == 0 {
        if a.len() == 0 && b.len() == 0 {
            assert(a =~= b);
        }
    } else if a[0] == b[0] {
        lemma_less_total(a.skip(1), b.skip(1));
        if a.skip(1) == b.skip(1) {
            assert(a =~= seq![a[0]] + a.skip(1));
            assert(b =~= seq![b[0]] + b.skip(1));
        }
    }
}

/// Does `a` come before `b`?
pub fn is_less(a: &str, b: &str) -> (r: bool)
    ensures
        r == text_less(a@, b@),
{
    let x = chars_of(a);
    let y = chars_of(b);
    let mut i: usize = 0;
    assert(x@.skip(0) =~= x@);
    assert(y@.skip(0) =~= y@);
    while i < x.len() && i < y.len()
        invariant
            x@ == a@,
            y@ == b@,
            i <= x@.len(),
            i <= y@.len(),
            text_less(x@, y@) == text_less(x@.skip(i as int), y@.skip(i as int)),
        decreases x@.len() - i,
    {
        if x[i] != y[i] {
            let p: char = x[i];
            let q: char = y[i];
            return p < q;
        }
        assert(x@.skip(i as int).skip(1) =~= x@.skip(i + 1));
        assert(y@.skip(i as int).skip(1) =~= y@.skip(i + 1));
        i = i + 1;
    }
    i < y.len()
}

/// Is `x` one of `v`?
pub fn has_text(v: &Vec<String>, x: &str) -> (r: bool)
    ensures
        r == texts(v@).contains(x@),
{
    let mut i: usize = 0;
    while i < v.len()
        invariant
            i <= v@.len(),
            forall|j: int| 0 <= j < i ==> v@[j]@ != x@,
        decreases v@.len() - i,
    {
        if *v[i].as_str() == *x {
            assert(texts(v@)[i as int] == x@);
            return true;
        }
        i = i + 1;
    }
    proof {
        if texts(v@).contains(x@) {
            let j = choose|j: int| 0 <= j < texts(v@).len() && texts(v@)[j] == x@;
            assert(v@[j]@ == x@);
        }
    }
    false
}

/// Puts `x` in its place in an ascending list, unless it is there already.
pub fn insert_ascending(v: &mut Vec<String>, x: String)
    requires
        ascending(texts(old(v)@)),
    ensures
        ascending(texts(final(v)@)),
        texts(final(v)@).to_set() == texts(old(v)@).to_set().insert(x@),
{
    let ghost before = texts(v@);
    let mut i: usize = 0;
    while i < v.len() && is_less(v[i].as_str(), x.as_str())
        invariant
            i <= v@.len(),
            before == texts(v@),
            v@ == old(v)@,
            forall|j: int| 0 <= j < i ==> text_less(#[trigger] before[j], x@),
        decreases v@.len() - i,
    {
        assert(before[i as int] == v@[i as int]@);
        i = i + 1;
    }
    if i < v.len() && *v[i].as_str() == *x.as_str() {
        proof {
            assert(before[i as int] == x@);
            assert(before.to_set().insert(x@) =~= before.to_set());
        }
        return;
    }
    let ghost t = x@;
    v.insert(i, x);
    proof {
        let after = texts(v@);
        assert(after =~= before.insert(i as int, t));
        if i < before.len() {
            lemma_less_total(before[i as int], t);
        }
        assert forall|j: int| i <= j < before.len() implies text_less(t, #[trigger] before[j]) by {
            if j > i {
                lemma_less_transitive(t, before[i as int], before[j]);
            }
        }
        assert forall|a: int, b: int| 0 <= a < b < after.len() implies text_less(
            #[trigger] after[a],
            #[trigger] after[b],
        ) by {
            let p = if a < i { a } else { a - 1 };
            let q = if b < i { b } else { b - 1 };
            if a == i {
                assert(after[b] == before[q]);
            } else if b == i {
                assert(after[a] == before[p]);
            } else {
                assert(after[a] == before[p] && after[b] == before[q]);
            }
        }
        assert forall|y: Seq<char>| after.to_set().contains(y) == before.to_set().insert(
            t,
        ).contains(y) by {
            if after.contains(y) {
                let k = choose|k: int| 0 <= k < after.len() && after[k] == y;
                if k < i {
                    assert(before[k] == y);
                } else if k > i {
                    assert(before[k - 1] == y);
                }
            }
            if before.contains(y) {
                let k = choose|k: int| 0 <= k < before.len() && before[k] == y;
                if k < i {
                    assert(after[k] == y);
                } else {
                    assert(after[k + 1] == y);
                }
            }
            if y == t {
                assert(after[i as int] == y);
            }
        }
        assert(after.to_set() =~= before.to_set().insert(t));
    }
}

// ─── Laws ─────────────────────────────────────────────────────────────────────

/// The first character in which two texts differ decides which of them comes first; where
/// one is the beginning of the other, the shorter one does.
pub proof fn law_first_difference_decides(a: Seq<char>, b: Seq<char>, k: int)
    requires
        0 <= k <= a.len(),
        k <= b.len(),
        forall|j: int| 0 <= j < k ==> #[trigger] a[j] == b[j],
    ensures
        k < a.len() && k < b.len() && a[k] != b[k] ==> (text_less(a, b) <==> a[k] < b[k]),
        k == a.len() ==> (text_less(a, b) <==> a.len() < b.len()),
        k == b.len() ==> !text_less(a, b),
    decreases k,
{
    if k > 0 {
        assert(a[0] == b[0]);
        assert forall|j: int| 0 <= j < k - 1 implies #[trigger] a.skip(1)[j] == b.skip(1)[j] by {
            assert(a[j + 1] == b[j + 1]);
        }
        law_first_difference_decides(a.skip(1), b.skip(1), k - 1);
    }
}

} // verus!
