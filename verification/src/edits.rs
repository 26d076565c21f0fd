//! What an edit of the text does to the tree: replacing the text of a list replaces the
//! list, and nothing else.
use vstd::prelude::*;
use crate::sexp::{
    is_delimiter, is_space, read_items, read_node, read_quoted, read_sexp, skip_space, word_end,
    Sexp,
};
use crate::text::splice;

verus! {

// ─── Where a reading ends ─────────────────────────────────────────────────────

pub proof fn lemma_skip_space(s: Seq<char>, i: int)
    requires
        0 <= i <= s.len(),
    ensures
        i <= skip_space(s, i) <= s.len(),
        skip_space(s, i) < s.len() ==> !is_space(s[skip_space(s, i)]),
        skip_space(s, skip_space(s, i)) == skip_space(s, i),
        forall|k: int| i <= k < skip_space(s, i) ==> is_space(#[trigger] s[k]),
    decreases s.len() - i,
{
    if i < s.len() && is_space(s[i]) {
        lemma_skip_space(s, i + 1);
    }
}

pub proof fn lemma_word_end(s: Seq<char>, i: int)
    requires
        0 <= i <= s.len(),
    ensures
        i <= word_end(s, i) <= s.len(),
        i < s.len() && !is_delimiter(s[i]) ==> i < word_end(s, i),
    decreases s.len() - i,
{
    if i < s.len() && !is_delimiter(s[i]) {
        lemma_word_end(s, i + 1);
    }
}

pub proof fn lemma_quoted_end(s: Seq<char>, i: int)
    ensures
        read_quoted(s, i) matches Some((_, end)) ==> 0 <= i < end <= s.len() && s[end - 1] == '"',
    decreases s.len() - i,
{
    if 0 <= i < s.len() {
        if s[i] == '\\' {
            if i + 1 < s.len() {
                lemma_quoted_end(s, i + 2);
            }
        } else if s[i] != '"' {
            lemma_quoted_end(s, i + 1);
        }
    }
}

pub proof fn lemma_node_end(s: Seq<char>, i: int)
    requires
        0 <= i <= s.len(),
    ensures
        read_node(s, i) matches Some((_, end)) ==> i <= skip_space(s, i) < end <= s.len(),
        read_node(s, i) == read_node(s, skip_space(s, i)),
    decreases s.len() - i, 0nat,
{
    lemma_skip_space(s, i);
    let j = skip_space(s, i);
    if j < s.len() && s[j] != ')' {
        if s[j] == '(' {
            lemma_items_end(s, j + 1);
        } else if s[j] == '"' {
            lemma_quoted_end(s, j + 1);
        } else {
            lemma_word_end(s, j);
        }
    }
}

pub proof fn lemma_items_end(s: Seq<char>, i: int)
    requires
        0 <= i <= s.len(),
    ensures
        read_items(s, i) matches Some((_, end)) ==> i < end <= s.len() && s[end - 1] == ')',
    decreases s.len() - i, 1nat,
{
    lemma_skip_space(s, i);
    let j = skip_space(s, i);
    if j < s.len() && s[j] != ')' {
        lemma_node_end(s, j);
        if let Some((_, end)) = read_node(s, j) {
            if j < end <= s.len() {
                lemma_items_end(s, end);
            }
        }
    }
}

// ─── Texts that begin alike ───────────────────────────────────────────────────

/// Are `s` and `t` the same up to position `c`, where a word ends in both?
pub open spec fn begin_alike(s: Seq<char>, t: Seq<char>, c: int) -> bool {
    &&& 0 <= c < s.len()
    &&& c < t.len()
    &&& is_delimiter(s[c])
    &&& is_delimiter(t[c])
    &&& forall|k: int| 0 <= k < c ==> s[k] == #[trigger] t[k]
}

/// Does a reading of `s` that ends at `end` see nothing that differs in `t`?
pub open spec fn seen(s: Seq<char>, t: Seq<char>, c: int, end: int) -> bool {
    end <= c || (end == c + 1 && s[c] == t[c])
}

pub proof fn lemma_alike_space(s: Seq<char>, t: Seq<char>, c: int, i: int)
    requires
        begin_alike(s, t, c),
        0 <= i <= c,
    ensures
        skip_space(s, i) < c ==> skip_space(t, i) == skip_space(s, i),
        skip_space(s, i) >= c ==> skip_space(s, i) == skip_space(s, c) && skip_space(t, i)
            == skip_space(t, c),
    decreases c - i,
{
    if i < c {
        assert(s[i] == t[i]);
        if is_space(s[i]) {
            lemma_alike_space(s, t, c, i + 1);
        }
    } else {
        lemma_skip_space(s, c);
    }
}

proof fn lemma_alike_word(s: Seq<char>, t: Seq<char>, c: int, i: int)
    requires
        begin_alike(s, t, c),
        0 <= i <= c,
    ensures
        word_end(s, i) == word_end(t, i),
        word_end(s, i) <= c,
    decreases c - i,
{
    if i < c {
        assert(s[i] == t[i]);
        if !is_delimiter(s[i]) {
            lemma_alike_word(s, t, c, i + 1);
        }
    }
}

proof fn lemma_alike_quoted(s: Seq<char>, t: Seq<char>, c: int, i: int)
    requires
        begin_alike(s, t, c),
        read_quoted(s, i) matches Some((_, end)) && seen(s, t, c, end),
    ensures
        read_quoted(t, i) == read_quoted(s, i),
    decreases s.len() - i,
{
    lemma_quoted_end(s, i);
    assert(i < c ==> s[i] == t[i]);
    if s[i] == '\\' {
        lemma_quoted_end(s, i + 2);
        assert(i + 1 < c ==> s[i + 1] == t[i + 1]);
        lemma_alike_quoted(s, t, c, i + 2);
    } else if s[i] != '"' {
        lemma_quoted_end(s, i + 1);
        lemma_alike_quoted(s, t, c, i + 1);
    }
}

pub proof fn lemma_alike_node(s: Seq<char>, t: Seq<char>, c: int, i: int)
    requires
        begin_alike(s, t, c),
        0 <= i <= c,
        read_node(s, i) matches Some((_, end)) && seen(s, t, c, end),
    ensures
        read_node(t, i) == read_node(s, i),
    decreases s.len() - i, 0nat,
{
    lemma_node_end(s, i);
    lemma_alike_space(s, t, c, i);
    let j = skip_space(s, i);
    let end = (read_node(s, i)->0).1;
    if j == c {
        // What is read is a single character that is the same in both.
        assert(end == c + 1);
        lemma_skip_space(s, i);
        lemma_skip_space(t, i);
        if s[c] == '(' {
            lemma_items_end(s, c + 1);
        } else if s[c] == '"' {
            lemma_quoted_end(s, c + 1);
        }
        assert(false);
    }
    assert(s[j] == t[j]);
    if s[j] == '(' {
        lemma_items_end(s, j + 1);
        lemma_alike_items(s, t, c, j + 1);
    } else if s[j] == '"' {
        lemma_alike_quoted(s, t, c, j + 1);
    } else {
        lemma_alike_word(s, t, c, j);
        assert(s.subrange(j, word_end(s, j)) =~= t.subrange(j, word_end(t, j)));
    }
}

proof fn lemma_alike_items(s: Seq<char>, t: Seq<char>, c: int, i: int)
    requires
        begin_alike(s, t, c),
        0 <= i <= c,
        read_items(s, i) matches Some((_, end)) && seen(s, t, c, end),
    ensures
        read_items(t, i) == read_items(s, i),
    decreases s.len() - i, 1nat,
{
    lemma_skip_space(s, i);
    lemma_alike_space(s, t, c, i);
    let j = skip_space(s, i);
    if s[j] == ')' {
        if j == c {
            assert(t[c] == ')');
            assert(skip_space(t, c) == c);
        } else {
            assert(s[j] == t[j]);
        }
    } else {
        lemma_node_end(s, j);
        let end = (read_node(s, j)->0).1;
        lemma_items_end(s, end);
        assert(end <= c);
        assert(s[j] == t[j]);
        lemma_alike_node(s, t, c, j);
        lemma_alike_items(s, t, c, end);
    }
}

// ─── Texts that end alike ─────────────────────────────────────────────────────

/// Is `t` from `a + d` on the same as `s` from `a` on?
pub open spec fn end_alike(s: Seq<char>, t: Seq<char>, a: int, d: int) -> bool {
    &&& 0 <= a <= s.len()
    &&& 0 <= a + d
    &&& t.len() == s.len() + d
    &&& forall|k: int| a <= k < s.len() ==> s[k] == #[trigger] t[k + d]
}

proof fn lemma_shift_space(s: Seq<char>, t: Seq<char>, a: int, d: int, i: int)
    requires
        end_alike(s, t, a, d),
        a <= i <= s.len(),
    ensures
        skip_space(t, i + d) == skip_space(s, i) + d,
    decreases s.len() - i,
{
    if i < s.len() {
        assert(s[i] == t[i + d]);
        if is_space(s[i]) {
            lemma_shift_space(s, t, a, d, i + 1);
        }
    }
}

proof fn lemma_shift_word(s: Seq<char>, t: Seq<char>, a: int, d: int, i: int)
    requires
        end_alike(s, t, a, d),
        a <= i <= s.len(),
    ensures
        word_end(t, i + d) == word_end(s, i) + d,
    decreases s.len() - i,
{
    if i < s.len() {
        assert(s[i] == t[i + d]);
        if !is_delimiter(s[i]) {
            lemma_shift_word(s, t, a, d, i + 1);
        }
    }
}

proof fn lemma_shift_quoted(s: Seq<char>, t: Seq<char>, a: int, d: int, i: int)
    requires
        end_alike(s, t, a, d),
        a <= i,
    ensures
        match read_quoted(s, i) {
            Some((x, end)) => read_quoted(t, i + d) == Some((x, end + d)),
            None => read_quoted(t, i + d) is None,
        },
    decreases s.len() - i,
{
    if i < s.len() {
        assert(s[i] == t[i + d]);
        if s[i] == '\\' {
            if i + 1 < s.len() {
                assert(s[i + 1] == t[i + 1 + d]);
                lemma_shift_quoted(s, t, a, d, i + 2);
            }
        } else if s[i] != '"' {
            lemma_shift_quoted(s, t, a, d, i + 1);
        }
    }
}

proof fn lemma_shift_node(s: Seq<char>, t: Seq<char>, a: int, d: int, i: int)
    requires
        end_alike(s, t, a, d),
        a <= i <= s.len(),
    ensures
        match read_node(s, i) {
            Some((n, end)) => read_node(t, i + d) == Some((n, end + d)),
            None => read_node(t, i + d) is None,
        },
    decreases s.len() - i, 0nat,
{
    lemma_skip_space(s, i);
    lemma_shift_space(s, t, a, d, i);
    let j = skip_space(s, i);
    if j < s.len() {
        assert(s[j] == t[j + d]);
        if s[j] == '(' {
            lemma_shift_items(s, t, a, d, j + 1);
        } else if s[j] == '"' {
            lemma_shift_quoted(s, t, a, d, j + 1);
        } else if s[j] != ')' {
            lemma_shift_word(s, t, a, d, j);
            lemma_word_end(s, j);
            let end = word_end(s, j);
            assert(s.subrange(j, end) =~= t.subrange(j + d, end + d)) by {
                assert forall|k: int| j <= k < end implies s[k] == t[k + d] by {}
            }
        }
    }
}

proof fn lemma_shift_items(s: Seq<char>, t: Seq<char>, a: int, d: int, i: int)
    requires
        end_alike(s, t, a, d),
        a <= i <= s.len(),
    ensures
        match read_items(s, i) {
            Some((v, end)) => read_items(t, i + d) == Some((v, end + d)),
            None => read_items(t, i + d) is None,
        },
    decreases s.len() - i, 1nat,
{
    lemma_skip_space(s, i);
    lemma_shift_space(s, t, a, d, i);
    let j = skip_space(s, i);
    if j < s.len() {
        assert(s[j] == t[j + d]);
        if s[j] != ')' {
            lemma_shift_node(s, t, a, d, j);
            lemma_node_end(s, j);
            if let Some((_, end)) = read_node(s, j) {
                lemma_shift_items(s, t, a, d, end);
            }
        }
    }
}

// ─── Places in a tree ─────────────────────────────────────────────────────────

/// Where the item that `k` others precede is read from, in the list whose items are read
/// from `i` on.
pub open spec fn item_from(s: Seq<char>, i: int, k: nat) -> Option<int>
    decreases k,
{
    if k == 0 {
        Some(i)
    } else {
        match read_node(s, i) {
            Some((_, end)) => item_from(s, end, (k - 1) as nat),
            None => None,
        }
    }
}

/// The stretch of text of the expression that is reached by a path, from the expression
/// that is read at `i`: each step of a path is a position in a list.
pub open spec fn stretch_of(s: Seq<char>, i: int, path: Seq<nat>) -> Option<(int, int)>
    decreases path.len(),
{
    let j = skip_space(s, i);
    if path.len() == 0 {
        match read_node(s, i) {
            Some((_, end)) => Some((j, end)),
            None => None,
        }
    } else if 0 <= j < s.len() && s[j] == '(' {
        match item_from(s, j + 1, path[0]) {
            Some(at) => stretch_of(s, at, path.skip(1)),
            None => None,
        }
    } else {
        None
    }
}

/// The expression that is reached by a path.
pub open spec fn node_at(tree: Sexp, path: Seq<nat>) -> Option<Sexp>
    decreases path.len(),
{
    if path.len() == 0 {
        Some(tree)
    } else {
        match tree.item(path[0] as int) {
            Some(n) => node_at(n, path.skip(1)),
            None => None,
        }
    }
}

/// The tree with the expression that is reached by a path replaced.
pub open spec fn with_node(tree: Sexp, path: Seq<nat>, new: Sexp) -> Sexp
    decreases path.len(),
{
    if path.len() == 0 {
        new
    } else {
        match tree {
            Sexp::List(items) => if path[0] < items.len() {
                Sexp::List(
                    items.update(
                        path[0] as int,
                        with_node(items[path[0] as int], path.skip(1), new),
                    ),
                )
            } else {
                tree
            },
            _ => tree,
        }
    }
}

/// Is `u` the text of one list and nothing else, and the list `new`?
pub open spec fn is_list_text(u: Seq<char>, new: Sexp) -> bool {
    &&& u.len() > 0
    &&& u[0] == '('
    &&& read_node(u, 0) == Some((new, u.len() as int))
}

/// The text of a list is read as that list wherever it stands.
pub proof fn lemma_list_text_in(u: Seq<char>, new: Sexp, t: Seq<char>, p: int)
    requires
        is_list_text(u, new),
        0 <= p,
        p + u.len() <= t.len(),
        t.subrange(p, p + u.len()) == u,
    ensures
        read_node(t, p) == Some((new, p + u.len())),
{
    let w = t.skip(p);
    let c = u.len() - 1;
    lemma_skip_space(u, 0);
    assert(skip_space(u, 0) == 0);
    lemma_items_end(u, 1);
    assert(u[c] == ')');
    assert forall|k: int| 0 <= k < u.len() implies u[k] == #[trigger] w[k] by {
        assert(t.subrange(p, p + u.len())[k] == t[p + k]);
    }
    assert(begin_alike(u, w, c));
    lemma_alike_node(u, w, c, 0);
    assert forall|k: int| 0 <= k < w.len() implies w[k] == #[trigger] t[k + p] by {}
    assert(end_alike(w, t, 0, p));
    lemma_shift_node(w, t, 0, p, 0);
}

/// What is reached by a path stands in the stretch that is read for the whole.
pub proof fn lemma_stretch_inside(s: Seq<char>, i: int, path: Seq<nat>)
    requires
        0 <= i <= s.len(),
        read_node(s, i) is Some,
        stretch_of(s, i, path) is Some,
    ensures
        ({
            let (p, q) = stretch_of(s, i, path)->0;
            let end = (read_node(s, i)->0).1;
            &&& i <= skip_space(s, i) <= p < q <= end <= s.len()
            &&& skip_space(s, p) == p
            &&& read_node(s, p) matches Some((_, e)) && e == q
        }),
    decreases path.len(),
{
    lemma_node_end(s, i);
    lemma_skip_space(s, i);
    if path.len() > 0 {
        let j = skip_space(s, i);
        let at = item_from(s, j + 1, path[0])->0;
        lemma_items_end(s, j + 1);
        lemma_item_inside(s, j + 1, path[0]);
        lemma_stretch_inside(s, at, path.skip(1));
        lemma_node_end(s, at);
    }
}

/// An item is read from a place within its list.
proof fn lemma_item_inside(s: Seq<char>, i: int, k: nat)
    requires
        0 <= i <= s.len(),
        read_items(s, i) is Some,
        item_from(s, i, k) is Some,
    ensures
        ({
            let (v, end) = read_items(s, i)->0;
            let at = item_from(s, i, k)->0;
            &&& i <= at < end
            &&& k <= v.len()
            &&& k < v.len() ==> (read_node(s, at) matches Some((n, e)) && n == v[k as int] && e
                < end)
            &&& k == v.len() ==> read_node(s, at) is None && s[skip_space(s, at)] == ')'
            &&& read_items(s, at) == Some((v.skip(k as int), end))
        }),
    decreases k,
{
    lemma_items_end(s, i);
    lemma_skip_space(s, i);
    lemma_node_end(s, i);
    let (v, end) = read_items(s, i)->0;
    let j = skip_space(s, i);
    if s[j] == ')' {
        assert(v.len() == 0);
        assert(read_node(s, i) is None);
        assert(v.skip(0) =~= v);
    } else {
        let (n, e) = read_node(s, j)->0;
        let (rest, last) = read_items(s, e)->0;
        assert(v == seq![n] + rest);
        lemma_items_end(s, e);
        if k == 0 {
            assert(v.skip(0) =~= v);
            assert(v[0] == n);
        } else {
            lemma_item_inside(s, e, (k - 1) as nat);
            assert(v.skip(k as int) =~= rest.skip(k - 1));
            if k < v.len() {
                assert(v[k as int] == rest[k - 1]);
            }
        }
    }
}

/// The items of a list, one of which is read otherwise.
proof fn lemma_replace_item(
    s: Seq<char>,
    t: Seq<char>,
    i: int,
    k: nat,
    p: int,
    q: int,
    d: int,
    new: Sexp,
)
    requires
        0 <= i <= s.len(),
        read_items(s, i) is Some,
        item_from(s, i, k) is Some,
        k < (read_items(s, i)->0).0.len(),
        begin_alike(s, t, p),
        end_alike(s, t, q, d),
        item_from(s, i, k)->0 <= p,
        ({
            let at = item_from(s, i, k)->0;
            let e = (read_node(s, at)->0).1;
            q <= e && read_node(t, at) == Some((new, e + d)) && at < e + d
        }),
    ensures
        ({
            let (v, end) = read_items(s, i)->0;
            read_items(t, i) == Some((v.update(k as int, new), end + d))
        }),
    decreases k,
{
    let (v, end) = read_items(s, i)->0;
    let at = item_from(s, i, k)->0;
    lemma_item_inside(s, i, k);
    lemma_items_end(s, i);
    lemma_skip_space(s, i);
    lemma_node_end(s, i);
    let j = skip_space(s, i);
    let (n, e) = read_node(s, j)->0;
    let (rest, last) = read_items(s, e)->0;
    assert(v == seq![n] + rest);
    lemma_items_end(s, e);
    if k == 0 {
        lemma_node_end(t, i);
        lemma_skip_space(t, i);
        lemma_shift_items(s, t, q, d, e);
        assert(v.update(0, new) =~= seq![new] + rest);
        assert(t[skip_space(t, i)] != ')');
    } else {
        lemma_item_inside(s, e, (k - 1) as nat);
        assert(e <= p);
        lemma_alike_node(s, t, p, i);
        lemma_node_end(t, i);
        lemma_skip_space(t, i);
        lemma_replace_item(s, t, e, (k - 1) as nat, p, q, d, new);
        assert(v.update(k as int, new) =~= seq![n] + rest.update(k - 1, new));
        assert(t[skip_space(t, i)] != ')');
    }
}

pub proof fn lemma_replace(s: Seq<char>, i: int, path: Seq<nat>, u: Seq<char>, new: Sexp)
    requires
        0 <= i <= s.len(),
        read_node(s, i) is Some,
        stretch_of(s, i, path) is Some,
        s[(stretch_of(s, i, path)->0).0] == '(',
        is_list_text(u, new),
    ensures
        ({
            let (tree, end) = read_node(s, i)->0;
            let (p, q) = stretch_of(s, i, path)->0;
            let t = splice(s, p, q, u);
            read_node(t, i) == Some((with_node(tree, path, new), end + u.len() - (q - p)))
        }),
    decreases path.len(),
{
    let (tree, end) = read_node(s, i)->0;
    let (p, q) = stretch_of(s, i, path)->0;
    let t = splice(s, p, q, u);
    let d = u.len() - (q - p);
    lemma_stretch_inside(s, i, path);
    lemma_node_end(s, i);
    assert(begin_alike(s, t, p)) by {
        assert(t[p] == u[0]);
        assert forall|k: int| 0 <= k < p implies s[k] == #[trigger] t[k] by {}
    }
    assert(t.subrange(p, p + u.len()) =~= u);
    if path.len() == 0 {
        lemma_list_text_in(u, new, t, p);
        lemma_alike_space(s, t, p, i);
        lemma_node_end(t, i);
        lemma_skip_space(t, p);
        assert(skip_space(t, p) == p);
    } else {
        let j = skip_space(s, i);
        let k = path[0];
        let at = item_from(s, j + 1, k)->0;
        let (items, last) = read_items(s, j + 1)->0;
        lemma_items_end(s, j + 1);
        lemma_item_inside(s, j + 1, k);
        lemma_stretch_inside(s, at, path.skip(1));
        lemma_replace(s, at, path.skip(1), u, new);
        let e = (read_node(s, at)->0).1;
        let inner = with_node(items[k as int], path.skip(1), new);
        lemma_node_end(s, at);
        assert(end_alike(s, t, q, d)) by {
            assert forall|x: int| q <= x < s.len() implies s[x] == #[trigger] t[x + d] by {}
        }
        lemma_node_end(t, at);
        lemma_replace_item(s, t, j + 1, k, p, q, d, inner);
        lemma_alike_space(s, t, p, i);
        assert(j < p);
        assert(t[j] == s[j]);
    }
}

/// The stretch of a path holds the text of the expression that the path reaches.
pub proof fn law_stretch_is_of_the_node(s: Seq<char>, i: int, path: Seq<nat>)
    requires
        0 <= i <= s.len(),
        read_node(s, i) is Some,
        stretch_of(s, i, path) is Some,
    ensures
        ({
            let (p, q) = stretch_of(s, i, path)->0;
            &&& 0 <= p < q <= s.len()
            &&& read_node(s, p) matches Some((n, e)) && e == q && node_at(
                (read_node(s, i)->0).0,
                path,
            ) == Some(n)
        }),
    decreases path.len(),
{
    lemma_stretch_inside(s, i, path);
    lemma_node_end(s, i);
    if path.len() > 0 {
        let j = skip_space(s, i);
        let at = item_from(s, j + 1, path[0])->0;
        lemma_items_end(s, j + 1);
        lemma_item_inside(s, j + 1, path[0]);
        law_stretch_is_of_the_node(s, at, path.skip(1));
    }
}

/// Replacing the text of a list by the text of another replaces the one list in the
/// tree by the other, and changes nothing else.
pub proof fn law_block_edit_is_tree_edit(s: Seq<char>, path: Seq<nat>, u: Seq<char>, new: Sexp)
    requires
        read_sexp(s) is Some,
        stretch_of(s, 0, path) is Some,
        node_at(read_sexp(s)->0, path) matches Some(Sexp::List(_)),
        is_list_text(u, new),
    ensures
        ({
            let (p, q) = stretch_of(s, 0, path)->0;
            read_sexp(splice(s, p, q, u)) == Some(with_node(read_sexp(s)->0, path, new))
        }),
{
    let (p, q) = stretch_of(s, 0, path)->0;
    let (tree, end) = read_node(s, 0)->0;
    let t = splice(s, p, q, u);
    let d = u.len() - (q - p);
    lemma_stretch_inside(s, 0, path);
    law_stretch_is_of_the_node(s, 0, path);
    assert(s[p] == '(');
    lemma_replace(s, 0, path, u, new);
    assert(end_alike(s, t, q, d)) by {
        assert forall|x: int| q <= x < s.len() implies s[x] == #[trigger] t[x + d] by {}
    }
    lemma_shift_space(s, t, q, d, end);
}

/// A path that goes on where another one ends.
pub proof fn lemma_path_goes_on(s: Seq<char>, i: int, path: Seq<nat>, more: Seq<nat>)
    requires
        0 <= i <= s.len(),
        read_node(s, i) is Some,
        stretch_of(s, i, path) is Some,
    ensures
        stretch_of(s, i, path + more) == stretch_of(s, (stretch_of(s, i, path)->0).0, more),
    decreases path.len(),
{
    lemma_node_end(s, i);
    lemma_skip_space(s, i);
    let j = skip_space(s, i);
    if path.len() == 0 {
        assert(path + more =~= more);
    } else {
        let at = item_from(s, j + 1, path[0])->0;
        lemma_items_end(s, j + 1);
        lemma_item_inside(s, j + 1, path[0]);
        lemma_stretch_inside(s, i, path);
        assert(stretch_of(s, at, path.skip(1)) is Some);
        assert((path + more).skip(1) =~= path.skip(1) + more);
        if read_node(s, at) is Some {
            lemma_path_goes_on(s, at, path.skip(1), more);
        }
    }
}

// ─── Adding to a list ─────────────────────────────────────────────────────────

/// Is a text white space, and not empty?
pub open spec fn is_gap(gap: Seq<char>) -> bool {
    gap.len() > 0 && forall|i: int| 0 <= i < gap.len() ==> is_space(#[trigger] gap[i])
}

pub proof fn lemma_gap(t: Seq<char>, c: int, n: int)
    requires
        0 <= c <= n < t.len(),
        forall|k: int| c <= k < n ==> is_space(#[trigger] t[k]),
        !is_space(t[n]),
    ensures
        skip_space(t, c) == n,
    decreases n - c,
{
    if c < n {
        assert(is_space(t[c]));
        lemma_gap(t, c + 1, n);
    }
}

/// The text of a list that stands in `s` is a list text of its own.
pub proof fn lemma_cut(s: Seq<char>, p: int)
    requires
        0 <= p < s.len(),
        s[p] == '(',
        read_node(s, p) is Some,
    ensures
        ({
            let (n, q) = read_node(s, p)->0;
            q <= s.len() && p < q && is_list_text(s.subrange(p, q), n)
        }),
{
    let (n, q) = read_node(s, p)->0;
    lemma_node_end(s, p);
    assert(skip_space(s, p) == p);
    lemma_items_end(s, p + 1);
    let w = s.skip(p);
    let b = s.subrange(p, q);
    assert(end_alike(s, w, p, -p));
    lemma_shift_node(s, w, p, -p, p);
    assert(begin_alike(w, b, q - p - 1));
    lemma_alike_node(w, b, q - p - 1, 0);
}

proof fn lemma_push_items(
    b: Seq<char>,
    t: Seq<char>,
    i: int,
    gap: Seq<char>,
    x: Seq<char>,
    new: Sexp,
)
    requires
        0 <= i <= b.len(),
        read_items(b, i) matches Some((_, end)) && end == b.len(),
        is_gap(gap),
        is_list_text(x, new),
        t == b.drop_last() + gap + x + seq![')'],
    ensures
        read_items(t, i) == Some(((read_items(b, i)->0).0.push(new), t.len() as int)),
    decreases b.len() - i,
{
    let c = b.len() - 1;
    let v = (read_items(b, i)->0).0;
    lemma_items_end(b, i);
    lemma_skip_space(b, i);
    assert(t[c] == gap[0]);
    assert(begin_alike(b, t, c)) by {
        assert forall|k: int| 0 <= k < c implies b[k] == #[trigger] t[k] by {}
    }
    lemma_alike_space(b, t, c, i);
    let j = skip_space(b, i);
    if b[j] == ')' {
        let at = c + gap.len();
        let after = at + x.len();
        assert(t[at] == x[0]);
        assert forall|k: int| c <= k < at implies is_space(#[trigger] t[k]) by {
            assert(t[k] == gap[k - c]);
        }
        lemma_gap(t, c, at);
        assert(t.subrange(at, after) =~= x);
        lemma_list_text_in(x, new, t, at);
        assert(t[after] == ')');
        assert(skip_space(t, after) == after);
        assert(read_items(t, after) == Some((Seq::<Sexp>::empty(), after + 1)));
        assert(seq![new] + Seq::<Sexp>::empty() =~= v.push(new));
    } else {
        lemma_node_end(b, i);
        let (n, e) = read_node(b, j)->0;
        let (rest, last) = read_items(b, e)->0;
        lemma_items_end(b, e);
        assert(v == seq![n] + rest);
        lemma_alike_node(b, t, c, j);
        lemma_push_items(b, t, e, gap, x, new);
        assert(b[j] == t[j]);
        assert(seq![n] + rest.push(new) =~= v.push(new));
    }
}

/// A list text with another list behind its last item is the text of the list with that
/// item added.
pub proof fn lemma_push(b: Seq<char>, v: Seq<Sexp>, gap: Seq<char>, x: Seq<char>, new: Sexp)
    requires
        is_list_text(b, Sexp::List(v)),
        is_gap(gap),
        is_list_text(x, new),
    ensures
        is_list_text(b.drop_last() + gap + x + seq![')'], Sexp::List(v.push(new))),
{
    let t = b.drop_last() + gap + x + seq![')'];
    assert(skip_space(b, 0) == 0);
    lemma_items_end(b, 1);
    lemma_push_items(b, t, 1, gap, x, new);
    assert(t[0] == b[0]);
    assert(skip_space(t, 0) == 0);
}

/// Inserting the text of a list before the closing parenthesis of another adds it to the
/// other as its last item, and changes nothing else.
pub proof fn law_insertion_adds_an_item(
    s: Seq<char>,
    path: Seq<nat>,
    gap: Seq<char>,
    x: Seq<char>,
    new: Sexp,
)
    requires
        read_sexp(s) is Some,
        stretch_of(s, 0, path) is Some,
        node_at(read_sexp(s)->0, path) matches Some(Sexp::List(_)),
        is_gap(gap),
        is_list_text(x, new),
    ensures
        ({
            let q = (stretch_of(s, 0, path)->0).1;
            let items = node_at(read_sexp(s)->0, path)->0.items();
            read_sexp(splice(s, q - 1, q - 1, gap + x)) == Some(
                with_node(read_sexp(s)->0, path, Sexp::List(items.push(new))),
            )
        }),
{
    let (p, q) = stretch_of(s, 0, path)->0;
    let items = node_at(read_sexp(s)->0, path)->0.items();
    law_stretch_is_of_the_node(s, 0, path);
    lemma_stretch_inside(s, 0, path);
    assert(s[p] == '(');
    lemma_cut(s, p);
    let b = s.subrange(p, q);
    let u = b.drop_last() + gap + x + seq![')'];
    lemma_items_end(s, p + 1);
    assert(s[q - 1] == ')');
    lemma_push(b, items, gap, x, new);
    law_block_edit_is_tree_edit(s, path, u, Sexp::List(items.push(new)));
    assert(splice(s, p, q, u) =~= splice(s, q - 1, q - 1, gap + x));
}

} // verus!
