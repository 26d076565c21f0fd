//! How S-expressions are written: what a text must look like to be read as a given tree.
use vstd::prelude::*;
use crate::blocks::{balanced_end, block_end, law_lists_are_balanced_blocks};
use crate::edits::{
    begin_alike, is_gap, is_list_text, lemma_alike_node, lemma_alike_space, lemma_gap,
    lemma_items_end, lemma_list_text_in, lemma_node_end, lemma_skip_space,
};
use crate::padnet::{is_bare, is_plain, lemma_bare_word, lemma_plain_quoted};
use crate::sexp::{
    is_delimiter, is_space, read_items, read_node, read_quoted, read_sexp, skip_space, Sexp,
};

verus! {

// ─── Items ────────────────────────────────────────────────────────────────────

/// Is the text `x` read as `new` wherever it stands before the end of a word?
#[verifier::opaque]
pub open spec fn stands_for(x: Seq<char>, new: Sexp) -> bool {
    &&& x.len() > 0
    &&& !is_space(x[0])
    &&& x[0] != ')'
    &&& forall|t: Seq<char>, p: int|
        0 <= p && p + x.len() < t.len() && t.subrange(p, p + x.len()) == x && is_delimiter(
            t[p + x.len()],
        ) ==> #[trigger] read_node(t, p) == Some((new, p + x.len()))
}

/// Is `w` a word: some characters, none of which ends a word?
pub open spec fn is_word(w: Seq<char>) -> bool {
    w.len() > 0 && is_bare(w)
}

pub proof fn lemma_word_stands(w: Seq<char>)
    requires
        is_word(w),
    ensures
        stands_for(w, Sexp::Atom(w)),
{
    reveal(stands_for);
    assert(!is_delimiter(w[0]));
    assert forall|t: Seq<char>, p: int|
        0 <= p && p + w.len() < t.len() && t.subrange(p, p + w.len()) == w && is_delimiter(
            t[p + w.len()],
        ) implies #[trigger] read_node(t, p) == Some((Sexp::Atom(w), p + w.len())) by {
        assert(t.subrange(p, p + w.len())[0] == t[p]);
        lemma_bare_word(t, p, p + w.len());
        assert(skip_space(t, p) == p);
    }
}

pub proof fn lemma_list_stands(u: Seq<char>, new: Sexp)
    requires
        is_list_text(u, new),
    ensures
        stands_for(u, new),
{
    reveal(stands_for);
    assert forall|t: Seq<char>, p: int|
        0 <= p && p + u.len() < t.len() && t.subrange(p, p + u.len()) == u && is_delimiter(
            t[p + u.len()],
        ) implies #[trigger] read_node(t, p) == Some((new, p + u.len())) by {
        lemma_list_text_in(u, new, t, p);
    }
}

/// How a character is written inside quotes.
pub open spec fn escaped_char(c: char) -> Seq<char> {
    if c == '"' {
        seq!['\\', '"']
    } else if c == '\\' {
        seq!['\\', '\\']
    } else if c == '\n' {
        seq!['\\', 'n']
    } else if c == '\r' {
        seq!['\\', 'r']
    } else if c == '\t' {
        seq!['\\', 't']
    } else {
        seq![c]
    }
}

/// How a text is written inside quotes.
pub open spec fn escaped(t: Seq<char>) -> Seq<char>
    decreases t.len(),
{
    if t.len() == 0 {
        Seq::empty()
    } else {
        escaped_char(t[0]) + escaped(t.skip(1))
    }
}

/// What was written inside quotes is read up to the closing quote.
pub proof fn lemma_escaped(s: Seq<char>, i: int, t: Seq<char>)
    requires
        0 <= i,
        i + escaped(t).len() < s.len(),
        s.subrange(i, i + escaped(t).len()) == escaped(t),
        s[i + escaped(t).len()] == '"',
    ensures
        read_quoted(s, i) == Some((t, i + escaped(t).len() + 1)),
    decreases t.len(),
{
    let e = escaped(t);
    if t.len() == 0 {
        assert(t =~= Seq::<char>::empty());
    } else {
        let first = escaped_char(t[0]);
        let rest = escaped(t.skip(1));
        let n = first.len() as int;
        assert(e == first + rest);
        assert(s[i] == s.subrange(i, i + e.len())[0]);
        assert(n == 2 ==> s[i + 1] == s.subrange(i, i + e.len())[1]);
        assert(s.subrange(i + n, i + n + rest.len()) =~= rest) by {
            assert forall|k: int| 0 <= k < rest.len() implies s[i + n + k] == rest[k] by {
                assert(s.subrange(i, i + e.len())[n + k] == e[n + k]);
            }
        }
        lemma_escaped(s, i + n, t.skip(1));
        assert(seq![t[0]] + t.skip(1) =~= t);
    }
}

/// How a quoted text is written.
pub open spec fn quoted_text(t: Seq<char>) -> Seq<char> {
    seq!['"'] + escaped(t) + seq!['"']
}

pub proof fn lemma_text_stands(x: Seq<char>)
    ensures
        stands_for(quoted_text(x), Sexp::Str(x)),
{
    reveal(stands_for);
    let q = quoted_text(x);
    let n = escaped(x).len() as int;
    assert forall|t: Seq<char>, p: int|
        0 <= p && p + q.len() < t.len() && t.subrange(p, p + q.len()) == q && is_delimiter(
            t[p + q.len()],
        ) implies #[trigger] read_node(t, p) == Some((Sexp::Str(x), p + q.len())) by {
        assert(t[p] == t.subrange(p, p + q.len())[0]);
        assert(t[p + 1 + n] == t.subrange(p, p + q.len())[1 + n]);
        assert(t.subrange(p + 1, p + 1 + n) =~= escaped(x)) by {
            assert forall|k: int| 0 <= k < n implies t[p + 1 + k] == escaped(x)[k] by {
                assert(t.subrange(p, p + q.len())[1 + k] == q[1 + k]);
            }
        }
        lemma_escaped(t, p + 1, x);
        assert(skip_space(t, p) == p);
    }
}

/// A text without quotes and backslashes may stand between quotes as it is.
pub proof fn lemma_plain_stands(x: Seq<char>)
    requires
        is_plain(x),
    ensures
        stands_for(seq!['"'] + x + seq!['"'], Sexp::Str(x)),
{
    reveal(stands_for);
    let q = seq!['"'] + x + seq!['"'];
    let n = x.len() as int;
    assert forall|t: Seq<char>, p: int|
        0 <= p && p + q.len() < t.len() && t.subrange(p, p + q.len()) == q && is_delimiter(
            t[p + q.len()],
        ) implies #[trigger] read_node(t, p) == Some((Sexp::Str(x), p + q.len())) by {
        assert(t[p] == t.subrange(p, p + q.len())[0]);
        assert(t[p + 1 + n] == t.subrange(p, p + q.len())[1 + n]);
        assert(t.subrange(p + 1, p + 1 + n) =~= x) by {
            assert forall|k: int| 0 <= k < n implies t[p + 1 + k] == x[k] by {
                assert(t.subrange(p, p + q.len())[1 + k] == q[1 + k]);
            }
        }
        lemma_plain_quoted(t, p + 1, p + 1 + n);
        assert(skip_space(t, p) == p);
    }
}

// ─── Lists ────────────────────────────────────────────────────────────────────

/// Is `b` the text of a list of `v` that only its closing parenthesis is missing from?
#[verifier::opaque]
pub open spec fn is_open_list(b: Seq<char>, v: Seq<Sexp>) -> bool {
    is_list_text(b.push(')'), Sexp::List(v))
}

proof fn lemma_item_added(
    b: Seq<char>,
    t: Seq<char>,
    i: int,
    gap: Seq<char>,
    x: Seq<char>,
    new: Sexp,
)
    requires
        0 <= i <= b.len(),
        read_items(b, i) matches Some((_, end)) && end == b.len(),
        is_gap(gap) || (gap.len() == 0 && is_delimiter(x[0])),
        stands_for(x, new),
        t == b.drop_last() + gap + x + seq![')'],
    ensures
        read_items(t, i) == Some(((read_items(b, i)->0).0.push(new), t.len() as int)),
    decreases b.len() - i,
{
    reveal(stands_for);
    let c = b.len() - 1;
    let v = (read_items(b, i)->0).0;
    lemma_items_end(b, i);
    lemma_skip_space(b, i);
    assert(gap.len() > 0 ==> t[c] == gap[0]);
    assert(gap.len() == 0 ==> t[c] == x[0]);
    assert(begin_alike(b, t, c)) by {
        assert forall|k: int| 0 <= k < c implies b[k] == #[trigger] t[k] by {}
    }
    lemma_alike_space(b, t, c, i);
    let j = skip_space(b, i);
    if b[j] == ')' {
        let at = c + gap.len();
        let after = at + x.len();
        assert(t[at] == x[0]);
        assert forall|k: int| c <= k < at implies is_space(#[trigger] t[k]) by {
            assert(t[k] == gap[k - c]);
        }
        lemma_gap(t, c, at);
        assert(t.subrange(at, at + x.len()) =~= x);
        assert(t[after] == ')');
        assert(read_node(t, at) == Some((new, at + x.len())));
        assert(skip_space(t, after) == after);
        assert(read_items(t, after) == Some((Seq::<Sexp>::empty(), after + 1)));
        assert(seq![new] + Seq::<Sexp>::empty() =~= v.push(new));
    } else {
        lemma_node_end(b, i);
        let (n, e) = read_node(b, j)->0;
        let (rest, last) = read_items(b, e)->0;
        lemma_items_end(b, e);
        assert(v == seq![n] + rest);
        lemma_alike_node(b, t, c, j);
        lemma_item_added(b, t, e, gap, x, new);
        assert(b[j] == t[j]);
        assert(seq![n] + rest.push(new) =~= v.push(new));
    }
}

/// A list that is written on grows by what is added.
pub proof fn lemma_written_on(b: Seq<char>, v: Seq<Sexp>, gap: Seq<char>, x: Seq<char>, new: Sexp)
    requires
        is_open_list(b, v),
        is_gap(gap) || (gap.len() == 0 && is_delimiter(x[0])),
        stands_for(x, new),
    ensures
        is_open_list(b + gap + x, v.push(new)),
{
    reveal(is_open_list);
    let before = b.push(')');
    let t = (b + gap + x).push(')');
    assert(skip_space(before, 0) == 0);
    lemma_items_end(before, 1);
    assert(before.drop_last() =~= b);
    assert(t =~= before.drop_last() + gap + x + seq![')']);
    lemma_item_added(before, t, 1, gap, x, new);
    assert(t[0] == before[0]);
    assert(skip_space(t, 0) == 0);
}

pub proof fn lemma_empty_list()
    ensures
        is_open_list(seq!['('], Seq::empty()),
{
    reveal(is_open_list);
    let u = seq!['('].push(')');
    assert(skip_space(u, 0) == 0);
    assert(skip_space(u, 1) == 1);
    assert(read_items(u, 1) == Some((Seq::<Sexp>::empty(), 2int)));
}

/// A list begins with the word that heads it.
pub proof fn lemma_headed_list(w: Seq<char>)
    requires
        is_word(w),
    ensures
        is_open_list(seq!['('] + w, seq![Sexp::Atom(w)]),
{
    reveal(is_open_list);
    reveal(stands_for);
    let u = (seq!['('] + w).push(')');
    let n: int = 1int + w.len();
    lemma_word_stands(w);
    assert(u.subrange(1, n) =~= w);
    assert(u[n] == ')');
    assert(read_node(u, 1) == Some((Sexp::Atom(w), n)));
    assert(u[1] == w[0]);
    assert(skip_space(u, 0) == 0);
    assert(skip_space(u, 1) == 1);
    assert(skip_space(u, n) == n);
    assert(read_items(u, n) == Some((Seq::<Sexp>::empty(), n + 1)));
    assert(seq![Sexp::Atom(w)] + Seq::<Sexp>::empty() =~= seq![Sexp::Atom(w)]);
    assert(read_items(u, 1) == Some((seq![Sexp::Atom(w)], n + 1)));
}

/// A list that is closed stands for the list.
pub proof fn lemma_closed(b: Seq<char>, v: Seq<Sexp>)
    requires
        is_open_list(b, v),
    ensures
        is_list_text(b.push(')'), Sexp::List(v)),
        stands_for(b.push(')'), Sexp::List(v)),
{
    reveal(is_open_list);
    lemma_list_stands(b.push(')'), Sexp::List(v));
}

/// White space before the closing parenthesis of a list changes nothing.
pub proof fn lemma_closed_late(b: Seq<char>, v: Seq<Sexp>, gap: Seq<char>)
    requires
        is_open_list(b, v),
        is_gap(gap),
    ensures
        is_open_list(b + gap, v),
{
    reveal(is_open_list);
    let before = b.push(')');
    let t = (b + gap).push(')');
    assert(skip_space(before, 0) == 0);
    lemma_items_end(before, 1);
    assert(t =~= before.drop_last() + gap + seq![')']);
    lemma_late_items(before, t, 1, gap);
    assert(t[0] == before[0]);
    assert(skip_space(t, 0) == 0);
}

proof fn lemma_late_items(b: Seq<char>, t: Seq<char>, i: int, gap: Seq<char>)
    requires
        0 <= i <= b.len(),
        read_items(b, i) matches Some((_, end)) && end == b.len(),
        is_gap(gap),
        t == b.drop_last() + gap + seq![')'],
    ensures
        read_items(t, i) == Some(((read_items(b, i)->0).0, t.len() as int)),
    decreases b.len() - i,
{
    let c = b.len() - 1;
    lemma_items_end(b, i);
    lemma_skip_space(b, i);
    assert(t[c] == gap[0]);
    assert(begin_alike(b, t, c)) by {
        assert forall|k: int| 0 <= k < c implies b[k] == #[trigger] t[k] by {}
    }
    lemma_alike_space(b, t, c, i);
    let j = skip_space(b, i);
    if b[j] == ')' {
        let at = c + gap.len();
        assert(t[at] == ')');
        assert forall|k: int| c <= k < at implies is_space(#[trigger] t[k]) by {
            assert(t[k] == gap[k - c]);
        }
        lemma_gap(t, c, at);
    } else {
        lemma_node_end(b, i);
        let (n, e) = read_node(b, j)->0;
        let (rest, last) = read_items(b, e)->0;
        lemma_items_end(b, e);
        lemma_alike_node(b, t, c, j);
        lemma_late_items(b, t, e, gap);
        assert(b[j] == t[j]);
    }
}

// ─── Trees ────────────────────────────────────────────────────────────────────

/// Is `w` a word: some characters, none of which is white space, a parenthesis or a quote?
pub open spec fn is_bare_word(w: Seq<char>) -> bool {
    &&& w.len() > 0
    &&& forall|i: int|
        0 <= i < w.len() ==> #[trigger] w[i] != ' ' && w[i] != '\n' && w[i] != '\r' && w[i] != '\t'
            && w[i] != '(' && w[i] != ')' && w[i] != '"'
}

/// Is `gap` white space, and not nothing?
pub open spec fn is_white(gap: Seq<char>) -> bool {
    &&& gap.len() > 0
    &&& forall|i: int|
        0 <= i < gap.len() ==> #[trigger] gap[i] == ' ' || gap[i] == '\n' || gap[i] == '\r'
            || gap[i] == '\t'
}

/// Can the tree be written? Its bare words must be words.
pub open spec fn is_writable(tree: Sexp) -> bool
    decreases tree,
{
    match tree {
        Sexp::Atom(w) => is_bare_word(w),
        Sexp::Str(_) => true,
        Sexp::List(items) => forall|i: int|
            0 <= i < items.len() ==> is_writable(#[trigger] items[i]),
    }
}

/// A tree, written with `gap` before every item and every closing parenthesis.
pub open spec fn written(tree: Sexp, gap: Seq<char>) -> Seq<char>
    decreases tree, tree.items().len() + 1,
{
    match tree {
        Sexp::Atom(w) => w,
        Sexp::Str(t) => quoted_text(t),
        Sexp::List(items) => written_items(tree, items.len(), gap) + gap + seq![')'],
    }
}

/// The beginning of a list, up to its first `n` items.
pub open spec fn written_items(tree: Sexp, n: nat, gap: Seq<char>) -> Seq<char>
    decreases tree, n,
{
    match tree {
        Sexp::List(items) => if n == 0 || n > items.len() {
            seq!['(']
        } else {
            written_items(tree, (n - 1) as nat, gap) + gap + written(items[n - 1], gap)
        },
        _ => Seq::empty(),
    }
}

proof fn lemma_written(tree: Sexp, gap: Seq<char>)
    requires
        is_writable(tree),
        is_gap(gap),
    ensures
        stands_for(written(tree, gap), tree),
        tree is List ==> is_list_text(written(tree, gap), tree),
    decreases tree, tree.items().len() + 1,
{
    reveal(is_open_list);
    reveal(stands_for);
    match tree {
        Sexp::Atom(w) => {
            lemma_word_stands(w);
        },
        Sexp::Str(t) => {
            lemma_text_stands(t);
        },
        Sexp::List(items) => {
            let b = written_items(tree, items.len(), gap);
            lemma_written_items(tree, items.len(), gap);
            assert(items.take(items.len() as int) =~= items);
            lemma_closed_late(b, items, gap);
            assert((b + gap).push(')') =~= b + gap + seq![')']);
            lemma_list_stands(written(tree, gap), tree);
        },
    }
}

proof fn lemma_written_items(tree: Sexp, n: nat, gap: Seq<char>)
    requires
        tree is List,
        is_writable(tree),
        is_gap(gap),
        n <= tree.items().len(),
    ensures
        is_open_list(written_items(tree, n, gap), tree.items().take(n as int)),
    decreases tree, n,
{
    let items = tree.items();
    if n == 0 {
        lemma_empty_list();
        assert(items.take(0) =~= Seq::<Sexp>::empty());
    } else {
        let before = (n - 1) as nat;
        let new = items[n - 1];
        lemma_written_items(tree, before, gap);
        assert(decreases_to!(tree => tree->List_0[n - 1]));
        lemma_written(new, gap);
        lemma_written_on(
            written_items(tree, before, gap),
            items.take(n - 1),
            gap,
            written(new, gap),
            new,
        );
        assert(items.take(n - 1).push(new) =~= items.take(n as int));
    }
}

/// What is written is read back: every tree has a text that is read as that tree, however
/// much white space it is set out with, and whatever its quoted texts hold.
pub proof fn law_written_reads_back(tree: Sexp, gap: Seq<char>)
    requires
        is_writable(tree),
        is_white(gap),
    ensures
        read_sexp(written(tree, gap)) == Some(tree),
        read_sexp(gap + written(tree, gap) + gap) == Some(tree),
{
    reveal(stands_for);
    assert(is_gap(gap));
    let u = written(tree, gap);
    lemma_written(tree, gap);
    let t = gap + u + gap;
    let n = gap.len() as int;
    assert forall|k: int| 0 <= k < n implies is_space(#[trigger] t[k]) by {
        assert(t[k] == gap[k]);
    }
    assert(t[n] == u[0]);
    lemma_gap(t, 0, n);
    assert(t.subrange(n, n + u.len()) =~= u);
    assert(t[n + u.len()] == gap[0]);
    assert(read_node(t, n) == Some((tree, n + u.len())));
    lemma_node_end(t, 0);
    assert forall|k: int| n + u.len() <= k < t.len() implies is_space(#[trigger] t[k]) by {
        assert(t[k] == gap[k - n - u.len()]);
    }
    lemma_space_to_end(t, n + u.len());
    lemma_alone(u, tree);
}

proof fn lemma_space_to_end(s: Seq<char>, i: int)
    requires
        0 <= i <= s.len(),
        forall|k: int| i <= k < s.len() ==> is_space(#[trigger] s[k]),
    ensures
        skip_space(s, i) == s.len(),
    decreases s.len() - i,
{
    if i < s.len() {
        lemma_space_to_end(s, i + 1);
    }
}

/// A text that stands for a tree is read as it with nothing behind it too.
proof fn lemma_alone(u: Seq<char>, tree: Sexp)
    requires
        is_writable(tree),
        stands_for(u, tree),
        tree is Atom ==> u == tree->Atom_0,
        tree is Str ==> u == quoted_text(tree->Str_0),
        tree is List ==> is_list_text(u, tree),
    ensures
        read_sexp(u) == Some(tree),
{
    reveal(stands_for);
    let end = u.len() as int;
    assert(skip_space(u, end) == end);
    assert(skip_space(u, 0) == 0);
    match tree {
        Sexp::Atom(w) => {
            assert(u.subrange(0, end) =~= w);
            lemma_bare_word(u, 0, end);
        },
        Sexp::Str(t) => {
            assert(u.subrange(1, 1int + escaped(t).len()) =~= escaped(t));
            lemma_escaped(u, 1, t);
        },
        Sexp::List(_) => {},
    }
}

/// A backslash between quotes takes the next character as it is, but for the three that stand
/// for a line break, a return and a tab.
pub proof fn law_escaped_characters(s: Seq<char>, i: int, rest: Seq<char>, end: int)
    requires
        0 <= i,
        i + 1 < s.len(),
        s[i] == '\\',
        read_quoted(s, i + 2) == Some((rest, end)),
    ensures
        s[i + 1] == 'n' ==> read_quoted(s, i) == Some((seq!['\n'] + rest, end)),
        s[i + 1] == 'r' ==> read_quoted(s, i) == Some((seq!['\r'] + rest, end)),
        s[i + 1] == 't' ==> read_quoted(s, i) == Some((seq!['\t'] + rest, end)),
        s[i + 1] != 'n' && s[i + 1] != 'r' && s[i + 1] != 't' ==> read_quoted(s, i) == Some(
            (seq![s[i + 1]] + rest, end),
        ),
{
}

/// A text holds one expression: where another one follows, or anything but white space, it is
/// not read.
pub proof fn law_nothing_may_follow(tree: Sexp, gap: Seq<char>, more: Seq<char>)
    requires
        tree is List,
        is_writable(tree),
        is_white(gap),
        more.len() > 0,
        more[0] != ' ' && more[0] != '\n' && more[0] != '\r' && more[0] != '\t',
    ensures
        read_sexp(written(tree, gap) + gap + more) is None,
        read_sexp(written(tree, gap) + more) is None,
{
    assert(is_gap(gap));
    lemma_written(tree, gap);
    let u = written(tree, gap);
    let n = u.len() as int;
    let s = u + gap + more;
    assert(s.subrange(0, n) =~= u);
    lemma_list_text_in(u, tree, s, 0);
    let at = n + gap.len();
    assert(s[at] == more[0]);
    assert forall|k: int| n <= k < at implies is_space(#[trigger] s[k]) by {
        assert(s[k] == gap[k - n]);
    }
    lemma_gap(s, n, at);
    let t = u + more;
    assert(t.subrange(0, n) =~= u);
    lemma_list_text_in(u, tree, t, 0);
    assert(t[n] == more[0]);
    assert(skip_space(t, n) == n);
}

/// A list of texts and lists behind a word, written without any white space.
pub open spec fn packed(word: Seq<char>, items: Seq<Sexp>, gap: Seq<char>) -> Seq<char>
    decreases items.len(),
{
    if items.len() == 0 {
        seq!['('] + word
    } else {
        packed(word, items.drop_last(), gap) + written(items.last(), gap)
    }
}

proof fn lemma_packed(word: Seq<char>, items: Seq<Sexp>, gap: Seq<char>)
    requires
        is_bare_word(word),
        is_gap(gap),
        forall|i: int|
            0 <= i < items.len() ==> is_writable(#[trigger] items[i]) && !(items[i] is Atom),
    ensures
        is_open_list(packed(word, items, gap), seq![Sexp::Atom(word)] + items),
    decreases items.len(),
{
    if items.len() == 0 {
        lemma_headed_list(word);
        assert(seq![Sexp::Atom(word)] + items =~= seq![Sexp::Atom(word)]);
    } else {
        let before = items.drop_last();
        let new = items[items.len() - 1];
        assert forall|i: int| 0 <= i < before.len() implies is_writable(#[trigger] before[i]) && !(
        before[i] is Atom) by {
            assert(before[i] == items[i]);
        }
        lemma_packed(word, before, gap);
        lemma_written(new, gap);
        let x = written(new, gap);
        assert(is_delimiter(x[0]));
        let b = packed(word, before, gap);
        lemma_written_on(b, seq![Sexp::Atom(word)] + before, Seq::empty(), x, new);
        assert(b + Seq::<char>::empty() + x =~= packed(word, items, gap));
        assert((seq![Sexp::Atom(word)] + before).push(new) =~= seq![Sexp::Atom(word)] + items);
    }
}

/// Texts and lists need no white space before them.
pub proof fn law_quotes_and_parentheses_need_no_gap(
    word: Seq<char>,
    items: Seq<Sexp>,
    gap: Seq<char>,
)
    requires
        is_bare_word(word),
        is_white(gap),
        forall|i: int|
            0 <= i < items.len() ==> is_writable(#[trigger] items[i]) && !(items[i] is Atom),
    ensures
        read_sexp(packed(word, items, gap).push(')')) == Some(
            Sexp::List(seq![Sexp::Atom(word)] + items),
        ),
{
    assert(is_gap(gap));
    let b = packed(word, items, gap);
    lemma_packed(word, items, gap);
    lemma_closed(b, seq![Sexp::Atom(word)] + items);
    let u = b.push(')');
    assert(skip_space(u, u.len() as int) == u.len());
}

proof fn lemma_block_in_more(p: Seq<char>, u: Seq<char>, i: int, depth: nat, quoted: bool)
    requires
        p.len() <= u.len(),
        forall|k: int| 0 <= k < p.len() ==> p[k] == #[trigger] u[k],
        block_end(p, i, depth, quoted) is Some,
    ensures
        block_end(u, i, depth, quoted) == block_end(p, i, depth, quoted),
    decreases p.len() - i,
{
    assert(p[i] == u[i]);
    if quoted {
        if p[i] == '\\' {
            lemma_block_in_more(p, u, i + 2, depth, true);
        } else {
            lemma_block_in_more(p, u, i + 1, depth, p[i] != '"');
        }
    } else if p[i] == '"' {
        lemma_block_in_more(p, u, i + 1, depth, true);
    } else if p[i] == '(' {
        lemma_block_in_more(p, u, i + 1, depth + 1, false);
    } else if p[i] == ')' {
        if depth > 1 {
            lemma_block_in_more(p, u, i + 1, (depth - 1) as nat, false);
        }
    } else {
        lemma_block_in_more(p, u, i + 1, depth, false);
    }
}

/// A list that is cut off is not read, wherever it is cut.
pub proof fn law_cut_off_list_is_refused(u: Seq<char>, tree: Sexp, k: int)
    requires
        u.len() > 0,
        u[0] == '(',
        read_node(u, 0) == Some((tree, u.len() as int)),
        0 <= k < u.len(),
    ensures
        read_sexp(u.take(k)) is None,
{
    let p = u.take(k);
    if k > 0 && read_node(p, 0) is Some {
        assert(p[0] == '(');
        law_lists_are_balanced_blocks(u, 0);
        law_lists_are_balanced_blocks(p, 0);
        lemma_node_end(p, 0);
        lemma_block_in_more(p, u, 1, 1, false);
        assert(balanced_end(p, 0) == balanced_end(u, 0));
    }
}

} // verus!
