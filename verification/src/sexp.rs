//! S-expressions, the notation of KiCad's files: reading a text into a tree and
//! looking things up in the tree.
use vstd::prelude::*;
use crate::decimal::{is_number, number_text};
use crate::text::{chars_of, same_text, text_of};

verus! {

/// An S-expression.
#[derive(Debug)]
pub enum SexpNode {
    /// A bare word, such as `smd` or `3`.
    Atom(String),
    /// A quoted text, without its quotes and escapes.
    Str(String),
    /// A parenthesised list.
    List(Vec<SexpNode>),
}

/// What an S-expression is, as a mathematical tree.
pub enum Sexp {
    Atom(Seq<char>),
    Str(Seq<char>),
    List(Seq<Sexp>),
}

/// The text is not one S-expression.
#[derive(Debug, Clone, Copy, PartialEq, Eq, Structural)]
pub struct SexpError;

impl View for SexpNode {
    type V = Sexp;

    open spec fn view(&self) -> Sexp
        decreases self,
    {
        match self {
            SexpNode::Atom(a) => Sexp::Atom(a@),
            SexpNode::Str(a) => Sexp::Str(a@),
            SexpNode::List(v) => Sexp::List(
                Seq::new(
                    v@.len(),
                    |i: int|
                        if 0 <= i < v@.len() {
                            v@[i].view()
                        } else {
                            arbitrary()
                        },
                ),
            ),
        }
    }
}

// ─── The notation ─────────────────────────────────────────────────────────────

/// Is `c` white space between expressions?
pub open spec fn is_space(c: char) -> bool {
    c == ' ' || c == '\n' || c == '\r' || c == '\t'
}

/// Does `c` end a bare word?
pub open spec fn is_delimiter(c: char) -> bool {
    is_space(c) || c == '(' || c == ')' || c == '"'
}

/// The first position from `i` on that is not white space.
pub open spec fn skip_space(s: Seq<char>, i: int) -> int
    decreases s.len() - i,
{
    if 0 <= i < s.len() && is_space(s[i]) {
        skip_space(s, i + 1)
    } else {
        i
    }
}

/// Where the bare word that begins at `i` ends.
pub open spec fn word_end(s: Seq<char>, i: int) -> int
    decreases s.len() - i,
{
    if 0 <= i < s.len() && !is_delimiter(s[i]) {
        word_end(s, i + 1)
    } else {
        i
    }
}

/// The character that a backslash and `c` stand for.
pub open spec fn unescape(c: char) -> char {
    if c == 'n' {
        '\n'
    } else if c == 'r' {
        '\r'
    } else if c == 't' {
        '\t'
    } else {
        c
    }
}

/// The rest of a quoted text from `i` on, and the position after its closing quote.
pub open spec fn read_quoted(s: Seq<char>, i: int) -> Option<(Seq<char>, int)>
    decreases s.len() - i,
{
    if !(0 <= i < s.len()) {
        None
    } else if s[i] == '"' {
        Some((Seq::empty(), i + 1))
    } else if s[i] == '\\' {
        if i + 1 < s.len() {
            match read_quoted(s, i + 2) {
                Some((rest, end)) => Some((seq![unescape(s[i + 1])] + rest, end)),
                None => None,
            }
        } else {
            None
        }
    } else {
        match read_quoted(s, i + 1) {
            Some((rest, end)) => Some((seq![s[i]] + rest, end)),
            None => None,
        }
    }
}

/// The expression that begins at the first character from `i` on that is not
/// white space, and the position after it.
pub open spec fn read_node(s: Seq<char>, i: int) -> Option<(Sexp, int)>
    decreases s.len() - i, 0nat,
{
    let j = skip_space(s, i);
    if !(i <= j < s.len()) || s[j] == ')' {
        None
    } else if s[j] == '(' {
        match read_items(s, j + 1) {
            Some((items, end)) => Some((Sexp::List(items), end)),
            None => None,
        }
    } else if s[j] == '"' {
        match read_quoted(s, j + 1) {
            Some((text, end)) => Some((Sexp::Str(text), end)),
            None => None,
        }
    } else {
        Some((Sexp::Atom(s.subrange(j, word_end(s, j))), word_end(s, j)))
    }
}

/// The expressions from `i` on up to the closing parenthesis, and the position
/// after that parenthesis.
pub open spec fn read_items(s: Seq<char>, i: int) -> Option<(Seq<Sexp>, int)>
    decreases s.len() - i, 1nat,
{
    let j = skip_space(s, i);
    if !(i <= j < s.len()) {
        None
    } else if s[j] == ')' {
        Some((Seq::empty(), j + 1))
    } else {
        match read_node(s, j) {
            Some((node, end)) => if j < end <= s.len() {
                match read_items(s, end) {
                    Some((rest, last)) => Some((seq![node] + rest, last)),
                    None => None,
                }
            } else {
                None
            },
            None => None,
        }
    }
}

/// The expression that `s` is, where `s` holds one expression and white space.
pub open spec fn read_sexp(s: Seq<char>) -> Option<Sexp> {
    match read_node(s, 0) {
        Some((node, end)) => if skip_space(s, end) == s.len() {
            Some(node)
        } else {
            None
        },
        None => None,
    }
}

// ─── Reading ──────────────────────────────────────────────────────────────────

fn is_space_char(c: char) -> (r: bool)
    ensures
        r == is_space(c),
{
    c == ' ' || c == '\n' || c == '\r' || c == '\t'
}

fn is_delimiter_char(c: char) -> (r: bool)
    ensures
        r == is_delimiter(c),
{
    is_space_char(c) || c == '(' || c == ')' || c == '"'
}

fn space_end(v: &Vec<char>, i: usize) -> (r: usize)
    requires
        i <= v@.len(),
    ensures
        r == skip_space(v@, i as int),
        i <= r <= v@.len(),
        r < v@.len() ==> !is_space(v@[r as int]),
{
    let mut k: usize = i;
    while k < v.len() && is_space_char(v[k])
        invariant
            i <= k <= v@.len(),
            skip_space(v@, i as int) == skip_space(v@, k as int),
        decreases v@.len() - k,
    {
        k = k + 1;
    }
    k
}

fn bare_word_end(v: &Vec<char>, i: usize) -> (r: usize)
    requires
        i <= v@.len(),
    ensures
        r == word_end(v@, i as int),
        i <= r <= v@.len(),
        i < v@.len() && !is_delimiter(v@[i as int]) ==> i < r,
{
    let mut k: usize = i;
    while k < v.len() && !is_delimiter_char(v[k])
        invariant
            i <= k <= v@.len(),
            word_end(v@, i as int) == word_end(v@, k as int),
            i < v@.len() && !is_delimiter(v@[i as int]) && k == i ==> k < v@.len(),
        decreases v@.len() - k,
    {
        k = k + 1;
    }
    k
}

fn unescaped(c: char) -> (r: char)
    ensures
        r == unescape(c),
{
    if c == 'n' {
        '\n'
    } else if c == 'r' {
        '\r'
    } else if c == 't' {
        '\t'
    } else {
        c
    }
}

fn quoted_from(v: &Vec<char>, i: usize) -> (r: Option<(String, usize)>)
    requires
        i <= v@.len(),
    ensures
        r matches Some((t, end)) ==> read_quoted(v@, i as int) == Some((t@, end as int)) && i < end
            <= v@.len(),
        r is None ==> read_quoted(v@, i as int) is None,
{
    let mut out = String::new();
    let mut k: usize = i;
    while k < v.len()
        invariant
            i <= k <= v@.len(),
            match read_quoted(v@, k as int) {
                Some((rest, end)) => read_quoted(v@, i as int) == Some((out@ + rest, end)),
                None => read_quoted(v@, i as int) is None,
            },
        decreases v@.len() - k,
    {
        let c = v[k];
        if c == '"' {
            assert(out@ + Seq::<char>::empty() =~= out@);
            return Some((out, k + 1));
        }
        if c == '\\' {
            if k + 1 >= v.len() {
                return None;
            }
            let u = unescaped(v[k + 1]);
            proof {
                if let Some((rest, end)) = read_quoted(v@, k + 2) {
                    assert(out@ + (seq![u] + rest) =~= out@.push(u) + rest);
                }
            }
            out.push(u);
            k = k + 2;
        } else {
            proof {
                if let Some((rest, end)) = read_quoted(v@, k + 1) {
                    assert(out@ + (seq![c] + rest) =~= out@.push(c) + rest);
                }
            }
            out.push(c);
            k = k + 1;
        }
    }
    None
}

/// The views of a list of nodes.
pub open spec fn trees(v: Seq<SexpNode>) -> Seq<Sexp> {
    Seq::new(v.len(), |i: int| v[i]@)
}

/// A list node is seen as the list of what its items are seen as.
proof fn lemma_list_view(v: Vec<SexpNode>)
    ensures
        SexpNode::List(v)@ == Sexp::List(trees(v@)),
{
    reveal_with_fuel(<SexpNode as View>::view, 2);
    let n = SexpNode::List(v);
    assert(n@ matches Sexp::List(t) && t =~= trees(v@));
}

fn node_from(v: &Vec<char>, i: usize) -> (r: Option<(SexpNode, usize)>)
    requires
        i <= v@.len(),
    ensures
        r matches Some((n, end)) ==> read_node(v@, i as int) == Some((n@, end as int)) && i < end
            <= v@.len(),
        r is None ==> read_node(v@, i as int) is None,
    decreases v@.len() - i,
{
    let j = space_end(v, i);
    if j >= v.len() || v[j] == ')' {
        return None;
    }
    if v[j] == '"' {
        return match quoted_from(v, j + 1) {
            Some((t, end)) => Some((SexpNode::Str(t), end)),
            None => None,
        };
    }
    if v[j] != '(' {
        let end = bare_word_end(v, j);
        return Some((SexpNode::Atom(text_of(v, j, end)), end));
    }
    let mut items: Vec<SexpNode> = Vec::new();
    let mut pos: usize = j + 1;
    loop
        invariant
            i <= j < pos <= v@.len(),
            j == skip_space(v@, i as int),
            v@[j as int] == '(',
            match read_items(v@, pos as int) {
                Some((rest, end)) => read_items(v@, j + 1) == Some((trees(items@) + rest, end)),
                None => read_items(v@, j + 1) is None,
            },
        decreases v@.len() - pos,
    {
        let k = space_end(v, pos);
        if k >= v.len() {
            return None;
        }
        if v[k] == ')' {
            assert(trees(items@) + Seq::<Sexp>::empty() =~= trees(items@));
            proof {
                lemma_list_view(items);
            }
            return Some((SexpNode::List(items), k + 1));
        }
        match node_from(v, k) {
            Some((node, end)) => {
                let ghost before = items@;
                proof {
                    if let Some((rest, last)) = read_items(v@, end as int) {
                        assert(trees(before) + (seq![node@] + rest) =~= trees(before.push(node))
                            + rest);
                    }
                }
                items.push(node);
                pos = end;
            },
            None => {
                return None;
            },
        }
    }
}

/// Reads `content` as one S-expression.
pub fn parse_sexp(content: &str) -> (r: Result<SexpNode, SexpError>)
    ensures
        r matches Ok(n) ==> read_sexp(content@) == Some(n@),
        r is Err <==> read_sexp(content@) is None,
{
    let v = chars_of(content);
    match node_from(&v, 0) {
        Some((node, end)) => {
            if space_end(&v, end) == v.len() {
                Ok(node)
            } else {
                Err(SexpError)
            }
        },
        None => Err(SexpError),
    }
}

// ─── Looking things up ────────────────────────────────────────────────────────

/// Those of `items` that are lists headed by `name`, in order.
pub open spec fn named_items(items: Seq<Sexp>, name: Seq<char>) -> Seq<Sexp>
    decreases items.len(),
{
    if items.len() == 0 {
        Seq::empty()
    } else if items.last().is_named(name) {
        named_items(items.drop_last(), name).push(items.last())
    } else {
        named_items(items.drop_last(), name)
    }
}

impl Sexp {
    /// The text of a bare word or a quoted text.
    pub open spec fn text(self) -> Option<Seq<char>> {
        match self {
            Sexp::Atom(t) => Some(t),
            Sexp::Str(t) => Some(t),
            Sexp::List(_) => None,
        }
    }

    /// The items of a list; a word or a text has none.
    pub open spec fn items(self) -> Seq<Sexp> {
        match self {
            Sexp::List(items) => items,
            _ => Seq::empty(),
        }
    }

    /// The item at position `i`, where there is one.
    pub open spec fn item(self, i: int) -> Option<Sexp> {
        if 0 <= i < self.items().len() {
            Some(self.items()[i])
        } else {
            None
        }
    }

    /// The text of the item at position `i`, where it is a word or a text.
    pub open spec fn item_text(self, i: int) -> Option<Seq<char>> {
        match self.item(i) {
            Some(n) => n.text(),
            None => None,
        }
    }

    /// The text of the item at position `i`, where it is a number.
    pub open spec fn item_number(self, i: int) -> Option<Seq<char>> {
        match self.item_text(i) {
            Some(t) => if is_number(t) {
                Some(t)
            } else {
                None
            },
            None => None,
        }
    }

    /// Is this a list headed by `name`?
    pub open spec fn is_named(self, name: Seq<char>) -> bool {
        self.item_text(0) == Some(name)
    }

    /// The items that are lists headed by `name`, in order.
    pub open spec fn find_all(self, name: Seq<char>) -> Seq<Sexp> {
        named_items(self.items(), name)
    }

    /// The first item that is a list headed by `name`.
    pub open spec fn find(self, name: Seq<char>) -> Option<Sexp> {
        if self.find_all(name).len() > 0 {
            Some(self.find_all(name)[0])
        } else {
            None
        }
    }

    /// The text that follows `name` in the first item headed by it.
    pub open spec fn find_text(self, name: Seq<char>) -> Option<Seq<char>> {
        match self.find(name) {
            Some(n) => n.item_text(1),
            None => None,
        }
    }
}

/// The trees of a list of references to nodes.
pub open spec fn ref_trees(v: Seq<&SexpNode>) -> Seq<Sexp> {
    Seq::new(v.len(), |i: int| v[i]@)
}

impl SexpNode {
    /// The text of a bare word or a quoted text.
    pub fn as_str(&self) -> (r: Option<&str>)
        ensures
            r matches Some(t) ==> self@.text() == Some(t@),
            r is None ==> self@.text() is None,
    {
        match self {
            SexpNode::Atom(t) => Some(t.as_str()),
            SexpNode::Str(t) => Some(t.as_str()),
            SexpNode::List(_) => None,
        }
    }

    /// The item at position `i` of a list.
    pub fn get(&self, i: usize) -> (r: Option<&SexpNode>)
        ensures
            r matches Some(n) ==> self@.item(i as int) == Some(n@),
            r is None ==> self@.item(i as int) is None,
    {
        match self {
            SexpNode::List(items) => {
                proof {
                    lemma_list_view(*items);
                }
                if i < items.len() {
                    Some(&items[i])
                } else {
                    None
                }
            },
            _ => None,
        }
    }

    /// The text of the item at position `i`.
    pub fn get_str(&self, i: usize) -> (r: Option<&str>)
        ensures
            r matches Some(t) ==> self@.item_text(i as int) == Some(t@),
            r is None ==> self@.item_text(i as int) is None,
    {
        match self.get(i) {
            Some(n) => n.as_str(),
            None => None,
        }
    }

    /// The text of the item at position `i`, where it is a number.
    pub fn get_number(&self, i: usize) -> (r: Option<&str>)
        ensures
            r matches Some(t) ==> self@.item_number(i as int) == Some(t@),
            r is None ==> self@.item_number(i as int) is None,
    {
        match self.get_str(i) {
            Some(t) => {
                let v = chars_of(t);
                if number_text(&v) {
                    Some(t)
                } else {
                    None
                }
            },
            None => None,
        }
    }

    /// Is this a list headed by `name`?
    pub fn is_named(&self, name: &str) -> (r: bool)
        ensures
            r == self@.is_named(name@),
    {
        match self.get_str(0) {
            Some(t) => same_text(t, name),
            None => false,
        }
    }

    /// The items that are lists headed by `name`, in order.
    pub fn find_all(&self, name: &str) -> (r: Vec<&SexpNode>)
        ensures
            ref_trees(r@) == self@.find_all(name@),
    {
        let mut out: Vec<&SexpNode> = Vec::new();
        match self {
            SexpNode::List(items) => {
                proof {
                    lemma_list_view(*items);
                }
                let ghost all = self@.items();
                let mut i: usize = 0;
                while i < items.len()
                    invariant
                        i <= items@.len(),
                        all == trees(items@),
                        ref_trees(out@) == named_items(all.take(i as int), name@),
                    decreases items@.len() - i,
                {
                    let n = &items[i];
                    proof {
                        assert(all.take(i + 1).drop_last() =~= all.take(i as int));
                        assert(all.take(i + 1).last() == n@);
                        assert(ref_trees(out@.push(n)) =~= ref_trees(out@).push(n@));
                    }
                    if n.is_named(name) {
                        out.push(n);
                    }
                    i = i + 1;
                }
                proof {
                    assert(all.take(items@.len() as int) =~= all);
                }
            },
            _ => {
                assert(ref_trees(out@) =~= Seq::<Sexp>::empty());
            },
        }
        out
    }

    /// The first item that is a list headed by `name`.
    pub fn find(&self, name: &str) -> (r: Option<&SexpNode>)
        ensures
            r matches Some(n) ==> self@.find(name@) == Some(n@),
            r is None ==> self@.find(name@) is None,
    {
        let all = self.find_all(name);
        assert(ref_trees(all@).len() == self@.find_all(name@).len());
        if all.len() > 0 {
            assert(ref_trees(all@)[0] == self@.find_all(name@)[0]);
            Some(all[0])
        } else {
            None
        }
    }

    /// The text that follows `name` in the first item headed by it.
    pub fn find_str(&self, name: &str) -> (r: Option<&str>)
        ensures
            r matches Some(t) ==> self@.find_text(name@) == Some(t@),
            r is None ==> self@.find_text(name@) is None,
    {
        match self.find(name) {
            Some(n) => n.get_str(1),
            None => None,
        }
    }
}

// ─── Laws ─────────────────────────────────────────────────────────────────────

/// Is `n` a list that begins with the word or the text `name`?
pub open spec fn is_headed(n: Sexp, name: Seq<char>) -> bool {
    n matches Sexp::List(inner) && inner.len() > 0 && (inner[0] == Sexp::Atom(name) || inner[0]
        == Sexp::Str(name))
}

proof fn lemma_named_items(items: Seq<Sexp>, name: Seq<char>)
    ensures
        named_items(items, name) == items.filter(|n: Sexp| is_headed(n, name)),
    decreases items.len(),
{
    reveal(Seq::filter);
    if items.len() > 0 {
        lemma_named_items(items.drop_last(), name);
        assert(items.last().is_named(name) == is_headed(items.last(), name));
    }
}

/// A look-up by name passes over nothing and makes nothing up: it gives the lists among the
/// items that begin with the name, all of them, in their order.
pub proof fn law_find_all(tree: Sexp, name: Seq<char>)
    ensures
        tree matches Sexp::List(items) ==> tree.find_all(name) == items.filter(
            |n: Sexp| is_headed(n, name),
        ),
        !(tree is List) ==> tree.find_all(name) == Seq::<Sexp>::empty(),
{
    lemma_named_items(tree.items(), name);
}

proof fn lemma_first_headed(items: Seq<Sexp>, name: Seq<char>, k: int)
    requires
        0 <= k < items.len(),
        is_headed(items[k], name),
        forall|j: int| 0 <= j < k ==> !is_headed(#[trigger] items[j], name),
    ensures
        named_items(items, name).len() > 0,
        named_items(items, name)[0] == items[k],
    decreases items.len(),
{
    let before = items.drop_last();
    if k == items.len() - 1 {
        assert forall|j: int| 0 <= j < before.len() implies !is_headed(
            #[trigger] before[j],
            name,
        ) by {
            assert(before[j] == items[j]);
        }
        lemma_none_headed(before, name);
    } else {
        assert(before[k] == items[k]);
        assert forall|j: int| 0 <= j < k implies !is_headed(#[trigger] before[j], name) by {
            assert(before[j] == items[j]);
        }
        lemma_first_headed(before, name, k);
    }
}

proof fn lemma_none_headed(items: Seq<Sexp>, name: Seq<char>)
    requires
        forall|j: int| 0 <= j < items.len() ==> !is_headed(#[trigger] items[j], name),
    ensures
        named_items(items, name).len() == 0,
    decreases items.len(),
{
    if items.len() > 0 {
        let before = items.drop_last();
        assert forall|j: int| 0 <= j < before.len() implies !is_headed(
            #[trigger] before[j],
            name,
        ) by {
            assert(before[j] == items[j]);
        }
        lemma_none_headed(before, name);
        assert(!is_headed(items[items.len() - 1], name));
    }
}

/// The first list that begins with a name is the one that is found, and the text that is
/// found under the name is its second item.
pub proof fn law_first_is_found(items: Seq<Sexp>, k: int, inner: Seq<Sexp>, name: Seq<char>)
    requires
        0 <= k < items.len(),
        items[k] == Sexp::List(inner),
        is_headed(items[k], name),
        forall|j: int| 0 <= j < k ==> !is_headed(#[trigger] items[j], name),
    ensures
        Sexp::List(items).find(name) == Some(items[k]),
        inner.len() > 1 && inner[1] is Atom ==> Sexp::List(items).find_text(name) == Some(
            inner[1]->Atom_0,
        ),
        inner.len() > 1 && inner[1] is Str ==> Sexp::List(items).find_text(name) == Some(
            inner[1]->Str_0,
        ),
        inner.len() <= 1 || inner[1] is List ==> Sexp::List(items).find_text(name) is None,
{
    lemma_first_headed(items, name, k);
}

/// Where no list begins with a name, nothing is found.
pub proof fn law_absent_is_not_found(items: Seq<Sexp>, name: Seq<char>)
    requires
        forall|j: int| 0 <= j < items.len() ==> !is_headed(#[trigger] items[j], name),
    ensures
        Sexp::List(items).find(name) is None,
        Sexp::List(items).find_text(name) is None,
{
    lemma_none_headed(items, name);
}

/// A word and a text have no items: nothing is found in them.
pub proof fn law_leaves_are_empty(t: Seq<char>, i: int, name: Seq<char>)
    ensures
        Sexp::Atom(t).text() == Some(t),
        Sexp::Str(t).text() == Some(t),
        Sexp::Atom(t).item(i) is None,
        Sexp::Str(t).item(i) is None,
        Sexp::Atom(t).find(name) is None,
        Sexp::Str(t).find(name) is None,
{
}

/// The item at a position is the one that stands there; behind the last there is none.
pub proof fn law_items_by_position(items: Seq<Sexp>, i: int)
    ensures
        Sexp::List(items).text() is None,
        0 <= i < items.len() ==> Sexp::List(items).item(i) == Some(items[i]),
        !(0 <= i < items.len()) ==> Sexp::List(items).item(i) is None,
        0 <= i < items.len() ==> (items[i] matches Sexp::Atom(t) ==> Sexp::List(items).item_text(i)
            == Some(t)),
        0 <= i < items.len() ==> (items[i] matches Sexp::Str(t) ==> Sexp::List(items).item_text(i)
            == Some(t)),
        0 <= i < items.len() && items[i] is List ==> Sexp::List(items).item_text(i) is None,
{
}

/// A number among the items of a list is an item that is a text, and a text that is a number.
pub proof fn law_number_items(tree: Sexp, i: int, t: Seq<char>)
    ensures
        tree.item_number(i) == Some(t) <==> tree.item_text(i) == Some(t) && is_number(t),
{
}

} // verus!
