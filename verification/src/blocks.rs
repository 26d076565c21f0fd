//! Balanced `(…)` blocks in the text of an S-expression file. Edits replace such
//! a block in place, so that the rest of the file keeps its exact form.
use vstd::prelude::*;
use crate::sexp::{
    is_delimiter, is_space, read_items, read_node, read_quoted, skip_space, word_end,
};

verus! {

/// Where the block that is open `depth` levels deep at position `i` ends: the
/// position after the parenthesis that closes its outermost level. Inside a quoted
/// text, parentheses do not count and a backslash takes the next character with it.
pub open spec fn block_end(s: Seq<char>, i: int, depth: nat, quoted: bool) -> Option<int>
    decreases s.len() - i,
{
    if !(0 <= i < s.len()) {
        None
    } else if quoted {
        if s[i] == '\\' {
            if i + 1 < s.len() {
                block_end(s, i + 2, depth, true)
            } else {
                None
            }
        } else {
            block_end(s, i + 1, depth, s[i] != '"')
        }
    } else if s[i] == '"' {
        block_end(s, i + 1, depth, true)
    } else if s[i] == '(' {
        block_end(s, i + 1, depth + 1, false)
    } else if s[i] == ')' {
        if depth <= 1 {
            Some(i + 1)
        } else {
            block_end(s, i + 1, (depth - 1) as nat, false)
        }
    } else {
        block_end(s, i + 1, depth, false)
    }
}

/// The position after the balanced block that opens at `open`.
pub open spec fn balanced_end(s: Seq<char>, open: int) -> Option<int> {
    if 0 <= open < s.len() && s[open] == '(' {
        block_end(s, open + 1, 1, false)
    } else {
        None
    }
}

/// A block ends after it opens, within the text, and with a closing parenthesis.
pub proof fn lemma_block_end(s: Seq<char>, i: int, depth: nat, quoted: bool)
    ensures
        block_end(s, i, depth, quoted) matches Some(end) ==> i < end <= s.len() && s[end - 1]
            == ')',
    decreases s.len() - i,
{
    if 0 <= i < s.len() {
        lemma_block_end(s, i + 1, depth, true);
        lemma_block_end(s, i + 1, depth, false);
        if i + 1 < s.len() {
            lemma_block_end(s, i + 2, depth, true);
        }
        lemma_block_end(s, i + 1, depth + 1, false);
        if depth > 1 {
            lemma_block_end(s, i + 1, (depth - 1) as nat, false);
        }
    }
}

/// The end of the balanced block that opens at `open`, as the position after its
/// closing parenthesis.
pub fn find_balanced_block(s: &Vec<char>, open: usize) -> (r: Option<usize>)
    requires
        open <= s@.len(),
    ensures
        r matches Some(end) ==> balanced_end(s@, open as int) == Some(end as int) && open + 2 <= end
            <= s@.len() && s@[end - 1] == ')',
        r is None ==> balanced_end(s@, open as int) is None,
{
    if open >= s.len() || s[open] != '(' {
        return None;
    }
    let mut i: usize = open + 1;
    let mut depth: usize = 1;
    let mut quoted: bool = false;
    proof {
        lemma_block_end(s@, open + 1, 1, false);
    }
    while i < s.len()
        invariant
            open < i,
            1 <= depth <= i,
            balanced_end(s@, open as int) == block_end(s@, i as int, depth as nat, quoted),
            balanced_end(s@, open as int) matches Some(end) ==> open + 2 <= end <= s@.len()
                && s@[end - 1] == ')',
        decreases s@.len() - i,
    {
        let c = s[i];
        if quoted {
            if c == '\\' {
                if i + 1 >= s.len() {
                    return None;
                }
                i = i + 1;
            } else if c == '"' {
                quoted = false;
            }
        } else if c == '"' {
            quoted = true;
        } else if c == '(' {
            depth = depth + 1;
        } else if c == ')' {
            if depth == 1 {
                return Some(i + 1);
            }
            depth = depth - 1;
        }
        i = i + 1;
    }
    None
}

// ─── Blocks and expressions ───────────────────────────────────────────────────

proof fn lemma_skip_space_block(s: Seq<char>, i: int, depth: nat)
    requires
        0 <= i <= s.len(),
    ensures
        block_end(s, i, depth, false) == block_end(s, skip_space(s, i), depth, false),
        i <= skip_space(s, i) <= s.len(),
    decreases s.len() - i,
{
    if i < s.len() && is_space(s[i]) {
        lemma_skip_space_block(s, i + 1, depth);
    }
}

proof fn lemma_word_block(s: Seq<char>, i: int, depth: nat)
    requires
        0 <= i <= s.len(),
    ensures
        block_end(s, i, depth, false) == block_end(s, word_end(s, i), depth, false),
        i <= word_end(s, i) <= s.len(),
        i < s.len() && !is_delimiter(s[i]) ==> i < word_end(s, i),
    decreases s.len() - i,
{
    if i < s.len() && !is_delimiter(s[i]) {
        lemma_word_block(s, i + 1, depth);
    }
}

proof fn lemma_quoted_block(s: Seq<char>, i: int, depth: nat)
    ensures
        read_quoted(s, i) matches Some((_, end)) ==> i < end <= s.len() && block_end(
            s,
            i,
            depth,
            true,
        ) == block_end(s, end, depth, false),
    decreases s.len() - i,
{
    if 0 <= i < s.len() {
        lemma_quoted_block(s, i + 1, depth);
        if i + 1 < s.len() {
            lemma_quoted_block(s, i + 2, depth);
        }
    }
}

proof fn lemma_node_block(s: Seq<char>, i: int, depth: nat)
    requires
        0 <= i <= s.len(),
        depth >= 1,
    ensures
        read_node(s, i) matches Some((_, end)) ==> i < end <= s.len() && block_end(
            s,
            i,
            depth,
            false,
        ) == block_end(s, end, depth, false),
    decreases s.len() - i, 0nat,
{
    lemma_skip_space_block(s, i, depth);
    let j = skip_space(s, i);
    if j < s.len() && s[j] != ')' {
        if s[j] == '(' {
            lemma_items_block(s, j + 1, depth + 1);
        } else if s[j] == '"' {
            lemma_quoted_block(s, j + 1, depth);
        } else {
            lemma_no_space(s, i);
            lemma_word_block(s, j, depth);
        }
    }
}

proof fn lemma_no_space(s: Seq<char>, i: int)
    requires
        0 <= i <= s.len(),
    ensures
        skip_space(s, i) < s.len() ==> !is_space(s[skip_space(s, i)]),
    decreases s.len() - i,
{
    if i < s.len() && is_space(s[i]) {
        lemma_no_space(s, i + 1);
    }
}

proof fn lemma_items_block(s: Seq<char>, i: int, depth: nat)
    requires
        0 <= i <= s.len(),
        depth >= 1,
    ensures
        read_items(s, i) matches Some((_, end)) ==> i < end <= s.len() && block_end(
            s,
            i,
            depth,
            false,
        ) == (if depth == 1 {
            Some(end)
        } else {
            block_end(s, end, (depth - 1) as nat, false)
        }),
    decreases s.len() - i, 1nat,
{
    lemma_skip_space_block(s, i, depth);
    let j = skip_space(s, i);
    if j < s.len() && s[j] != ')' {
        lemma_node_block(s, j, depth);
        if let Some((_, end)) = read_node(s, j) {
            lemma_items_block(s, end, depth);
        }
    }
}

/// A list that the reader reads is exactly a balanced block: where a list is read
/// from an opening parenthesis on, the block that opens there ends where the list
/// ends.
pub proof fn law_lists_are_balanced_blocks(s: Seq<char>, open: int)
    requires
        0 <= open < s.len(),
        s[open] == '(',
        read_node(s, open) is Some,
    ensures
        read_node(s, open) matches Some((node, end)) && node is List && balanced_end(s, open)
            == Some(end),
{
    lemma_items_block(s, open + 1, 1);
}

} // verus!
