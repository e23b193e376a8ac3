//! Parse trees as indented lines of text.

use vstd::prelude::*;
use vstd::string::*;

use crate::order;
use crate::text;

verus! {

/// A node of a parse tree: the rule that matched, the text it matched, and its parts.
#[derive(Debug)]
pub struct ParseTree {
    pub rule: String,
    pub text: String,
    pub inner: Vec<ParseTree>,
}

/// Two spaces for each level.
pub open spec fn indent(depth: nat) -> Seq<char>
    decreases depth,
{
    if depth == 0 {
        Seq::empty()
    } else {
        indent((depth - 1) as nat) + "  "@
    }
}

/// The line for a node: a leaf also shows its text.
pub open spec fn line_of(tree: ParseTree, margin: Seq<char>) -> Seq<char> {
    if tree.inner@.len() == 0 {
        margin + tree.rule@ + " = \""@ + tree.text@ + "\""@
    } else {
        margin + tree.rule@
    }
}

/// The lines of a tree: its own, then those of its parts one level deeper.
pub open spec fn lines_of(tree: ParseTree, margin: Seq<char>) -> Seq<Seq<char>>
    decreases tree, 1int,
{
    seq![line_of(tree, margin)] + lines_of_all(tree.inner@, margin + "  "@)
}

pub open spec fn lines_of_all(trees: Seq<ParseTree>, margin: Seq<char>) -> Seq<Seq<char>>
    decreases trees, 0int,
{
    if trees.len() == 0 {
        Seq::empty()
    } else {
        lines_of(trees[0], margin) + lines_of_all(trees.subrange(1, trees.len() as int), margin)
    }
}

/// Adds the lines of a tree.
fn add_lines(tree: &ParseTree, margin: &str, out: &mut Vec<String>)
    ensures
        order::views(final(out)@) == order::views(old(out)@) + lines_of(*tree, margin@),
    decreases tree,
{
    let ghost out0 = order::views(out@);
    let line: String = if tree.inner.len() == 0 {
        text::joined5(margin, tree.rule.as_str(), " = \"", tree.text.as_str(), "\"")
    } else {
        text::joined2(margin, tree.rule.as_str())
    };
    out.push(line);
    let deeper: String = text::joined2(margin, "  ");
    let ghost total = out0 + lines_of(*tree, margin@);
    let mut i: usize = 0;
    proof {
        assert(order::views(out@) =~= out0 + seq![line_of(*tree, margin@)]);
        assert(tree.inner@.skip(0) =~= tree.inner@);
        assert(order::views(out@) + lines_of_all(tree.inner@.skip(0), deeper@) =~= total);
    }
    while i < tree.inner.len()
        invariant
            i <= tree.inner@.len(),
            deeper@ == margin@ + "  "@,
            order::views(out@) + lines_of_all(tree.inner@.skip(i as int), deeper@) == total,
        decreases tree.inner@.len() - i,
    {
        let ghost before = order::views(out@);
        let ghost rest = tree.inner@.skip(i as int);
        add_lines(&tree.inner[i], deeper.as_str(), out);
        proof {
            assert(rest[0] == tree.inner@[i as int]);
            assert(rest.subrange(1, rest.len() as int) =~= tree.inner@.skip(i + 1));
            assert(order::views(out@) + lines_of_all(tree.inner@.skip(i + 1), deeper@) =~= before
                + lines_of_all(rest, deeper@));
        }
        i = i + 1;
    }
    assert(tree.inner@.skip(i as int) =~= Seq::<ParseTree>::empty());
    assert(order::views(out@) + Seq::<Seq<char>>::empty() =~= order::views(out@));
}

/// The lines that show a parse tree, `depth` levels in.
pub fn print_pair(pair: &ParseTree, depth: usize) -> (r: Vec<String>)
    ensures
        order::views(r@) == lines_of(*pair, indent(depth as nat)),
{
    let mut margin: String = String::new();
    let mut i: usize = 0;
    while i < depth
        invariant
            i <= depth,
            margin@ == indent(i as nat),
        decreases depth - i,
    {
        margin.append("  ");
        i = i + 1;
    }
    let mut out: Vec<String> = Vec::new();
    add_lines(pair, margin.as_str(), &mut out);
    assert(Seq::<Seq<char>>::empty() + lines_of(*pair, margin@) =~= lines_of(*pair, margin@));
    assert(order::views(Seq::<String>::empty()) =~= Seq::<Seq<char>>::empty());
    out
}

/// Each level is indented by two blanks.
pub proof fn levels_are_two_blanks(depth: nat)
    ensures
        indent(depth).len() == 2 * depth,
        forall|i: int| 0 <= i < indent(depth).len() ==> #[trigger] indent(depth)[i] == ' ',
    decreases depth,
{
    reveal_strlit("  ");
    if depth > 0 {
        levels_are_two_blanks((depth - 1) as nat);
    }
}

/// The number of nodes of a tree.
pub open spec fn node_count(tree: ParseTree) -> nat
    decreases tree, 1int,
{
    1 + node_counts(tree.inner@)
}

/// The number of nodes of the trees together.
pub open spec fn node_counts(trees: Seq<ParseTree>) -> nat
    decreases trees, 0int,
{
    if trees.len() == 0 {
        0
    } else {
        node_count(trees[0]) + node_counts(trees.subrange(1, trees.len() as int))
    }
}

/// Each node of a tree has one line, that of the tree comes first, and every line starts with
/// the margin.
pub proof fn each_node_has_one_line(tree: ParseTree, margin: Seq<char>)
    ensures
        lines_of(tree, margin).len() == node_count(tree),
        lines_of(tree, margin)[0] == line_of(tree, margin),
        forall|i: int|
            0 <= i < lines_of(tree, margin).len() ==> margin.is_prefix_of(
                #[trigger] lines_of(tree, margin)[i],
            ),
    decreases tree, 1int,
{
    let deeper = margin + "  "@;
    lemma_lines_of_all(tree.inner@, deeper);
    let rest = lines_of_all(tree.inner@, deeper);
    let all = lines_of(tree, margin);
    assert(margin.is_prefix_of(line_of(tree, margin)));
    assert forall|i: int| 0 <= i < all.len() implies margin.is_prefix_of(#[trigger] all[i]) by {
        if i > 0 {
            assert(all[i] == rest[i - 1]);
            assert(deeper.is_prefix_of(rest[i - 1]));
        }
    }
}

proof fn lemma_lines_of_all(trees: Seq<ParseTree>, margin: Seq<char>)
    ensures
        lines_of_all(trees, margin).len() == node_counts(trees),
        forall|i: int|
            0 <= i < lines_of_all(trees, margin).len() ==> margin.is_prefix_of(
                #[trigger] lines_of_all(trees, margin)[i],
            ),
    decreases trees, 0int,
{
    if trees.len() > 0 {
        let rest = trees.subrange(1, trees.len() as int);
        each_node_has_one_line(trees[0], margin);
        lemma_lines_of_all(rest, margin);
        let all = lines_of_all(trees, margin);
        let n = lines_of(trees[0], margin).len() as int;
        assert forall|i: int| 0 <= i < all.len() implies margin.is_prefix_of(#[trigger] all[i]) by {
            if i < n {
                assert(all[i] == lines_of(trees[0], margin)[i]);
            } else {
                assert(all[i] == lines_of_all(rest, margin)[i - n]);
            }
        }
    }
}

/// The parts of a node are shown in order, one after another.
pub proof fn parts_are_shown_in_order(a: Seq<ParseTree>, b: Seq<ParseTree>, margin: Seq<char>)
    ensures
        lines_of_all(a + b, margin) == lines_of_all(a, margin) + lines_of_all(b, margin),
    decreases a.len(),
{
    if a.len() == 0 {
        assert(a + b =~= b);
        assert(lines_of_all(a, margin) + lines_of_all(b, margin) =~= lines_of_all(b, margin));
    } else {
        let all = a + b;
        let rest = a.subrange(1, a.len() as int);
        parts_are_shown_in_order(rest, b, margin);
        assert(all.subrange(1, all.len() as int) =~= rest + b);
        assert(all[0] == a[0]);
        assert(lines_of_all(all, margin) =~= lines_of_all(a, margin) + lines_of_all(b, margin));
    }
}

} // verus!
