use vstd::prelude::*;

use crate::cst::{
    forest_fits, forest_nested, has_named_children, node_fits, required_children, span_fits,
    spans_nested, tree_fits, Cst, CstText, LineCol, Span,
};
use crate::rule::{lemma_rule_index, rule_of_index, Rule};

verus! {

/// One node of a syntax tree as the parser lists it in pre-order: the position of its rule in the
/// grammar's list of rules, its span and its number of children.
#[derive(Debug, Clone, Copy, PartialEq, Eq, Hash, Structural)]
pub struct FlatNode {
    pub rule: u16,
    pub start: usize,
    pub end: usize,
    pub children: usize,
}

/// What the SATySFi parser (`satysfi_parser::CstText::parse` with the grammar's `program` rule)
/// yields for a text: the nodes of the tree in pre-order, or the position of the syntax error
/// together with the set of tokens it expected there (the parser collects them in a hash set,
/// so only the set, not the order in which they are listed, is a function of the text).
pub uninterp spec fn satysfi_parse_program(text: Seq<char>) -> Result<
    Seq<FlatNode>,
    (LineCol, Set<Seq<char>>),
>;

/// Parses `text` with `satysfi_parser::CstText::parse` and the grammar's rule
/// `satysfi_parser::grammar::program`, then lists the nodes of the resulting tree in pre-order
/// with `satysfi_parser::Cst::listup`, each as its rule's position in the enum `Rule` of the
/// parser, its span and its number of children. On a syntax error it hands back the error's line
/// and column and the expected tokens, which the parser's error keeps in a hash set: their set
/// is named, their order is left open, and none is listed twice. The contract names the result
/// and says nothing more of it.
#[verifier::external_body]
fn parse_program_nodes(text: &str) -> (r: Result<Vec<FlatNode>, (LineCol, Vec<String>)>)
    ensures
        match r {
            Ok(nodes) => satysfi_parse_program(text@) == Ok::<_, (LineCol, Set<Seq<char>>)>(
                nodes@,
            ),
            Err((lc, expected)) => {
                &&& satysfi_parse_program(text@) == Err::<Seq<FlatNode>, _>(
                    (lc, expected@.map_values(|s: String| s@).to_set()),
                )
                &&& expected@.map_values(|s: String| s@).no_duplicates()
            },
        },
{
    match satysfi_parser::CstText::parse(text, satysfi_parser::grammar::program) {
        Ok(t) => Ok(t.cst.listup().into_iter().map(|c| FlatNode {
            rule: c.rule as u16,
            start: c.span.start,
            end: c.span.end,
            children: c.inner.len(),
        }).collect()),
        Err((lc, expected)) => Err((
            LineCol { line: lc.line, column: lc.column },
            expected.into_iter().map(|s| s.to_string()).collect(),
        )),
    }
}

pub open spec fn flat_node(t: Cst) -> FlatNode {
    FlatNode {
        rule: t.rule.index(),
        start: t.span.start,
        end: t.span.end,
        children: t.inner.len() as usize,
    }
}

/// The nodes of the forest `ts` in pre-order.
pub open spec fn flatten_forest(ts: Seq<Cst>) -> Seq<FlatNode>
    decreases ts,
{
    if ts.len() == 0 {
        seq![]
    } else {
        flatten_forest(ts.drop_last()) + seq![flat_node(ts.last())] + flatten_forest(
            ts.last().inner@,
        )
    }
}

/// The nodes of the tree `t` in pre-order.
pub open spec fn flatten(t: Cst) -> Seq<FlatNode> {
    seq![flat_node(t)] + flatten_forest(t.inner@)
}

/// The tree `t` is listed in `s` from position `pos` on.
pub open spec fn listed_at(s: Seq<FlatNode>, pos: int, t: Cst) -> bool {
    &&& 0 <= pos
    &&& pos + flatten(t).len() <= s.len()
    &&& s.subrange(pos, pos + flatten(t).len()) == flatten(t)
}

/// `s` lists exactly the tree `t`.
pub open spec fn lists(s: Seq<FlatNode>, t: Cst) -> bool {
    flatten(t) == s
}

proof fn lemma_flatten_forest_push(s: Seq<Cst>, x: Cst)
    ensures
        flatten_forest(s.push(x)) == flatten_forest(s) + flatten(x),
{
    assert(s.push(x).drop_last() == s);
}

proof fn lemma_flatten_forest_concat(a: Seq<Cst>, b: Seq<Cst>)
    ensures
        flatten_forest(a + b) == flatten_forest(a) + flatten_forest(b),
    decreases b.len(),
{
    if b.len() == 0 {
        assert(a + b == a);
    } else {
        assert((a + b).drop_last() == a + b.drop_last());
        lemma_flatten_forest_concat(a, b.drop_last());
    }
}

proof fn lemma_flatten_forest_single(x: Cst)
    ensures
        flatten_forest(seq![x]) == flatten(x),
{
    let s = seq![x];
    assert(s.drop_last() =~= Seq::<Cst>::empty());
    assert(s.last() == x);
    assert(flatten_forest(Seq::<Cst>::empty()) == Seq::<FlatNode>::empty());
    assert(flatten_forest(s) =~= flatten(x));
}

proof fn lemma_flatten_forest_front(ts: Seq<Cst>)
    requires
        ts.len() > 0,
    ensures
        flatten_forest(ts) == flatten(ts[0]) + flatten_forest(ts.drop_first()),
{
    assert(ts == seq![ts[0]] + ts.drop_first());
    lemma_flatten_forest_concat(seq![ts[0]], ts.drop_first());
    lemma_flatten_forest_single(ts[0]);
}

/// Two trees listed at the start of one sequence are listed by the same nodes: a pre-order
/// listing with child counts is a prefix code.
pub proof fn lemma_listing_unique(t1: Cst, t2: Cst, s: Seq<FlatNode>)
    requires
        listed_at(s, 0, t1),
        listed_at(s, 0, t2),
    ensures
        flatten(t1) == flatten(t2),
    decreases t1,
{
    assert(flatten(t1)[0] == s[0]);
    assert(flatten(t2)[0] == s[0]);
    lemma_rule_index(t2.rule, t1.rule.index());
    lemma_rule_index(t1.rule, t1.rule.index());
    let rest = s.skip(1);
    let n1 = flatten_forest(t1.inner@).len() as int;
    let n2 = flatten_forest(t2.inner@).len() as int;
    assert(rest.subrange(0, n1 as int) =~= s.subrange(0, 1 + n1).subrange(1, 1 + n1));
    assert(flatten(t1).subrange(1, 1 + n1) =~= flatten_forest(t1.inner@));
    assert(rest.subrange(0, n2 as int) =~= s.subrange(0, 1 + n2).subrange(1, 1 + n2));
    assert(flatten(t2).subrange(1, 1 + n2) =~= flatten_forest(t2.inner@));
    lemma_forest_listing_unique(t1.inner@, t2.inner@, rest);
}

proof fn lemma_forest_listing_unique(ts1: Seq<Cst>, ts2: Seq<Cst>, s: Seq<FlatNode>)
    requires
        ts1.len() == ts2.len(),
        flatten_forest(ts1).len() <= s.len(),
        flatten_forest(ts2).len() <= s.len(),
        s.subrange(0, flatten_forest(ts1).len() as int) == flatten_forest(ts1),
        s.subrange(0, flatten_forest(ts2).len() as int) == flatten_forest(ts2),
    ensures
        flatten_forest(ts1) == flatten_forest(ts2),
    decreases ts1,
{
    if ts1.len() > 0 {
        lemma_flatten_forest_front(ts1);
        lemma_flatten_forest_front(ts2);
        let h1 = flatten(ts1[0]);
        let h2 = flatten(ts2[0]);
        assert(s.subrange(0, h1.len() as int) == h1);
        assert(s.subrange(0, h2.len() as int) == h2);
        lemma_listing_unique(ts1[0], ts2[0], s);
        let rest = s.skip(h1.len() as int);
        let r1 = flatten_forest(ts1.drop_first());
        let r2 = flatten_forest(ts2.drop_first());
        let m1 = flatten_forest(ts1).len() as int;
        let m2 = flatten_forest(ts2).len() as int;
        assert(rest.subrange(0, r1.len() as int) =~= s.subrange(0, m1).subrange(h1.len() as int, m1));
        assert(flatten_forest(ts1).subrange(h1.len() as int, m1) =~= r1);
        assert(rest.subrange(0, r2.len() as int) =~= s.subrange(0, m2).subrange(h2.len() as int, m2));
        assert(flatten_forest(ts2).subrange(h2.len() as int, m2) =~= r2);
        lemma_forest_listing_unique(ts1.drop_first(), ts2.drop_first(), rest);
    }
}

/// The `k`-th child of a tree listed at `pos` is listed right after the children before it.
proof fn lemma_child_listed(nodes: Seq<FlatNode>, pos: int, t: Cst, k: int, cur: int)
    requires
        listed_at(nodes, pos, t),
        0 <= k < t.inner.len(),
        cur == pos + 1 + flatten_forest(t.inner@.take(k)).len(),
    ensures
        listed_at(nodes, cur, t.inner@[k]),
{
    let c = t.inner@[k];
    let before = t.inner@.take(k);
    let after = t.inner@.skip(k + 1);
    assert(t.inner@ == before.push(c) + after);
    lemma_flatten_forest_concat(before.push(c), after);
    lemma_flatten_forest_push(before, c);
    let f = flatten(t);
    assert(f == seq![flat_node(t)] + flatten_forest(before) + flatten(c) + flatten_forest(after));
    let lo = cur;
    let hi = cur + flatten(c).len();
    assert(nodes.subrange(lo, hi) == f.subrange(lo - pos, hi - pos));
    assert(f.subrange(lo - pos, hi - pos) == flatten(c));
}

/// A tree decoded where the `k`-th child of `t` is listed takes up as many nodes as that child.
proof fn lemma_child_decoded(nodes: Seq<FlatNode>, t: Cst, k: int, cur: int, c: Cst)
    requires
        0 <= k < t.inner.len(),
        listed_at(nodes, cur, t.inner@[k]),
        listed_at(nodes, cur, c),
    ensures
        flatten(c) == flatten(t.inner@[k]),
        flatten_forest(t.inner@.take(k + 1)).len() == flatten_forest(t.inner@.take(k)).len()
            + flatten(c).len(),
{
    let c0 = t.inner@[k];
    let s = nodes.skip(cur);
    assert(s.subrange(0, flatten(c0).len() as int) == flatten(c0));
    assert(s.subrange(0, flatten(c).len() as int) == flatten(c));
    lemma_listing_unique(c0, c, s);
    assert(t.inner@.take(k + 1) == t.inner@.take(k).push(c0));
    lemma_flatten_forest_push(t.inner@.take(k), c0);
}

/// Rebuilds the tree listed in `nodes` from position `pos` on.
fn decode_at(nodes: &Vec<FlatNode>, pos: usize) -> (r: Option<(Cst, usize)>)
    requires
        pos <= nodes.len(),
    ensures
        r matches Some((t, next)) ==> pos < next <= nodes.len() && nodes@.subrange(
            pos as int,
            next as int,
        ) == flatten(t),
        (exists|t: Cst| listed_at(nodes@, pos as int, t)) ==> r is Some,
    decreases nodes.len() - pos,
{
    let ghost w: Option<Cst> = if exists|t: Cst| listed_at(nodes@, pos as int, t) {
        Some(choose|t: Cst| listed_at(nodes@, pos as int, t))
    } else {
        None
    };
    if pos >= nodes.len() {
        return None;
    }
    let n = nodes[pos];
    proof {
        if let Some(t) = w {
            assert(flatten(t)[0] == nodes@[pos as int]);
            lemma_rule_index(t.rule, n.rule);
        }
    }
    let rule = match Rule::from_index(n.rule) {
        Some(rule) => rule,
        None => return None,
    };
    proof {
        lemma_rule_index(rule, n.rule);
    }
    let mut inner: Vec<Cst> = Vec::new();
    let mut cur: usize = pos + 1;
    let mut k: usize = 0;
    while k < n.children
        invariant
            pos < cur <= nodes.len(),
            k <= n.children,
            inner.len() == k,
            n == nodes@[pos as int],
            nodes@.subrange(pos + 1, cur as int) == flatten_forest(inner@),
            (exists|t: Cst| listed_at(nodes@, pos as int, t)) ==> w is Some,
            w matches Some(t) ==> {
                &&& listed_at(nodes@, pos as int, t)
                &&& n.children == t.inner.len()
                &&& cur == pos + 1 + flatten_forest(t.inner@.take(k as int)).len()
            },
        decreases n.children - k,
    {
        proof {
            if let Some(t) = w {
                lemma_child_listed(nodes@, pos as int, t, k as int, cur as int);
                assert(exists|c: Cst| listed_at(nodes@, cur as int, c));
            }
        }
        match decode_at(nodes, cur) {
            Some((c, next)) => {
                proof {
                    if let Some(t) = w {
                        lemma_child_decoded(nodes@, t, k as int, cur as int, c);
                    }
                    lemma_flatten_forest_push(inner@, c);
                    assert(nodes@.subrange(pos + 1, next as int) == nodes@.subrange(
                        pos + 1,
                        cur as int,
                    ) + nodes@.subrange(cur as int, next as int));
                }
                inner.push(c);
                cur = next;
            },
            None => {
                return None;
            },
        }
        k += 1;
    }
    let t = Cst { rule, span: Span { start: n.start, end: n.end }, inner };
    proof {
        assert(flat_node(t) == n);
        assert(nodes@.subrange(pos as int, cur as int) == seq![n] + nodes@.subrange(
            pos + 1,
            cur as int,
        ));
    }
    Some((t, cur))
}

/// Rebuilds the tree that `nodes` lists in pre-order, if they list one.
pub fn decode(nodes: &Vec<FlatNode>) -> (r: Option<Cst>)
    ensures
        r matches Some(t) ==> lists(nodes@, t),
        r is None <==> !exists|t: Cst| lists(nodes@, t),
{
    match decode_at(nodes, 0) {
        Some((t, next)) => {
            if next == nodes.len() {
                assert(nodes@.subrange(0, next as int) == nodes@);
                assert(lists(nodes@, t));
                Some(t)
            } else {
                proof {
                    assert forall|t2: Cst| !lists(nodes@, t2) by {
                        if lists(nodes@, t2) {
                            assert(nodes@.subrange(0, nodes@.len() as int) == nodes@);
                            assert(listed_at(nodes@, 0, t2));
                            assert(listed_at(nodes@, 0, t));
                            lemma_listing_unique(t, t2, nodes@);
                        }
                    }
                }
                None
            }
        },
        None => {
            proof {
                assert forall|t2: Cst| !lists(nodes@, t2) by {
                    if lists(nodes@, t2) {
                        assert(nodes@.subrange(0, nodes@.len() as int) == nodes@);
                        assert(listed_at(nodes@, 0, t2));
                    }
                }
            }
            None
        },
    }
}

/// What [`node_fits`] asks of a tree node, read off its listed form.
pub open spec fn flat_node_fits(bytes: Seq<u8>, n: FlatNode) -> bool {
    &&& span_fits(bytes, Span { start: n.start, end: n.end })
    &&& rule_of_index(n.rule) matches Some(rule) && n.children >= required_children(rule)
}

pub open spec fn all_flat_fit(bytes: Seq<u8>, s: Seq<FlatNode>) -> bool {
    forall|i: int| 0 <= i < s.len() ==> flat_node_fits(bytes, #[trigger] s[i])
}

proof fn lemma_forest_fits_flat(bytes: Seq<u8>, ts: Seq<Cst>)
    ensures
        forest_fits(bytes, ts) == all_flat_fit(bytes, flatten_forest(ts)),
    decreases ts,
{
    if ts.len() > 0 {
        let last = ts.last();
        lemma_forest_fits_flat(bytes, ts.drop_last());
        lemma_forest_fits_flat(bytes, last.inner@);
        lemma_rule_index(last.rule, last.rule.index());
        let a = flatten_forest(ts.drop_last());
        let b = seq![flat_node(last)];
        let c = flatten_forest(last.inner@);
        let all = a + b + c;
        assert(all == flatten_forest(ts));
        assert(node_fits(bytes, last) == flat_node_fits(bytes, flat_node(last)));
        if all_flat_fit(bytes, all) {
            assert forall|i: int| 0 <= i < a.len() implies flat_node_fits(bytes, #[trigger] a[i]) by {
                assert(all[i] == a[i]);
            }
            assert forall|i: int| 0 <= i < c.len() implies flat_node_fits(bytes, #[trigger] c[i]) by {
                assert(all[i + a.len() + 1] == c[i]);
            }
            assert(all[a.len() as int] == flat_node(last));
        }
        if all_flat_fit(bytes, a) && flat_node_fits(bytes, flat_node(last)) && all_flat_fit(bytes, c) {
            assert forall|i: int| 0 <= i < all.len() implies flat_node_fits(bytes, #[trigger] all[i]) by {
                if i < a.len() {
                    assert(all[i] == a[i]);
                } else if i == a.len() {
                } else {
                    assert(all[i] == c[i - a.len() - 1]);
                }
            }
        }
    }
}

proof fn lemma_tree_fits_single(bytes: Seq<u8>, t: Cst)
    ensures
        forest_fits(bytes, seq![t]) == tree_fits(bytes, t),
{
    let s = seq![t];
    assert(s.drop_last() =~= Seq::<Cst>::empty());
    assert(s.last() == t);
    assert(forest_fits(bytes, Seq::<Cst>::empty()));
}

/// Whether a tree fits a text depends only on its listing.
proof fn lemma_same_listing_same_fit(t1: Cst, t2: Cst, bytes: Seq<u8>)
    requires
        flatten(t1) == flatten(t2),
    ensures
        tree_fits(bytes, t1) == tree_fits(bytes, t2),
{
    lemma_flatten_forest_single(t1);
    lemma_flatten_forest_single(t2);
    lemma_tree_fits_single(bytes, t1);
    lemma_tree_fits_single(bytes, t2);
    lemma_forest_fits_flat(bytes, seq![t1]);
    lemma_forest_fits_flat(bytes, seq![t2]);
}

/// Two trees with one listing have the same rule, span and number of children, and their
/// children have one listing each.
proof fn lemma_same_listing_node(t1: Cst, t2: Cst)
    requires
        flatten(t1) == flatten(t2),
    ensures
        t1.rule == t2.rule,
        t1.span == t2.span,
        t1.inner.len() == t2.inner.len(),
        forall|k: int|
            0 <= k < t1.inner.len() ==> flatten(#[trigger] t1.inner@[k]) == flatten(t2.inner@[k]),
{
    assert(flatten(t1)[0] == flat_node(t1));
    assert(flatten(t2)[0] == flat_node(t2));
    lemma_rule_index(t2.rule, t1.rule.index());
    lemma_rule_index(t1.rule, t1.rule.index());
    let nodes = flatten(t1);
    assert forall|k: int| 0 <= k < t1.inner.len() implies flatten(#[trigger] t1.inner@[k]) == flatten(
        t2.inner@[k],
    ) by {
        let b1 = t1.inner@.take(k);
        let b2 = t2.inner@.take(k);
        let rest = nodes.skip(1);
        assert(rest == flatten_forest(t1.inner@));
        assert(rest == flatten_forest(t2.inner@));
        assert(t1.inner@ == b1 + t1.inner@.skip(k));
        assert(t2.inner@ == b2 + t2.inner@.skip(k));
        lemma_flatten_forest_concat(b1, t1.inner@.skip(k));
        lemma_flatten_forest_concat(b2, t2.inner@.skip(k));
        assert(rest.subrange(0, flatten_forest(b1).len() as int) == flatten_forest(b1));
        assert(rest.subrange(0, flatten_forest(b2).len() as int) == flatten_forest(b2));
        lemma_forest_listing_unique(b1, b2, rest);
        let cur: int = (1 + flatten_forest(b1).len()) as int;
        assert(nodes.subrange(0, nodes.len() as int) =~= nodes);
        assert(listed_at(nodes, 0, t1));
        assert(listed_at(nodes, 0, t2));
        lemma_child_listed(nodes, 0, t1, k, cur);
        lemma_child_listed(nodes, 0, t2, k, cur);
        let c1 = t1.inner@[k];
        let c2 = t2.inner@[k];
        let s = nodes.skip(cur);
        assert(s.subrange(0, flatten(c1).len() as int) == nodes.subrange(
            cur,
            cur + flatten(c1).len(),
        ));
        assert(s.subrange(0, flatten(c2).len() as int) == nodes.subrange(
            cur,
            cur + flatten(c2).len(),
        ));
        lemma_listing_unique(c1, c2, s);
    }
}

/// Whether the first `k` children of two trees with one listing nest within their parent does
/// not depend on which of the two is asked.
proof fn lemma_same_listing_prefix_nesting(t1: Cst, t2: Cst, k: int)
    requires
        flatten(t1) == flatten(t2),
        0 <= k <= t1.inner.len(),
    ensures
        forest_nested(t1.inner@.take(k), t1.span) == forest_nested(t2.inner@.take(k), t2.span),
    decreases t1, k,
{
    lemma_same_listing_node(t1, t2);
    if k > 0 {
        lemma_same_listing_prefix_nesting(t1, t2, k - 1);
        let c1 = t1.inner@[k - 1];
        let c2 = t2.inner@[k - 1];
        assert(flatten(c1) == flatten(c2));
        assert(decreases_to!(t1 => t1.inner@[k - 1]));
        lemma_same_listing_prefix_nesting(c1, c2, c1.inner.len() as int);
        lemma_same_listing_node(c1, c2);
        assert(c1.inner@.take(c1.inner.len() as int) == c1.inner@);
        assert(c2.inner@.take(c2.inner.len() as int) == c2.inner@);
        if c1.inner.len() >= 1 {
            assert(flatten(c1.inner@[0]) == flatten(c2.inner@[0]));
            lemma_same_listing_node(c1.inner@[0], c2.inner@[0]);
        }
        if c1.inner.len() >= 2 {
            assert(flatten(c1.inner@[1]) == flatten(c2.inner@[1]));
            lemma_same_listing_node(c1.inner@[1], c2.inner@[1]);
        }
        assert(has_named_children(c1) == has_named_children(c2));
        assert(t1.inner@.take(k).drop_last() == t1.inner@.take(k - 1));
        assert(t2.inner@.take(k).drop_last() == t2.inner@.take(k - 1));
        assert(t1.inner@.take(k).last() == c1);
        assert(t2.inner@.take(k).last() == c2);
    } else {
        assert(t1.inner@.take(0).len() == 0);
        assert(t2.inner@.take(0).len() == 0);
    }
}

/// Whether a tree nests depends only on its listing.
proof fn lemma_same_listing_same_nesting(t1: Cst, t2: Cst)
    requires
        flatten(t1) == flatten(t2),
    ensures
        spans_nested(t1) == spans_nested(t2),
{
    lemma_same_listing_node(t1, t2);
    lemma_same_listing_prefix_nesting(t1, t2, t1.inner.len() as int);
    assert(t1.inner@.take(t1.inner.len() as int) == t1.inner@);
    assert(t2.inner@.take(t2.inner.len() as int) == t2.inner@);
}

/// Why a text yields no syntax tree.
#[derive(Debug, PartialEq, Eq)]
pub enum ParseError {
    /// The text does not follow the grammar: where the parser stopped and what it expected.
    Syntax { linecol: LineCol, expect: Vec<String> },
    /// The parser's nodes do not form a tree that fits the text and whose spans nest.
    Malformed,
}

/// The tree listed by `nodes` fits the text whose encoding is `bytes`, and its spans nest.
pub open spec fn listing_fits(nodes: Seq<FlatNode>, bytes: Seq<u8>) -> bool {
    exists|t: Cst| lists(nodes, t) && tree_fits(bytes, t) && spans_nested(t)
}

impl CstText {
    /// Parses `text` as a SATySFi document or package.
    pub fn parse(text: &str) -> (r: Result<CstText, ParseError>)
        ensures
            match satysfi_parse_program(text@) {
                Ok(nodes) => match r {
                    Ok(ct) => ct.source() == text@ && lists(nodes, ct.tree()) && ct.well_formed(),
                    Err(e) => e == ParseError::Malformed && !listing_fits(
                        nodes,
                        vstd::utf8::encode_utf8(text@),
                    ),
                },
                Err((lc, expected)) => r matches Err(ParseError::Syntax { linecol, expect }) && linecol
                    == lc && expect@.map_values(|s: String| s@).to_set() == expected
                    && expect@.map_values(|s: String| s@).no_duplicates(),
            },
    {
        match parse_program_nodes(text) {
            Ok(nodes) => match decode(&nodes) {
                Some(t) => {
                    let ghost t0 = t;
                    match CstText::new(text.to_owned(), t) {
                        Some(ct) => Ok(ct),
                        None => {
                            proof {
                                assert forall|t2: Cst|
                                    !(lists(nodes@, t2) && tree_fits(
                                        vstd::utf8::encode_utf8(text@),
                                        t2,
                                    ) && spans_nested(t2)) by {
                                    if lists(nodes@, t2) {
                                        lemma_same_listing_same_fit(
                                            t0,
                                            t2,
                                            vstd::utf8::encode_utf8(text@),
                                        );
                                        lemma_same_listing_same_nesting(t0, t2);
                                    }
                                }
                            }
                            Err(ParseError::Malformed)
                        },
                    }
                },
                None => Err(ParseError::Malformed),
            },
            Err((linecol, expect)) => Err(ParseError::Syntax { linecol, expect }),
        }
    }
}

} // verus!
