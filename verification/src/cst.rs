use vstd::prelude::*;
use vstd::string::StringSliceAdditionalSpecFns;
use vstd::utf8::*;

use crate::rule::Rule;

verus! {

/// A range of byte positions `start .. end` in a source text.
#[derive(Debug, Clone, Copy, PartialEq, Eq, Hash, Structural)]
pub struct Span {
    pub start: usize,
    pub end: usize,
}

impl Span {
    pub open spec fn spec_includes(self, pos: int) -> bool {
        self.start <= pos < self.end
    }

    pub open spec fn spec_contains(self, other: Span) -> bool {
        self.start <= other.start && other.end <= self.end
    }

    /// Whether the span holds the position `pos`.
    pub fn includes(&self, pos: usize) -> (b: bool)
        ensures
            b == self.spec_includes(pos as int),
    {
        self.start <= pos && pos < self.end
    }

    /// Whether the span holds the whole of `other`.
    pub fn contains(&self, other: &Span) -> (b: bool)
        ensures
            b == self.spec_contains(*other),
    {
        self.start <= other.start && other.end <= self.end
    }
}

/// A position in a text given by its line and column, both counted from zero.
#[derive(Debug, Clone, Copy, PartialEq, Eq, Hash, Structural)]
pub struct LineCol {
    pub line: usize,
    pub column: usize,
}

/// Concrete syntax tree: a rule, the span of text it covers and its children.
#[derive(Debug, PartialEq, Eq, Hash)]
pub struct Cst {
    pub rule: Rule,
    pub span: Span,
    pub inner: Vec<Cst>,
}

/// The nodes of the forest `ts` whose rule is `rule`, in pre-order: the roots of its trees and
/// everything below them, each node before its descendants.
pub open spec fn pickup_forest(ts: Seq<Cst>, rule: Rule) -> Seq<Cst>
    decreases ts,
{
    if ts.len() == 0 {
        seq![]
    } else {
        let last = ts.last();
        let own: Seq<Cst> = if last.rule == rule {
            seq![last]
        } else {
            seq![]
        };
        pickup_forest(ts.drop_last(), rule) + own + pickup_forest(last.inner@, rule)
    }
}

/// Every node picked up for a rule has that rule.
pub proof fn lemma_pickup_rule(ts: Seq<Cst>, rule: Rule)
    ensures
        forall|i: int|
            0 <= i < pickup_forest(ts, rule).len() ==> (#[trigger] pickup_forest(ts, rule)[i]).rule
                == rule,
    decreases ts,
{
    if ts.len() > 0 {
        let last = ts.last();
        lemma_pickup_rule(ts.drop_last(), rule);
        lemma_pickup_rule(last.inner@, rule);
        let a = pickup_forest(ts.drop_last(), rule);
        let own: Seq<Cst> = if last.rule == rule {
            seq![last]
        } else {
            seq![]
        };
        let b = pickup_forest(last.inner@, rule);
        assert forall|i: int| 0 <= i < pickup_forest(ts, rule).len() implies (#[trigger] pickup_forest(
            ts,
            rule,
        )[i]).rule == rule by {
            if i < a.len() {
                assert(pickup_forest(ts, rule)[i] == a[i]);
            } else if i < a.len() + own.len() {
                assert(pickup_forest(ts, rule)[i] == last);
            } else {
                assert(pickup_forest(ts, rule)[i] == b[i - a.len() - own.len()]);
            }
        }
    }
}

/// Index of the first tree of `ts` whose span includes `pos`.
pub open spec fn first_including(ts: Seq<Cst>, pos: int) -> Option<int>
    decreases ts.len(),
{
    if ts.len() == 0 {
        None
    } else if ts[0].span.spec_includes(pos) {
        Some(0)
    } else {
        match first_including(ts.drop_first(), pos) {
            Some(i) => Some(i + 1),
            None => None,
        }
    }
}

/// The first element of `s` whose span encloses `span` and differs from it.
pub open spec fn first_enclosing(s: Seq<Cst>, span: Span) -> Option<Cst>
    decreases s.len(),
{
    if s.len() == 0 {
        None
    } else if s[0].span.spec_contains(span) && s[0].span != span {
        Some(s[0])
    } else {
        first_enclosing(s.drop_first(), span)
    }
}

/// The index found is that of a tree including `pos` with none before it; when none is found,
/// no tree includes `pos`.
pub proof fn lemma_first_including(ts: Seq<Cst>, pos: int)
    ensures
        match first_including(ts, pos) {
            Some(i) => 0 <= i < ts.len() && ts[i].span.spec_includes(pos) && forall|j: int|
                0 <= j < i ==> !(#[trigger] ts[j]).span.spec_includes(pos),
            None => forall|j: int| 0 <= j < ts.len() ==> !(#[trigger] ts[j]).span.spec_includes(pos),
        },
    decreases ts.len(),
{
    if ts.len() > 0 {
        lemma_first_including(ts.drop_first(), pos);
        if !ts[0].span.spec_includes(pos) {
            assert forall|j: int| 1 <= j < ts.len() implies ts[j] == ts.drop_first()[j - 1] by {}
        }
    }
}

proof fn lemma_first_including_at(ts: Seq<Cst>, pos: int, i: int)
    requires
        0 <= i < ts.len(),
        ts[i].span.spec_includes(pos),
        forall|j: int| 0 <= j < i ==> !(#[trigger] ts[j]).span.spec_includes(pos),
    ensures
        first_including(ts, pos) == Some(i),
    decreases ts.len(),
{
    lemma_first_including(ts, pos);
    if i > 0 {
        assert(!ts[0].span.spec_includes(pos));
        assert forall|j: int| 0 <= j < i - 1 implies !(#[trigger] ts.drop_first()[j]).span.spec_includes(
            pos,
        ) by {
            assert(ts.drop_first()[j] == ts[j + 1]);
        }
        lemma_first_including_at(ts.drop_first(), pos, i - 1);
    }
}

impl Cst {
    /// The nodes strictly below `self` whose rule is `rule`, in pre-order.
    pub open spec fn spec_pickup(self, rule: Rule) -> Seq<Cst> {
        pickup_forest(self.inner@, rule)
    }

    /// The child chosen when descending towards `pos`: the first child whose span includes it.
    pub open spec fn spec_choose(self, pos: int) -> Option<Cst> {
        match first_including(self.inner@, pos) {
            Some(i) => Some(self.inner@[i]),
            None => None,
        }
    }

    /// The nodes met on the way down towards `pos`, from the deepest one up to `self`.
    /// The chosen child at each level appears twice: once as the top of its own descent
    /// (when its span includes `pos`, which it does) and once when its parent adds it.
    pub open spec fn spec_dig(self, pos: int) -> Seq<Cst>
        decreases self,
    {
        let below: Seq<Cst> = match first_including(self.inner@, pos) {
            Some(i) => if 0 <= i < self.inner@.len() {
                self.inner@[i].spec_dig(pos).push(self.inner@[i])
            } else {
                seq![]
            },
            None => seq![],
        };
        if self.span.spec_includes(pos) {
            below.push(self)
        } else {
            below
        }
    }

    /// The smallest node met while digging towards the start of `child` whose span encloses
    /// the span of `child` and differs from it.
    pub open spec fn spec_get_parent(self, child: Cst) -> Option<Cst> {
        first_enclosing(self.spec_dig(child.span.start as int), child.span)
    }

    /// A node with the given rule, range and children.
    pub fn new(rule: Rule, range: (usize, usize), inner: Vec<Cst>) -> (c: Cst)
        ensures
            c.rule == rule,
            c.span == (Span { start: range.0, end: range.1 }),
            c.inner == inner,
    {
        Cst { rule, span: Span { start: range.0, end: range.1 }, inner }
    }

    /// All nodes below `self` whose rule is `rule`, in pre-order.
    pub fn pickup(&self, rule: Rule) -> (res: Vec<&Cst>)
        ensures
            res@.map_values(|c: &Cst| *c) == self.spec_pickup(rule),
        decreases self,
    {
        let mut vec: Vec<&Cst> = Vec::new();
        let n = self.inner.len();
        for i in 0..n
            invariant
                n == self.inner.len(),
                vec@.map_values(|c: &Cst| *c) == pickup_forest(self.inner@.take(i as int), rule),
        {
            let cst = &self.inner[i];
            assert(self.inner@.take(i + 1).drop_last() == self.inner@.take(i as int));
            if cst.rule == rule {
                vec.push(cst);
            }
            proof {
                assert(decreases_to!(self => self.inner@[i as int]));
            }
            let v = cst.pickup(rule);
            let ghost before = vec@;
            let mut j: usize = 0;
            while j < v.len()
                invariant
                    j <= v.len(),
                    vec@ == before + v@.take(j as int),
                decreases v.len() - j,
            {
                vec.push(v[j]);
                j += 1;
                assert(v@.take(j as int).drop_last() == v@.take(j - 1));
            }
            assert(v@.take(v.len() as int) == v@);
            assert(vec@.map_values(|c: &Cst| *c) == before.map_values(|c: &Cst| *c) + v@.map_values(
                |c: &Cst| *c,
            ));
        }
        assert(self.inner@.take(n as int) == self.inner@);
        vec
    }

    /// The first child of `self` whose span includes `pos`.
    pub fn choose_child(&self, pos: usize) -> (res: Option<&Cst>)
        ensures
            match res {
                Some(c) => self.spec_choose(pos as int) == Some(*c),
                None => self.spec_choose(pos as int) is None,
            },
    {
        let n = self.inner.len();
        for i in 0..n
            invariant
                n == self.inner.len(),
                forall|j: int| 0 <= j < i ==> !(#[trigger] self.inner@[j]).span.spec_includes(pos as int),
        {
            if self.inner[i].span.includes(pos) {
                proof {
                    lemma_first_including_at(self.inner@, pos as int, i as int);
                }
                return Some(&self.inner[i]);
            }
        }
        proof {
            lemma_first_including(self.inner@, pos as int);
        }
        None
    }

    /// The nodes holding `pos`, found by descending from `self`, deepest first.
    pub fn dig(&self, pos: usize) -> (res: Vec<&Cst>)
        ensures
            res@.map_values(|c: &Cst| *c) == self.spec_dig(pos as int),
        decreases self,
    {
        proof {
            lemma_first_including(self.inner@, pos as int);
        }
        let child = self.choose_child(pos);
        let mut v: Vec<&Cst> = match child {
            Some(child) => {
                proof {
                    let i = first_including(self.inner@, pos as int)->0;
                    assert(decreases_to!(self => self.inner@[i]));
                }
                let mut v = child.dig(pos);
                let ghost before = v@;
                v.push(child);
                assert(v@.map_values(|c: &Cst| *c) == before.map_values(|c: &Cst| *c).push(*child));
                v
            },
            None => Vec::new(),
        };
        if self.span.includes(pos) {
            let ghost before = v@;
            v.push(self);
            assert(v@.map_values(|c: &Cst| *c) == before.map_values(|c: &Cst| *c).push(*self));
        }
        v
    }

    /// The smallest node above `child`, among those met while digging from `self` towards the
    /// start of `child`, whose span encloses that of `child` and is not equal to it.
    pub fn get_parent(&self, child: &Cst) -> (res: Option<&Cst>)
        ensures
            match res {
                Some(p) => self.spec_get_parent(*child) == Some(*p),
                None => self.spec_get_parent(*child) is None,
            },
    {
        let child_pos = child.span.start;
        let candidates = self.dig(child_pos);
        let ghost s = candidates@.map_values(|c: &Cst| *c);
        let n = candidates.len();
        assert(s.skip(0) == s);
        for i in 0..n
            invariant
                n == candidates.len(),
                s == candidates@.map_values(|c: &Cst| *c),
                s == self.spec_dig(child.span.start as int),
                first_enclosing(s, child.span) == first_enclosing(s.skip(i as int), child.span),
        {
            let cst = candidates[i];
            assert(s.skip(i as int)[0] == *cst);
            assert(s.skip(i as int).drop_first() == s.skip(i + 1));
            if cst.span.contains(&child.span) && cst.span != child.span {
                return Some(cst);
            }
        }
        assert(s.skip(n as int).len() == 0);
        None
    }
}


/// Every node met while digging towards `pos` holds `pos`.
pub proof fn lemma_dig_includes(t: Cst, pos: int)
    ensures
        forall|i: int|
            0 <= i < t.spec_dig(pos).len() ==> (#[trigger] t.spec_dig(pos)[i]).span.spec_includes(
                pos,
            ),
    decreases t,
{
    lemma_first_including(t.inner@, pos);
    if let Some(k) = first_including(t.inner@, pos) {
        let c = t.inner@[k];
        lemma_dig_includes(c, pos);
    }
}

/// The children that name what a node defines (see [`required_children`]) cover some text:
/// a name or a pattern is never empty.
pub open spec fn has_named_children(n: Cst) -> bool {
    &&& (required_children(n.rule) >= 1 && n.inner.len() >= 1) ==> n.inner@[0].span.start
        < n.inner@[0].span.end
    &&& (required_children(n.rule) >= 2 && n.inner.len() >= 2) ==> n.inner@[1].span.start
        < n.inner@[1].span.end
}

/// The spans of the trees of `ts`, and of all the nodes below them, lie within `outer`, each
/// within its parent's, and the names they define are not empty.
pub open spec fn forest_nested(ts: Seq<Cst>, outer: Span) -> bool
    decreases ts,
{
    if ts.len() == 0 {
        true
    } else {
        let last = ts.last();
        forest_nested(ts.drop_last(), outer) && outer.spec_contains(last.span)
            && has_named_children(last) && forest_nested(last.inner@, last.span)
    }
}

/// The span of every child lies within the span of its parent, all through the tree, and no
/// defined name is empty.
pub open spec fn spans_nested(t: Cst) -> bool {
    forest_nested(t.inner@, t.span)
}

pub proof fn lemma_forest_nested_index(ts: Seq<Cst>, outer: Span, i: int)
    requires
        forest_nested(ts, outer),
        0 <= i < ts.len(),
    ensures
        outer.spec_contains(ts[i].span),
        has_named_children(ts[i]),
        spans_nested(ts[i]),
    decreases ts.len(),
{
    if i < ts.len() - 1 {
        lemma_forest_nested_index(ts.drop_last(), outer, i);
    }
}

/// Every node picked up from a nested forest lies within `outer`, and the tree below it nests.
pub proof fn lemma_pickup_nested(ts: Seq<Cst>, outer: Span, rule: Rule)
    requires
        forest_nested(ts, outer),
    ensures
        forall|i: int|
            0 <= i < pickup_forest(ts, rule).len() ==> {
                let p = #[trigger] pickup_forest(ts, rule)[i];
                &&& outer.spec_contains(p.span)
                &&& has_named_children(p)
                &&& spans_nested(p)
            },
    decreases ts,
{
    if ts.len() > 0 {
        let last = ts.last();
        lemma_pickup_nested(ts.drop_last(), outer, rule);
        lemma_pickup_nested(last.inner@, last.span, rule);
        lemma_forest_nested_index(ts, outer, ts.len() - 1);
        let a = pickup_forest(ts.drop_last(), rule);
        let own: Seq<Cst> = if last.rule == rule {
            seq![last]
        } else {
            seq![]
        };
        let b = pickup_forest(last.inner@, rule);
        assert forall|i: int| 0 <= i < pickup_forest(ts, rule).len() implies {
            let p = #[trigger] pickup_forest(ts, rule)[i];
            &&& outer.spec_contains(p.span)
            &&& has_named_children(p)
            &&& spans_nested(p)
        } by {
            if i < a.len() {
                assert(pickup_forest(ts, rule)[i] == a[i]);
            } else if i < a.len() + own.len() {
                assert(pickup_forest(ts, rule)[i] == last);
            } else {
                assert(pickup_forest(ts, rule)[i] == b[i - a.len() - own.len()]);
            }
        }
    }
}

/// Where spans nest, digging meets the nodes from the smallest span up: each span lies within
/// the next one.
pub proof fn lemma_dig_smallest_first(t: Cst, pos: int)
    requires
        spans_nested(t),
    ensures
        forall|i: int|
            0 <= i < t.spec_dig(pos).len() - 1 ==> (#[trigger] t.spec_dig(pos)[i + 1]).span.spec_contains(
                t.spec_dig(pos)[i].span,
            ),
    decreases t,
{
    lemma_first_including(t.inner@, pos);
    let d = t.spec_dig(pos);
    if let Some(k) = first_including(t.inner@, pos) {
        let c = t.inner@[k];
        lemma_forest_nested_index(t.inner@, t.span, k);
        lemma_dig_smallest_first(c, pos);
        let dc = c.spec_dig(pos);
        let below = dc.push(c);
        assert(dc.len() > 0 && dc.last() == c);
        assert forall|i: int| 0 <= i < d.len() - 1 implies (#[trigger] d[i + 1]).span.spec_contains(
            d[i].span,
        ) by {
            if i + 1 < dc.len() {
                assert(d[i] == dc[i] && d[i + 1] == dc[i + 1]);
            } else if i + 1 == dc.len() {
                assert(d[i] == c && d[i + 1] == c);
            } else {
                assert(d[i] == c && d[i + 1] == t);
            }
        }
    }
}

proof fn lemma_first_enclosing(s: Seq<Cst>, span: Span)
    ensures
        first_enclosing(s, span) matches Some(p) ==> p.span.spec_contains(span) && p.span != span
            && s.contains(p),
    decreases s.len(),
{
    if s.len() > 0 && !(s[0].span.spec_contains(span) && s[0].span != span) {
        lemma_first_enclosing(s.drop_first(), span);
        if let Some(p) = first_enclosing(s.drop_first(), span) {
            let j = choose|j: int| 0 <= j < s.drop_first().len() && s.drop_first()[j] == p;
            assert(s[j + 1] == p);
        }
    }
}

/// The parent found for a node encloses it: its span holds the node's span and is not equal
/// to it, and it is among the nodes met while digging towards the node's start.
pub proof fn lemma_get_parent_encloses(t: Cst, child: Cst)
    ensures
        t.spec_get_parent(child) matches Some(p) ==> p.span.spec_contains(child.span) && p.span
            != child.span && t.spec_dig(child.span.start as int).contains(p),
{
    lemma_first_enclosing(t.spec_dig(child.span.start as int), child.span);
}


/// Where spans nest, each node met while digging lies within every node met after it.
pub proof fn lemma_dig_chain(t: Cst, pos: int)
    requires
        spans_nested(t),
    ensures
        forall|i: int, j: int|
            0 <= i < j < t.spec_dig(pos).len() ==> (#[trigger] t.spec_dig(pos)[j]).span.spec_contains(
                (#[trigger] t.spec_dig(pos)[i]).span,
            ),
{
    lemma_dig_smallest_first(t, pos);
    let d = t.spec_dig(pos);
    assert forall|i: int, j: int| 0 <= i < j < d.len() implies (#[trigger] d[j]).span.spec_contains(
        (#[trigger] d[i]).span,
    ) by {
        lemma_chain_step(d, i, j);
    }
}

proof fn lemma_chain_step(d: Seq<Cst>, i: int, j: int)
    requires
        0 <= i < j < d.len(),
        forall|k: int| 0 <= k < d.len() - 1 ==> (#[trigger] d[k + 1]).span.spec_contains(d[k].span),
    ensures
        d[j].span.spec_contains(d[i].span),
    decreases j - i,
{
    assert(d[i + 1].span.spec_contains(d[i].span));
    if i + 1 < j {
        lemma_chain_step(d, i + 1, j);
    }
}

proof fn lemma_first_enclosing_index(s: Seq<Cst>, span: Span)
    ensures
        first_enclosing(s, span) matches Some(p) ==> exists|k: int|
            0 <= k < s.len() && s[k] == p && forall|j: int|
                0 <= j < k ==> !((#[trigger] s[j]).span.spec_contains(span) && s[j].span != span),
    decreases s.len(),
{
    if s.len() > 0 && !(s[0].span.spec_contains(span) && s[0].span != span) {
        lemma_first_enclosing_index(s.drop_first(), span);
        if let Some(p) = first_enclosing(s.drop_first(), span) {
            let k = choose|k: int|
                0 <= k < s.drop_first().len() && s.drop_first()[k] == p && forall|j: int|
                    0 <= j < k ==> !((#[trigger] s.drop_first()[j]).span.spec_contains(span)
                        && s.drop_first()[j].span != span);
            assert forall|j: int| 0 <= j < k + 1 implies !((#[trigger] s[j]).span.spec_contains(span)
                && s[j].span != span) by {
                if j > 0 {
                    assert(s[j] == s.drop_first()[j - 1]);
                }
            }
            assert(s[k + 1] == p);
        }
    } else if s.len() > 0 {
        assert(s[0] == first_enclosing(s, span)->0);
    }
}

/// Where spans nest, the parent found for a node is the smallest of the nodes met while digging
/// towards the node's start that enclose it: it lies within each of the others.
pub proof fn lemma_get_parent_smallest(t: Cst, child: Cst, other: Cst)
    requires
        spans_nested(t),
        t.spec_dig(child.span.start as int).contains(other),
        other.span.spec_contains(child.span),
        other.span != child.span,
    ensures
        t.spec_get_parent(child) matches Some(p) && other.span.spec_contains(p.span),
{
    let d = t.spec_dig(child.span.start as int);
    lemma_first_enclosing_index(d, child.span);
    lemma_dig_chain(t, child.span.start as int);
    let j = choose|j: int| 0 <= j < d.len() && d[j] == other;
    if first_enclosing(d, child.span) is None {
        lemma_first_enclosing_none(d, child.span, j);
    }
    let p = first_enclosing(d, child.span)->0;
    let k = choose|k: int|
        0 <= k < d.len() && d[k] == p && forall|i: int|
            0 <= i < k ==> !((#[trigger] d[i]).span.spec_contains(child.span) && d[i].span
                != child.span);
    if j < k {
        assert(!(d[j].span.spec_contains(child.span) && d[j].span != child.span));
    } else if k < j {
        assert(d[j].span.spec_contains(d[k].span));
    }
}

proof fn lemma_first_enclosing_none(s: Seq<Cst>, span: Span, j: int)
    requires
        0 <= j < s.len(),
        s[j].span.spec_contains(span),
        s[j].span != span,
    ensures
        first_enclosing(s, span) is Some,
    decreases s.len(),
{
    if j > 0 && !(s[0].span.spec_contains(span) && s[0].span != span) {
        assert(s.drop_first()[j - 1] == s[j]);
        lemma_first_enclosing_none(s.drop_first(), span, j - 1);
    }
}

/// What a span must satisfy in the text whose UTF-8 encoding is `bytes`: it lies within the
/// text and both of its ends fall on character boundaries (the start is checked inside the
/// prefix that ends at the span's end, which is how the text is cut).
pub open spec fn span_fits(bytes: Seq<u8>, s: Span) -> bool {
    &&& s.start <= s.end <= bytes.len()
    &&& is_char_boundary(bytes, s.end as int)
    &&& is_char_boundary(bytes.subrange(0, s.end as int), s.start as int)
}

/// The children that the statements read by the extraction always have: a `let` statement, a
/// math command definition and an inline or block command definition without context start
/// with the defined pattern or name, those with a context have it in second place, a variant
/// starts with its name, and a header holds its package name.
pub open spec fn required_children(rule: Rule) -> nat {
    match rule {
        Rule::let_stmt | Rule::let_inline_stmt_noctx | Rule::let_block_stmt_noctx
        | Rule::header_require | Rule::header_import | Rule::let_math_stmt | Rule::type_variant => 1,
        Rule::let_inline_stmt_ctx | Rule::let_block_stmt_ctx => 2,
        _ => 0,
    }
}

pub open spec fn has_required_children(n: Cst) -> bool {
    n.inner.len() >= required_children(n.rule)
}

pub open spec fn node_fits(bytes: Seq<u8>, n: Cst) -> bool {
    span_fits(bytes, n.span) && has_required_children(n)
}

/// Every node of the forest `ts` fits the text whose encoding is `bytes`.
pub open spec fn forest_fits(bytes: Seq<u8>, ts: Seq<Cst>) -> bool
    decreases ts,
{
    if ts.len() == 0 {
        true
    } else {
        forest_fits(bytes, ts.drop_last()) && node_fits(bytes, ts.last()) && forest_fits(
            bytes,
            ts.last().inner@,
        )
    }
}

pub open spec fn tree_fits(bytes: Seq<u8>, t: Cst) -> bool {
    node_fits(bytes, t) && forest_fits(bytes, t.inner@)
}

pub proof fn lemma_forest_fits_index(bytes: Seq<u8>, ts: Seq<Cst>, i: int)
    requires
        forest_fits(bytes, ts),
        0 <= i < ts.len(),
    ensures
        tree_fits(bytes, ts[i]),
    decreases ts.len(),
{
    if i < ts.len() - 1 {
        lemma_forest_fits_index(bytes, ts.drop_last(), i);
    }
}

/// Every node picked up below a fitting forest fits, with all of its descendants.
pub proof fn lemma_pickup_fits(bytes: Seq<u8>, ts: Seq<Cst>, rule: Rule)
    requires
        forest_fits(bytes, ts),
    ensures
        forall|i: int|
            0 <= i < pickup_forest(ts, rule).len() ==> tree_fits(
                bytes,
                #[trigger] pickup_forest(ts, rule)[i],
            ),
    decreases ts,
{
    if ts.len() > 0 {
        let last = ts.last();
        lemma_pickup_fits(bytes, ts.drop_last(), rule);
        lemma_pickup_fits(bytes, last.inner@, rule);
        let a = pickup_forest(ts.drop_last(), rule);
        let own: Seq<Cst> = if last.rule == rule {
            seq![last]
        } else {
            seq![]
        };
        let b = pickup_forest(last.inner@, rule);
        assert forall|i: int| 0 <= i < pickup_forest(ts, rule).len() implies tree_fits(
            bytes,
            #[trigger] pickup_forest(ts, rule)[i],
        ) by {
            if i < a.len() {
                assert(pickup_forest(ts, rule)[i] == a[i]);
            } else if i < a.len() + own.len() {
                assert(pickup_forest(ts, rule)[i] == last);
            } else {
                assert(pickup_forest(ts, rule)[i] == b[i - a.len() - own.len()]);
            }
        }
    }
}

/// Checks that `n` fits the text `s` (see [`node_fits`]).
fn check_node(s: &str, n: &Cst) -> (b: bool)
    ensures
        b == node_fits(s.spec_bytes(), *n),
{
    let start = n.span.start;
    let end = n.span.end;
    if start > end || !s.is_char_boundary(end) {
        return false;
    }
    proof {
        broadcast use encode_utf8_valid_utf8;
    }
    let (left, _) = s.split_at(end);
    if !left.is_char_boundary(start) {
        return false;
    }
    match n.rule {
        Rule::let_stmt | Rule::let_inline_stmt_noctx | Rule::let_block_stmt_noctx
        | Rule::header_require | Rule::header_import | Rule::let_math_stmt | Rule::type_variant => n.inner.len()
            >= 1,
        Rule::let_inline_stmt_ctx | Rule::let_block_stmt_ctx => n.inner.len() >= 2,
        _ => true,
    }
}

/// Checks that every node of the tree `t` fits the text `s`.
fn check_tree(s: &str, t: &Cst) -> (b: bool)
    ensures
        b == tree_fits(s.spec_bytes(), *t),
    decreases t,
{
    if !check_node(s, t) {
        return false;
    }
    let n = t.inner.len();
    for i in 0..n
        invariant
            n == t.inner.len(),
            forest_fits(s.spec_bytes(), t.inner@.take(i as int)),
    {
        assert(t.inner@.take(i + 1).drop_last() == t.inner@.take(i as int));
        proof {
            assert(decreases_to!(t => t.inner@[i as int]));
        }
        if !check_tree(s, &t.inner[i]) {
            proof {
                if forest_fits(s.spec_bytes(), t.inner@) {
                    lemma_forest_fits_index(s.spec_bytes(), t.inner@, i as int);
                }
            }
            return false;
        }
    }
    assert(t.inner@.take(n as int) == t.inner@);
    true
}

/// Checks that the names that `n` defines are not empty (see [`has_named_children`]).
fn check_named(n: &Cst) -> (b: bool)
    ensures
        b == has_named_children(*n),
{
    let k: usize = match n.rule {
        Rule::let_stmt | Rule::let_inline_stmt_noctx | Rule::let_block_stmt_noctx
        | Rule::header_require | Rule::header_import | Rule::let_math_stmt | Rule::type_variant => 1,
        Rule::let_inline_stmt_ctx | Rule::let_block_stmt_ctx => 2,
        _ => 0,
    };
    assert(k == required_children(n.rule));
    if k >= 1 && n.inner.len() >= 1 && n.inner[0].span.start >= n.inner[0].span.end {
        return false;
    }
    if k >= 2 && n.inner.len() >= 2 && n.inner[1].span.start >= n.inner[1].span.end {
        return false;
    }
    true
}

/// Checks that the spans of the tree `t` nest (see [`spans_nested`]).
fn check_nested(t: &Cst) -> (b: bool)
    ensures
        b == spans_nested(*t),
    decreases t,
{
    let n = t.inner.len();
    for i in 0..n
        invariant
            n == t.inner.len(),
            forest_nested(t.inner@.take(i as int), t.span),
    {
        assert(t.inner@.take(i + 1).drop_last() == t.inner@.take(i as int));
        assert(t.inner@.take(i + 1).last() == t.inner@[i as int]);
        let c = &t.inner[i];
        proof {
            assert(decreases_to!(t => t.inner@[i as int]));
        }
        if !(t.span.contains(&c.span) && check_named(c) && check_nested(c)) {
            proof {
                if forest_nested(t.inner@, t.span) {
                    lemma_forest_nested_index(t.inner@, t.span, i as int);
                }
            }
            return false;
        }
    }
    assert(t.inner@.take(n as int) == t.inner@);
    true
}

/// A syntax tree together with the text it was parsed from. Every node of the tree fits the
/// text (see [`tree_fits`]), so that the text of any node can be cut out of it, and the spans
/// nest (see [`spans_nested`]).
#[derive(Debug)]
pub struct CstText {
    text: String,
    cst: Cst,
}

impl CstText {
    pub closed spec fn source(self) -> Seq<char> {
        self.text@
    }

    pub closed spec fn tree(self) -> Cst {
        self.cst
    }

    /// The UTF-8 encoding of the text, in which spans are positions.
    pub open spec fn bytes(self) -> Seq<u8> {
        encode_utf8(self.source())
    }

    pub open spec fn well_formed(self) -> bool {
        tree_fits(self.bytes(), self.tree()) && spans_nested(self.tree())
    }

    #[verifier::type_invariant]
    spec fn fits(self) -> bool {
        tree_fits(encode_utf8(self.text@), self.cst) && spans_nested(self.cst)
    }

    /// The characters that the span `span` covers.
    pub open spec fn spec_text(self, span: Span) -> Seq<char> {
        decode_utf8(self.bytes().subrange(span.start as int, span.end as int))
    }

    /// Pairs a text with a tree, if every node of the tree fits the text and the spans nest.
    pub fn new(text: String, cst: Cst) -> (r: Option<CstText>)
        ensures
            r is Some <==> tree_fits(encode_utf8(text@), cst) && spans_nested(cst),
            r matches Some(ct) ==> ct.source() == text@ && ct.tree() == cst,
    {
        let ok = check_tree(text.as_str(), &cst) && check_nested(&cst);
        if ok {
            Some(CstText { text, cst })
        } else {
            None
        }
    }

    /// The syntax tree.
    pub fn cst(&self) -> (r: &Cst)
        ensures
            *r == self.tree(),
            self.well_formed(),
    {
        proof {
            use_type_invariant(self);
        }
        &self.cst
    }

    /// The text.
    pub fn text(&self) -> (r: &str)
        ensures
            r@ == self.source(),
    {
        self.text.as_str()
    }

    /// The text that `cst` covers.
    pub fn get_text(&self, cst: &Cst) -> (r: &str)
        requires
            span_fits(self.bytes(), cst.span),
        ensures
            r@ == self.spec_text(cst.span),
    {
        proof {
            broadcast use encode_utf8_valid_utf8;
        }
        let s = self.text.as_str();
        let (left, _) = s.split_at(cst.span.end);
        let (_, mid) = left.split_at(cst.span.start);
        proof {
            assert(mid.spec_bytes() == self.bytes().subrange(
                cst.span.start as int,
                cst.span.end as int,
            ));
            encode_utf8_decode_utf8(mid@);
        }
        mid
    }
}

} // verus!
