use vstd::prelude::*;

use crate::charclass::{class_matches, class_spec, compile_class, ClassSpec, ClassV};

verus! {

/// The reasons compilation can fail: the process is not running under the "C"
/// locale, or the pattern ends inside an unterminated construct.
#[derive(Debug, PartialEq, Eq)]
pub enum EngineError {
    LocaleError,
    ParseError,
}

/// Where a match was found: a start offset and the number of matched bytes.
#[derive(Debug, PartialEq, Eq, Clone, Copy)]
pub struct MatchSpan {
    pub start: usize,
    pub length: usize,
}

/// One unit of the evaluation tree.
#[derive(Debug, PartialEq, Eq)]
pub enum Node {
    Literal { bytes: Vec<u8> },
    Wildcard,
    CharClass { class: ClassSpec },
    Optional { child: Box<Node> },
    Repeat { child: Box<Node>, min_one: bool },
    Interval { child: Box<Node>, at_least: usize, at_most: usize },
}

/// The mathematical content of a matcher node.
pub enum NodeV {
    Literal { bytes: Seq<u8> },
    Wildcard,
    CharClass { class: ClassV },
    Optional { child: Box<NodeV> },
    Repeat { child: Box<NodeV>, min_one: bool },
    Interval { child: Box<NodeV>, at_least: usize, at_most: usize },
}

pub open spec fn node_view(n: Node) -> NodeV
    decreases n,
{
    match n {
        Node::Literal { bytes } => NodeV::Literal { bytes: bytes@ },
        Node::Wildcard => NodeV::Wildcard,
        Node::CharClass { class } => NodeV::CharClass { class: class@ },
        Node::Optional { child } => NodeV::Optional { child: Box::new(node_view(*child)) },
        Node::Repeat { child, min_one } => NodeV::Repeat {
            child: Box::new(node_view(*child)),
            min_one,
        },
        Node::Interval { child, at_least, at_most } => NodeV::Interval {
            child: Box::new(node_view(*child)),
            at_least,
            at_most,
        },
    }
}

impl View for Node {
    type V = NodeV;

    open spec fn view(&self) -> NodeV {
        node_view(*self)
    }
}

/// Height of a node tree, the measure for recursion over nodes.
pub open spec fn height(n: NodeV) -> nat
    decreases n,
{
    match n {
        NodeV::Optional { child } => height(*child) + 1,
        NodeV::Repeat { child, .. } => height(*child) + 1,
        NodeV::Interval { child, .. } => height(*child) + 1,
        _ => 0,
    }
}

/// Bytes remaining at offset `s`, never negative.
pub open spec fn rem(data: Seq<u8>, s: int) -> int {
    if s <= data.len() {
        data.len() - s
    } else {
        0
    }
}

/// What a matcher node yields when anchored at `start`: the number of matched
/// bytes, or `None` when no match begins there.
pub open spec fn node_eval(n: NodeV, data: Seq<u8>, start: int) -> Option<int>
    decreases 2 * height(n), 0int,
{
    match n {
        NodeV::Literal { bytes } => {
            if bytes.len() == 0 {
                Some(0int)
            } else if 0 <= start && start + bytes.len() <= data.len() && data.subrange(
                start,
                start + bytes.len(),
            ) == bytes {
                Some(bytes.len() as int)
            } else {
                None
            }
        },
        NodeV::Wildcard => {
            if 0 <= start < data.len() {
                Some(1int)
            } else {
                None
            }
        },
        NodeV::CharClass { class } => {
            if 0 <= start < data.len() && class_matches(class, data[start]) {
                Some(1int)
            } else {
                None
            }
        },
        NodeV::Optional { child } => {
            match node_eval(*child, data, start) {
                Some(k) => Some(k),
                None => Some(0int),
            }
        },
        NodeV::Repeat { child, min_one } => {
            if !min_one {
                Some(star_eval(*child, data, start))
            } else {
                match node_eval(*child, data, start) {
                    None => None,
                    Some(k) => Some(k + star_eval(*child, data, start + k)),
                }
            }
        },
        NodeV::Interval { child, at_least, at_most } => {
            match forced_eval(*child, data, start, at_least as int) {
                None => None,
                Some(k) => {
                    let budget = if at_most >= at_least {
                        at_most - at_least
                    } else {
                        0
                    };
                    Some(k + bounded_eval(*child, data, start + k, budget))
                },
            }
        },
    }
}

/// Greedy zero-or-more repetition of `n` from `start`: total bytes consumed
/// before the first failing or zero-length attempt, or before the end of the
/// subject.
pub open spec fn star_eval(n: NodeV, data: Seq<u8>, start: int) -> int
    decreases 2 * height(n) + 1, rem(data, start),
{
    if start >= data.len() {
        0
    } else {
        match node_eval(n, data, start) {
            None => 0,
            Some(k) => {
                if k <= 0 {
                    0
                } else {
                    k + star_eval(n, data, start + k)
                }
            },
        }
    }
}

/// Exactly `need` successful repetitions of `n` from `start`, or `None` when
/// one of them fails.
pub open spec fn forced_eval(n: NodeV, data: Seq<u8>, start: int, need: int) -> Option<int>
    decreases 2 * height(n) + 1, need,
{
    if need <= 0 {
        Some(0int)
    } else {
        match node_eval(n, data, start) {
            None => None,
            Some(k) => {
                match forced_eval(n, data, start + k, need - 1) {
                    None => None,
                    Some(r) => Some(k + r),
                }
            },
        }
    }
}

/// At most `budget` further greedy repetitions of `n` from `start`, stopping
/// at the first failing or zero-length attempt or at the end of the subject.
pub open spec fn bounded_eval(n: NodeV, data: Seq<u8>, start: int, budget: int) -> int
    decreases 2 * height(n) + 1, budget,
{
    if budget <= 0 || start >= data.len() {
        0
    } else {
        match node_eval(n, data, start) {
            None => 0,
            Some(k) => {
                if k <= 0 {
                    0
                } else {
                    k + bounded_eval(n, data, start + k, budget - 1)
                }
            },
        }
    }
}

/// A successful match never reaches past the end of the subject, and consumes
/// nothing when anchored past it.
pub proof fn lemma_node_eval_bound(n: NodeV, data: Seq<u8>, start: int)
    requires
        0 <= start,
    ensures
        node_eval(n, data, start) is Some ==> {
            let k = node_eval(n, data, start)->Some_0;
            0 <= k && start + k <= vstd::math::max(start, data.len() as int)
        },
    decreases 2 * height(n), 0int,
{
    match n {
        NodeV::Optional { child } => {
            lemma_node_eval_bound(*child, data, start);
        },
        NodeV::Repeat { child, min_one } => {
            if !min_one {
                lemma_star_bound(*child, data, start);
            } else {
                lemma_node_eval_bound(*child, data, start);
                if node_eval(*child, data, start) is Some {
                    let k = node_eval(*child, data, start)->Some_0;
                    lemma_star_bound(*child, data, start + k);
                }
            }
        },
        NodeV::Interval { child, at_least, at_most } => {
            lemma_forced_bound(*child, data, start, at_least as int);
            if forced_eval(*child, data, start, at_least as int) is Some {
                let k = forced_eval(*child, data, start, at_least as int)->Some_0;
                let budget = if at_most >= at_least {
                    (at_most - at_least) as int
                } else {
                    0
                };
                lemma_bounded_bound(*child, data, start + k, budget);
            }
        },
        _ => {},
    }
}

pub proof fn lemma_star_bound(n: NodeV, data: Seq<u8>, start: int)
    requires
        0 <= start,
    ensures
        0 <= star_eval(n, data, start),
        start + star_eval(n, data, start) <= vstd::math::max(start, data.len() as int),
    decreases 2 * height(n) + 1, rem(data, start),
{
    if start < data.len() {
        lemma_node_eval_bound(n, data, start);
        match node_eval(n, data, start) {
            Some(k) => {
                if k > 0 {
                    lemma_star_bound(n, data, start + k);
                }
            },
            None => {},
        }
    }
}

pub proof fn lemma_forced_bound(n: NodeV, data: Seq<u8>, start: int, need: int)
    requires
        0 <= start,
    ensures
        forced_eval(n, data, start, need) is Some ==> {
            let k = forced_eval(n, data, start, need)->Some_0;
            0 <= k && start + k <= vstd::math::max(start, data.len() as int)
        },
    decreases 2 * height(n) + 1, if need >= 0 {
        need
    } else {
        0
    },
{
    if need > 0 {
        lemma_node_eval_bound(n, data, start);
        match node_eval(n, data, start) {
            Some(k) => {
                lemma_forced_bound(n, data, start + k, need - 1);
            },
            None => {},
        }
    }
}

pub proof fn lemma_bounded_bound(n: NodeV, data: Seq<u8>, start: int, budget: int)
    requires
        0 <= start,
    ensures
        0 <= bounded_eval(n, data, start, budget),
        start + bounded_eval(n, data, start, budget) <= vstd::math::max(start, data.len() as int),
    decreases 2 * height(n) + 1, if budget >= 0 {
        budget
    } else {
        0
    },
{
    if budget > 0 && start < data.len() {
        lemma_node_eval_bound(n, data, start);
        match node_eval(n, data, start) {
            Some(k) => {
                if k > 0 {
                    lemma_bounded_bound(n, data, start + k, budget - 1);
                }
            },
            None => {},
        }
    }
}

impl Node {
    /// A node matching the given bytes literally.
    pub fn literal(expr: &[u8]) -> (r: Self)
        ensures
            r@ == (NodeV::Literal { bytes: expr@ }),
    {
        Node::Literal { bytes: vstd::slice::slice_to_vec(expr) }
    }

    /// A node matching any single byte.
    pub fn wildcard() -> (r: Self)
        ensures
            r@ == NodeV::Wildcard,
    {
        Node::Wildcard
    }

    /// A node matching one byte against the bracket expression body `body`.
    pub fn char_class(body: &[u8]) -> (r: Self)
        ensures
            r@ == (NodeV::CharClass { class: class_spec(body@) }),
    {
        Node::CharClass { class: compile_class(body) }
    }

    /// Zero-or-one repetition of `child`.
    pub fn optional(child: Node) -> (r: Self)
        ensures
            r@ == (NodeV::Optional { child: Box::new(child@) }),
    {
        Node::Optional { child: Box::new(child) }
    }

    /// Zero-or-more (or, with `min_one`, one-or-more) repetition of `child`.
    pub fn repeat(child: Node, min_one: bool) -> (r: Self)
        ensures
            r@ == (NodeV::Repeat { child: Box::new(child@), min_one }),
    {
        Node::Repeat { child: Box::new(child), min_one }
    }

    /// Bounded repetition of `child`; an unbounded upper end is represented by
    /// the maximum representable count.
    pub fn interval(child: Node, at_least: usize, at_most: usize) -> (r: Self)
        ensures
            r@ == (NodeV::Interval { child: Box::new(child@), at_least, at_most }),
    {
        Node::Interval { child: Box::new(child), at_least, at_most }
    }
}

/// Every quantifier or interval node whose effective minimum is zero matches
/// the empty subject at offset 0 with length 0; a literal node with non-empty
/// content fails against the empty subject.
pub proof fn lemma_zero_min_on_empty(n: NodeV)
    ensures
        n is Optional ==> node_eval(n, Seq::empty(), 0) == Some(0int),
        (n matches NodeV::Repeat { min_one, .. } && !min_one) ==> node_eval(n, Seq::empty(), 0)
            == Some(0int),
        (n matches NodeV::Interval { at_least, .. } && at_least == 0) ==> node_eval(
            n,
            Seq::empty(),
            0,
        ) == Some(0int),
        (n matches NodeV::Literal { bytes } && bytes.len() > 0) ==> node_eval(n, Seq::empty(), 0)
            is None,
{
    match n {
        NodeV::Optional { child } => {
            lemma_node_eval_bound(*child, Seq::empty(), 0);
        },
        NodeV::Repeat { child, min_one } => {
            if !min_one {
                assert(star_eval(*child, Seq::empty(), 0) == 0);
            }
        },
        NodeV::Interval { child, at_least, at_most } => {
            if at_least == 0 {
                assert(forced_eval(*child, Seq::empty(), 0, 0) == Some(0int));
                let budget = if at_most >= at_least {
                    (at_most - at_least) as int
                } else {
                    0
                };
                assert(bounded_eval(*child, Seq::empty(), 0, budget) == 0);
            }
        },
        _ => {},
    }
}

/// The option carried by a match result: the length on success.
pub open spec fn to_opt(r: Result<usize, ()>) -> Option<int> {
    match r {
        Ok(k) => Some(k as int),
        Err(_) => None,
    }
}

pub open spec fn opt_add(a: int, o: Option<int>) -> Option<int> {
    match o {
        Some(k) => Some(a + k),
        None => None,
    }
}

fn eval_star(child: &Node, data: &[u8], start: usize) -> (r: usize)
    ensures
        r as int == star_eval(child@, data@, start as int),
    decreases height(child@), 1int,
{
    let mut count: usize = 0;
    loop
        invariant
            count >= 0,
            count > 0 ==> start + count <= data@.len(),
            star_eval(child@, data@, start as int) == count + star_eval(
                child@,
                data@,
                start + count,
            ),
        decreases rem(data@, start + count),
    {
        if start >= data.len() || start + count >= data.len() {
            return count;
        }
        let step = match child.evaluate(data, start + count) {
            Ok(k) => k,
            Err(_) => 0,
        };
        if step == 0 {
            return count;
        }
        proof {
            lemma_node_eval_bound(child@, data@, start + count);
        }
        count = count + step;
    }
}

fn eval_forced(child: &Node, data: &[u8], start: usize, need: usize) -> (r: Result<usize, ()>)
    ensures
        to_opt(r) == forced_eval(child@, data@, start as int, need as int),
        r matches Ok(k) ==> start + k <= vstd::math::max(start as int, data@.len() as int),
    decreases height(child@), 1int,
{
    let n = data.len();
    proof {
        assert(n as int == data@.len());
    }
    let mut count: usize = 0;
    let mut i: usize = 0;
    while count < need
        invariant
            count <= need,
            n as int == data@.len(),
            i == 0 || start + i <= data@.len(),
            forced_eval(child@, data@, start as int, need as int) == opt_add(
                i as int,
                forced_eval(child@, data@, start + i, need - count),
            ),
        decreases need - count,
    {
        match child.evaluate(data, start + i) {
            Err(_) => {
                return Err(());
            },
            Ok(k) => {
                proof {
                    lemma_node_eval_bound(child@, data@, start + i);
                }
                i = i + k;
                count = count + 1;
            },
        }
    }
    Ok(i)
}

fn eval_bounded(child: &Node, data: &[u8], start: usize, budget: usize) -> (r: usize)
    ensures
        r as int == bounded_eval(child@, data@, start as int, budget as int),
    decreases height(child@), 1int,
{
    let mut used: usize = 0;
    let mut i: usize = 0;
    loop
        invariant
            used <= budget,
            i > 0 ==> start + i <= data@.len(),
            bounded_eval(child@, data@, start as int, budget as int) == i + bounded_eval(
                child@,
                data@,
                start + i,
                budget - used,
            ),
        decreases budget - used,
    {
        if used >= budget || start >= data.len() || start + i >= data.len() {
            return i;
        }
        let step = match child.evaluate(data, start + i) {
            Ok(k) => k,
            Err(_) => 0,
        };
        if step == 0 {
            return i;
        }
        proof {
            lemma_node_eval_bound(child@, data@, start + i);
        }
        i = i + step;
        used = used + 1;
    }
}

impl Node {
    /// Attempt a match anchored exactly at `start`; the result is the number
    /// of matched bytes, or `Err` when no match begins there.
    pub fn evaluate(&self, data: &[u8], start: usize) -> (r: Result<usize, ()>)
        ensures
            to_opt(r) == node_eval(self@, data@, start as int),
        decreases height(self@), 0int,
    {
        let n = data.len();
        proof {
            assert(n as int == data@.len());
        }
        match self {
            Node::Literal { bytes } => {
                let mut i: usize = 0;
                while i < bytes.len()
                    invariant
                        self@ == (NodeV::Literal { bytes: bytes@ }),
                        n as int == data@.len(),
                        i <= bytes.len(),
                        i > 0 ==> start + i <= data@.len(),
                        forall|k: int|
                            0 <= k < i ==> start + k < data@.len() && data@[start + k]
                                == bytes@[k],
                    decreases bytes.len() - i,
                {
                    if start + i >= data.len() || bytes[i] != data[start + i] {
                        proof {
                            if bytes@.len() > 0 && start + bytes@.len() <= data@.len()
                                && data@.subrange(start as int, start + bytes@.len()) == bytes@ {
                                assert(data@.subrange(start as int, start + bytes@.len())[i as int]
                                    == bytes@[i as int]);
                            }
                            assert(node_eval(self@, data@, start as int) is None);
                        }
                        return Err(());
                    }
                    i = i + 1;
                }
                proof {
                    if bytes@.len() > 0 {
                        assert(start + bytes@.len() <= data@.len());
                        assert(data@.subrange(start as int, start + bytes@.len()) =~= bytes@);
                    }
                }
                Ok(i)
            },
            Node::Wildcard => {
                if start < data.len() {
                    Ok(1)
                } else {
                    Err(())
                }
            },
            Node::CharClass { class } => {
                if start < data.len() && class.matches(data[start]) {
                    Ok(1)
                } else {
                    Err(())
                }
            },
            Node::Optional { child } => {
                match child.evaluate(data, start) {
                    Ok(k) => Ok(k),
                    Err(_) => Ok(0),
                }
            },
            Node::Repeat { child, min_one } => {
                if *min_one {
                    match child.evaluate(data, start) {
                        Err(_) => Err(()),
                        Ok(k) => {
                            proof {
                                lemma_node_eval_bound(node_view(**child), data@, start as int);
                                lemma_star_bound(node_view(**child), data@, start + k);
                            }
                            let extra = eval_star(child, data, start + k);
                            Ok(k + extra)
                        },
                    }
                } else {
                    Ok(eval_star(child, data, start))
                }
            },
            Node::Interval { child, at_least, at_most } => {
                match eval_forced(child, data, start, *at_least) {
                    Err(_) => Err(()),
                    Ok(k) => {
                        let budget = if *at_most >= *at_least {
                            *at_most - *at_least
                        } else {
                            0
                        };
                        proof {
                            lemma_bounded_bound(node_view(**child), data@, start + k,
                                budget as int);
                        }
                        let extra = eval_bounded(child, data, start + k, budget);
                        Ok(k + extra)
                    },
                }
            },
        }
    }
}

/// A compiled pattern: the ordered list of matcher nodes, and the two anchor
/// flags recorded during parsing for the search driver.
#[derive(Debug, PartialEq, Eq)]
pub struct Sequence {
    pub nodes: Vec<Node>,
    pub anchor_start: bool,
    pub anchor_end: bool,
}

/// The mathematical content of a compiled pattern.
pub struct SequenceV {
    pub nodes: Seq<NodeV>,
    pub anchor_start: bool,
    pub anchor_end: bool,
}

impl View for Sequence {
    type V = SequenceV;

    open spec fn view(&self) -> SequenceV {
        SequenceV {
            nodes: self.nodes@.map_values(|n: Node| n@),
            anchor_start: self.anchor_start,
            anchor_end: self.anchor_end,
        }
    }
}

/// Concatenation: each node must begin exactly where the previous one ended,
/// and reaching the end of the subject with nodes still pending is a failure.
pub open spec fn nodes_eval(nodes: Seq<NodeV>, data: Seq<u8>, pos: int) -> Option<int>
    decreases nodes.len(),
{
    if nodes.len() == 0 {
        Some(0int)
    } else if pos >= data.len() {
        None
    } else {
        match node_eval(nodes[0], data, pos) {
            None => None,
            Some(k) => opt_add(k, nodes_eval(nodes.drop_first(), data, pos + k)),
        }
    }
}

pub proof fn lemma_nodes_eval_bound(nodes: Seq<NodeV>, data: Seq<u8>, pos: int)
    requires
        0 <= pos,
    ensures
        nodes_eval(nodes, data, pos) is Some ==> {
            let k = nodes_eval(nodes, data, pos)->Some_0;
            0 <= k && pos + k <= vstd::math::max(pos, data.len() as int)
        },
    decreases nodes.len(),
{
    if nodes.len() > 0 && pos < data.len() {
        lemma_node_eval_bound(nodes[0], data, pos);
        match node_eval(nodes[0], data, pos) {
            Some(k) => {
                lemma_nodes_eval_bound(nodes.drop_first(), data, pos + k);
            },
            None => {},
        }
    }
}

impl Sequence {
    /// Evaluate the whole node list anchored at `start`.
    pub fn evaluate(&self, data: &[u8], start: usize) -> (r: Result<usize, ()>)
        ensures
            to_opt(r) == nodes_eval(self@.nodes, data@, start as int),
    {
        let n = data.len();
        proof {
            assert(n as int == data@.len());
            assert(self@.nodes.skip(0) =~= self@.nodes);
        }
        let ghost all = self@.nodes;
        let mut i: usize = 0;
        let mut j: usize = 0;
        while j < self.nodes.len()
            invariant
                j <= self.nodes.len(),
                all == self@.nodes,
                n as int == data@.len(),
                i == 0 || start + i <= data@.len(),
                nodes_eval(all, data@, start as int) == opt_add(
                    i as int,
                    nodes_eval(all.skip(j as int), data@, start + i),
                ),
            decreases self.nodes.len() - j,
        {
            let ghost cur = all.skip(j as int);
            proof {
                assert(cur.len() > 0);
                assert(cur[0] == all[j as int]);
                assert(cur.drop_first() =~= all.skip(j as int + 1));
            }
            if start + i >= data.len() {
                return Err(());
            }
            match self.nodes[j].evaluate(data, start + i) {
                Err(_) => {
                    return Err(());
                },
                Ok(k) => {
                    proof {
                        lemma_node_eval_bound(all[j as int], data@, start + i);
                    }
                    i = i + k;
                    j = j + 1;
                },
            }
        }
        proof {
            assert(all.skip(j as int) =~= Seq::<NodeV>::empty());
        }
        Ok(i)
    }
}

/// One attempt of the search driver at offset `off`, with the end anchor
/// enforced when set.
pub open spec fn try_at(s: SequenceV, data: Seq<u8>, off: int) -> Option<int> {
    match nodes_eval(s.nodes, data, off) {
        None => None,
        Some(k) => {
            if s.anchor_end && off + k != data.len() {
                None
            } else {
                Some(k)
            }
        },
    }
}

/// The leftmost offset, from `off` up, where the compiled pattern matches.
pub open spec fn first_match_from(s: SequenceV, data: Seq<u8>, off: int) -> Option<(int, int)>
    decreases data.len() + 1 - off,
{
    if off > data.len() {
        None
    } else {
        match try_at(s, data, off) {
            Some(k) => Some((off, k)),
            None => first_match_from(s, data, off + 1),
        }
    }
}

/// What the search driver returns on a subject line.
pub open spec fn search_spec(s: SequenceV, data: Seq<u8>) -> Option<(int, int)> {
    if s.anchor_start {
        match try_at(s, data, 0) {
            Some(k) => Some((0int, k)),
            None => None,
        }
    } else {
        first_match_from(s, data, 0)
    }
}

proof fn lemma_first_match_leftmost(s: SequenceV, data: Seq<u8>, off: int)
    requires
        0 <= off,
    ensures
        match first_match_from(s, data, off) {
            Some(ok) => off <= ok.0 <= data.len() && try_at(s, data, ok.0) == Some(ok.1) && (forall|
                p: int,
            | off <= p < ok.0 ==> try_at(s, data, p) is None),
            None => forall|p: int| off <= p <= data.len() ==> try_at(s, data, p) is None,
        },
    decreases data.len() + 1 - off,
{
    if off <= data.len() {
        match try_at(s, data, off) {
            Some(_) => {},
            None => {
                lemma_first_match_leftmost(s, data, off + 1);
            },
        }
    }
}

/// An unanchored search returns the leftmost success: the offset it reports
/// matches, and no smaller offset does; when it reports nothing, no offset up
/// to the subject's length matches.
pub proof fn lemma_search_leftmost(s: SequenceV, data: Seq<u8>)
    requires
        !s.anchor_start,
    ensures
        match search_spec(s, data) {
            Some(ok) => 0 <= ok.0 <= data.len() && try_at(s, data, ok.0) == Some(ok.1) && (forall|
                p: int,
            | 0 <= p < ok.0 ==> try_at(s, data, p) is None),
            None => forall|p: int| 0 <= p <= data.len() ==> try_at(s, data, p) is None,
        },
{
    lemma_first_match_leftmost(s, data, 0);
}

/// The search driver: if the start anchor is set only offset 0 is attempted;
/// otherwise every offset from 0 through the subject's length is attempted in
/// order and the leftmost success is returned. A set end anchor additionally
/// requires the match to end at the subject's end.
pub fn search(seq: &Sequence, line: &[u8]) -> (r: Option<MatchSpan>)
    ensures
        match r {
            Some(span) => search_spec(seq@, line@) == Some((span.start as int, span.length as int)),
            None => search_spec(seq@, line@) is None,
        },
{
    if seq.anchor_start {
        match try_at_exec(seq, line, 0) {
            Some(k) => Some(MatchSpan { start: 0, length: k }),
            None => None,
        }
    } else {
        let mut off: usize = 0;
        loop
            invariant
                !seq@.anchor_start,
                off <= line@.len(),
                first_match_from(seq@, line@, 0) == first_match_from(seq@, line@, off as int),
            decreases line@.len() - off,
        {
            match try_at_exec(seq, line, off) {
                Some(k) => {
                    proof {
                        assert(first_match_from(seq@, line@, off as int) == Some(
                            (off as int, k as int),
                        ));
                    }
                    return Some(MatchSpan { start: off, length: k });
                },
                None => {
                    if off >= line.len() {
                        proof {
                            assert(first_match_from(seq@, line@, off + 1) is None);
                            assert(first_match_from(seq@, line@, off as int) is None);
                        }
                        return None;
                    }
                    off = off + 1;
                },
            }
        }
    }
}

fn try_at_exec(seq: &Sequence, line: &[u8], off: usize) -> (r: Option<usize>)
    ensures
        match r {
            Some(k) => try_at(seq@, line@, off as int) == Some(k as int),
            None => try_at(seq@, line@, off as int) is None,
        },
{
    let n = line.len();
    proof {
        assert(n as int == line@.len());
    }
    match seq.evaluate(line, off) {
        Err(_) => None,
        Ok(k) => {
            proof {
                lemma_nodes_eval_bound(seq@.nodes, line@, off as int);
            }
            if seq.anchor_end && off + k != line.len() {
                None
            } else {
                Some(k)
            }
        },
    }
}

} // verus!
