use vstd::prelude::*;

use crate::charclass::class_spec;
use crate::regex::{EngineError, Node, NodeV, Sequence, SequenceV};

verus! {

// ---------------------------------------------------------------------------
// Locale gate
// ---------------------------------------------------------------------------
/// The effective locale hint permits compilation only when it is exactly "C".
pub open spec fn locale_is_c(locale: &Option<String>) -> bool {
    match locale {
        Some(l) => l@ == "C"@,
        None => false,
    }
}

/// The effective locale hint: the override when present, else the fallback.
pub fn effective_locale(override_hint: Option<String>, fallback: Option<String>) -> (r: Option<
    String,
>)
    ensures
        r == if override_hint is Some {
            override_hint
        } else {
            fallback
        },
{
    match override_hint {
        Some(l) => Some(l),
        None => fallback,
    }
}

/// Byte-oriented character classes assume the single-byte "C" locale; any
/// other effective locale hint, or an absent one, refuses compilation.
pub fn is_locale_c(locale: &Option<String>) -> (r: bool)
    ensures
        r == locale_is_c(locale),
{
    match locale {
        Some(l) => {
            let c = "C".to_owned();
            l.eq(&c)
        },
        None => false,
    }
}

// ---------------------------------------------------------------------------
// Numeric tokens of interval expressions
// ---------------------------------------------------------------------------
pub open spec fn all_digits(s: Seq<u8>) -> bool {
    forall|k: int| 0 <= k < s.len() ==> 0x30 <= #[trigger] s[k] <= 0x39
}

/// The number denoted by a digit string, most significant digit first.
pub open spec fn digits_val(s: Seq<u8>) -> int
    decreases s.len(),
{
    if s.len() == 0 {
        0
    } else {
        digits_val(s.drop_last()) * 10 + (s.last() - 0x30)
    }
}

/// A token parses as a non-negative integer when it is non-empty, all digits,
/// and its value is representable.
pub open spec fn spec_parse_num(s: Seq<u8>) -> Option<usize> {
    if s.len() > 0 && all_digits(s) && digits_val(s) <= usize::MAX {
        Some(digits_val(s) as usize)
    } else {
        None
    }
}

proof fn lemma_digits_val_nonneg(s: Seq<u8>)
    requires
        all_digits(s),
    ensures
        digits_val(s) >= 0,
    decreases s.len(),
{
    if s.len() > 0 {
        assert(all_digits(s.drop_last())) by {
            assert(forall|k: int|
                0 <= k < s.len() - 1 ==> s.drop_last()[k] == #[trigger] s[k]);
        }
        lemma_digits_val_nonneg(s.drop_last());
    }
}

proof fn lemma_digits_mono(s: Seq<u8>, m: int)
    requires
        0 <= m <= s.len(),
        all_digits(s),
    ensures
        digits_val(s.subrange(0, m)) <= digits_val(s),
    decreases s.len(),
{
    if m == s.len() {
        assert(s.subrange(0, m) =~= s);
    } else {
        let t = s.drop_last();
        assert(all_digits(t)) by {
            assert(forall|k: int| 0 <= k < t.len() ==> t[k] == #[trigger] s[k]);
        }
        assert(s.subrange(0, m) =~= t.subrange(0, m));
        lemma_digits_mono(t, m);
        lemma_digits_val_nonneg(t);
    }
}

/// Position of the first comma at or after `from`, or the length when none.
pub open spec fn find_comma(s: Seq<u8>, from: int) -> int
    decreases s.len() - from,
{
    if from < 0 || from >= s.len() {
        s.len() as int
    } else if s[from] == 0x2c {
        from
    } else {
        find_comma(s, from + 1)
    }
}

/// Validation of a terminated interval expression body, by the recognized
/// forms: `{N}`, `{N,}`, `{,N}`, `{N,M}`. Anything else falls back to
/// literal text.
pub open spec fn interval_parse(body: Seq<u8>) -> Option<(usize, usize)> {
    if body.len() == 0 {
        None
    } else {
        let ci = find_comma(body, 0);
        if ci == body.len() {
            match spec_parse_num(body) {
                Some(v) => Some((v, v)),
                None => None,
            }
        } else if find_comma(body, ci + 1) < body.len() {
            None
        } else {
            let left = body.subrange(0, ci);
            let right = body.subrange(ci + 1, body.len() as int);
            if left.len() == 0 && right.len() == 0 {
                None
            } else if left.len() == 0 {
                match spec_parse_num(right) {
                    Some(v) => Some((0usize, v)),
                    None => None,
                }
            } else if right.len() == 0 {
                match spec_parse_num(left) {
                    Some(v) => Some((v, usize::MAX)),
                    None => None,
                }
            } else {
                match (spec_parse_num(left), spec_parse_num(right)) {
                    (Some(a), Some(b)) => Some((a, b)),
                    _ => None,
                }
            }
        }
    }
}

fn parse_num(expr: &[u8], lo: usize, hi: usize) -> (r: Option<usize>)
    requires
        lo <= hi <= expr@.len(),
    ensures
        r == spec_parse_num(expr@.subrange(lo as int, hi as int)),
{
    let ghost s = expr@.subrange(lo as int, hi as int);
    if lo == hi {
        return None;
    }
    let mut acc: usize = 0;
    let mut k = lo;
    while k < hi
        invariant
            lo <= k <= hi <= expr@.len(),
            s == expr@.subrange(lo as int, hi as int),
            all_digits(s.subrange(0, k - lo)),
            acc == digits_val(s.subrange(0, k - lo)),
        decreases hi - k,
    {
        let b = expr[k];
        let ghost m = k - lo;
        proof {
            assert(s[m] == expr@[k as int]);
            assert(s.subrange(0, m + 1).drop_last() =~= s.subrange(0, m));
            assert(s.subrange(0, m + 1).last() == s[m]);
        }
        if b < 0x30 || b > 0x39 {
            proof {
                assert(!all_digits(s));
            }
            return None;
        }
        let d = (b - 0x30) as usize;
        let next = match acc.checked_mul(10) {
            None => None,
            Some(m10) => m10.checked_add(d),
        };
        match next {
            None => {
                proof {
                    assert(digits_val(s.subrange(0, m + 1)) == acc * 10 + d);
                    if all_digits(s) {
                        lemma_digits_mono(s, m + 1);
                    }
                }
                return None;
            },
            Some(v) => {
                proof {
                    assert(all_digits(s.subrange(0, m + 1))) by {
                        assert(forall|q: int|
                            0 <= q < m + 1 ==> s.subrange(0, m + 1)[q] == #[trigger] s[q]);
                    }
                }
                acc = v;
                k = k + 1;
            },
        }
    }
    proof {
        assert(s.subrange(0, hi - lo) =~= s);
    }
    Some(acc)
}

fn find_comma_in(expr: &[u8], lo: usize, hi: usize) -> (r: usize)
    requires
        lo <= hi <= expr@.len(),
    ensures
        lo <= r <= hi,
        find_comma(expr@.subrange(lo as int, hi as int), 0) == r - lo,
        r < hi ==> expr@[r as int] == 0x2c,
{
    let ghost s = expr@.subrange(lo as int, hi as int);
    let mut k = lo;
    while k < hi
        invariant
            lo <= k <= hi <= expr@.len(),
            s == expr@.subrange(lo as int, hi as int),
            find_comma(s, 0) == find_comma(s, k - lo),
        decreases hi - k,
    {
        proof {
            assert(s[k - lo] == expr@[k as int]);
        }
        if expr[k] == 0x2c {
            return k;
        }
        k = k + 1;
    }
    k
}

/// Validate a terminated interval body `expr[lo..hi)` as an interval
/// expression.
fn parse_interval_body(expr: &[u8], lo: usize, hi: usize) -> (r: Option<(usize, usize)>)
    requires
        lo <= hi <= expr@.len(),
    ensures
        r == interval_parse(expr@.subrange(lo as int, hi as int)),
{
    let ghost body = expr@.subrange(lo as int, hi as int);
    if lo == hi {
        return None;
    }
    let ci = find_comma_in(expr, lo, hi);
    if ci == hi {
        proof {
            assert(body.subrange(0, hi - lo) =~= body);
        }
        match parse_num(expr, lo, hi) {
            Some(v) => Some((v, v)),
            None => None,
        }
    } else {
        let c2 = find_comma_in(expr, ci + 1, hi);
        proof {
            assert(body.subrange(ci + 1 - lo, hi - lo) =~= expr@.subrange(ci + 1, hi as int));
            assert(find_comma(body, ci + 1 - lo) == find_comma(
                expr@.subrange(ci + 1 as int, hi as int),
                0,
            ) + (ci + 1 - lo)) by {
                lemma_find_comma_rebase(body, expr@.subrange(ci + 1 as int, hi as int), ci + 1 - lo);
            }
        }
        if c2 < hi {
            return None;
        }
        let ghost left = body.subrange(0, ci - lo);
        let ghost right = body.subrange(ci + 1 - lo, hi - lo);
        proof {
            assert(left =~= expr@.subrange(lo as int, ci as int));
            assert(right =~= expr@.subrange(ci + 1 as int, hi as int));
        }
        if lo == ci && ci + 1 == hi {
            None
        } else if lo == ci {
            match parse_num(expr, ci + 1, hi) {
                Some(v) => Some((0, v)),
                None => None,
            }
        } else if ci + 1 == hi {
            match parse_num(expr, lo, ci) {
                Some(v) => Some((v, usize::MAX)),
                None => None,
            }
        } else {
            let a = parse_num(expr, lo, ci);
            let b = parse_num(expr, ci + 1, hi);
            match (a, b) {
                (Some(x), Some(y)) => Some((x, y)),
                _ => None,
            }
        }
    }
}

// ---------------------------------------------------------------------------
// The scanner state and its transition function
// ---------------------------------------------------------------------------
/// The mathematical content of the scanner's transient state: the nodes built
/// so far, the pending literal run, the open construct (bracket or interval)
/// with its start offset, the pending escape, the two anchor flags, and
/// whether an internal bookkeeping violation was detected.
pub struct PStateV {
    pub nodes: Seq<NodeV>,
    pub lit: Seq<u8>,
    pub lit_active: bool,
    pub in_bracket: bool,
    pub bracket_start: int,
    pub in_interval: bool,
    pub interval_start: int,
    pub escape: bool,
    pub caret: bool,
    pub dollar: bool,
    pub failed: bool,
}

pub open spec fn init_state() -> PStateV {
    PStateV {
        nodes: Seq::empty(),
        lit: Seq::empty(),
        lit_active: false,
        in_bracket: false,
        bracket_start: 0,
        in_interval: false,
        interval_start: 0,
        escape: false,
        caret: false,
        dollar: false,
        failed: false,
    }
}

/// End the pending literal run, if any, by appending it as a literal node.
pub open spec fn flush(st: PStateV) -> PStateV {
    if st.lit_active {
        PStateV {
            nodes: st.nodes.push(NodeV::Literal { bytes: st.lit }),
            lit: Seq::empty(),
            lit_active: false,
            ..st
        }
    } else {
        st
    }
}

/// Append bytes to the pending literal run, starting one when none is active.
pub open spec fn append_run(st: PStateV, s: Seq<u8>) -> PStateV {
    if st.lit_active {
        PStateV { lit: st.lit + s, ..st }
    } else {
        PStateV { lit: s, lit_active: true, ..st }
    }
}

/// Wrap the most recently appended node in a zero-or-one node; with no
/// preceding node this is a bookkeeping violation, surfaced as a parse
/// failure.
pub open spec fn wrap_optional(st: PStateV) -> PStateV {
    if st.nodes.len() == 0 {
        PStateV { failed: true, ..st }
    } else {
        PStateV {
            nodes: st.nodes.drop_last().push(
                NodeV::Optional { child: Box::new(st.nodes.last()) },
            ),
            ..st
        }
    }
}

/// Wrap the most recently appended node in a repetition node.
pub open spec fn wrap_repeat(st: PStateV, min_one: bool) -> PStateV {
    if st.nodes.len() == 0 {
        PStateV { failed: true, ..st }
    } else {
        PStateV {
            nodes: st.nodes.drop_last().push(
                NodeV::Repeat { child: Box::new(st.nodes.last()), min_one },
            ),
            ..st
        }
    }
}

/// Wrap the most recently appended node in an interval node.
pub open spec fn wrap_interval(st: PStateV, at_least: usize, at_most: usize) -> PStateV {
    if st.nodes.len() == 0 {
        PStateV { failed: true, ..st }
    } else {
        PStateV {
            nodes: st.nodes.drop_last().push(
                NodeV::Interval { child: Box::new(st.nodes.last()), at_least, at_most },
            ),
            ..st
        }
    }
}

/// Close a terminated interval expression: a recognized form wraps the last
/// node; anything else degrades to the whole `{...}` text, braces included,
/// as literal bytes.
pub open spec fn close_interval(st: PStateV, expr: Seq<u8>, i: int) -> PStateV {
    let body = expr.subrange(st.interval_start + 1, i);
    let st2 = PStateV { in_interval: false, ..st };
    match interval_parse(body) {
        None => append_run(st2, expr.subrange(st.interval_start, i + 1)),
        Some(bounds) => wrap_interval(st2, bounds.0, bounds.1),
    }
}

/// One step of the scanner on byte `expr[i]`. The bytes compared against
/// are, in order: `]` (0x5d), `}` (0x7d), `[` (0x5b), `^` (0x5e), `$` (0x24),
/// `\\` (0x5c), `.` (0x2e), `?` (0x3f), `*` (0x2a), `+` (0x2b), `{` (0x7b).
pub open spec fn pstep(st: PStateV, expr: Seq<u8>, i: int) -> PStateV {
    let b = expr[i];
    if st.failed {
        st
    } else if st.in_bracket {
        if b == 0x5d {
            if i == st.bracket_start + 1 {
                st
            } else {
                let f = flush(st);
                PStateV {
                    nodes: f.nodes.push(
                        NodeV::CharClass {
                            class: class_spec(expr.subrange(st.bracket_start + 1, i)),
                        },
                    ),
                    in_bracket: false,
                    ..f
                }
            }
        } else {
            st
        }
    } else if st.in_interval {
        if b == 0x7d {
            close_interval(st, expr, i)
        } else {
            st
        }
    } else if st.escape {
        append_run(PStateV { escape: false, ..st }, seq![b])
    } else if b == 0x5b {
        PStateV { in_bracket: true, bracket_start: i, ..st }
    } else if b == 0x5e && i == 0 {
        PStateV { caret: true, ..st }
    } else if b == 0x24 && i == expr.len() - 1 {
        PStateV { dollar: true, ..st }
    } else if b == 0x5c {
        PStateV { escape: true, ..st }
    } else if b == 0x2e {
        let f = flush(st);
        PStateV { nodes: f.nodes.push(NodeV::Wildcard), ..f }
    } else if b == 0x3f {
        wrap_optional(flush(st))
    } else if b == 0x2a {
        wrap_repeat(flush(st), false)
    } else if b == 0x2b {
        wrap_repeat(flush(st), true)
    } else if b == 0x7b {
        let f = flush(st);
        PStateV { in_interval: true, interval_start: i, ..f }
    } else {
        append_run(st, seq![b])
    }
}

/// The scanner state after processing `expr[i..]` starting from `st`.
pub open spec fn scan_from(expr: Seq<u8>, i: int, st: PStateV) -> PStateV
    decreases expr.len() - i,
{
    if 0 <= i < expr.len() {
        scan_from(expr, i + 1, pstep(st, expr, i))
    } else {
        st
    }
}

pub proof fn lemma_scan_failed(expr: Seq<u8>, i: int, st: PStateV)
    requires
        st.failed,
    ensures
        scan_from(expr, i, st) == st,
    decreases expr.len() - i,
{
    if 0 <= i < expr.len() {
        lemma_scan_failed(expr, i + 1, st);
    }
}

/// What compiling a pattern yields: the node list and anchor flags, or `None`
/// for a parse failure (an unterminated construct, a pending escape, or a
/// quantifier with nothing to wrap).
pub open spec fn parse_spec(expr: Seq<u8>) -> Option<SequenceV> {
    let st = scan_from(expr, 0, init_state());
    if st.failed || st.in_bracket || st.in_interval || st.escape {
        None
    } else {
        let f = flush(st);
        Some(SequenceV { nodes: f.nodes, anchor_start: st.caret, anchor_end: st.dollar })
    }
}

// ---------------------------------------------------------------------------
// The builder
// ---------------------------------------------------------------------------
/// Assembles the node list of a Sequence incrementally: appends literal,
/// wildcard and character-class nodes, and wraps the most recently appended
/// node in a quantifier or interval node.
pub struct RegexBuilder {
    pub nodes: Vec<Node>,
}

impl View for RegexBuilder {
    type V = Seq<NodeV>;

    open spec fn view(&self) -> Seq<NodeV> {
        self.nodes@.map_values(|n: Node| n@)
    }
}

proof fn lemma_view_push(v: Seq<Node>, n: Node)
    ensures
        v.push(n).map_values(|x: Node| x@) =~= v.map_values(|x: Node| x@).push(n@),
{
}

proof fn lemma_view_drop_last(v: Seq<Node>)
    requires
        v.len() > 0,
    ensures
        v.drop_last().map_values(|x: Node| x@) =~= v.map_values(|x: Node| x@).drop_last(),
        v.last()@ == v.map_values(|x: Node| x@).last(),
{
}

impl Default for RegexBuilder {
    fn default() -> (r: Self)
        ensures
            r@ == Seq::<NodeV>::empty(),
    {
        let v: Vec<Node> = Vec::new();
        proof {
            assert(v@.map_values(|x: Node| x@) =~= Seq::<NodeV>::empty());
        }
        RegexBuilder { nodes: v }
    }
}

impl RegexBuilder {
    /// Append a literal node for the given bytes.
    pub fn create_literal_regex(self, expr: &[u8]) -> (r: Self)
        ensures
            r@ == self@.push(NodeV::Literal { bytes: expr@ }),
    {
        let mut nodes = self.nodes;
        let node = Node::literal(expr);
        proof {
            lemma_view_push(nodes@, node);
        }
        nodes.push(node);
        RegexBuilder { nodes }
    }

    /// Append a character-class node compiled from a bracket expression body.
    pub fn create_char_class_regex(self, body: &[u8]) -> (r: Self)
        ensures
            r@ == self@.push(NodeV::CharClass { class: class_spec(body@) }),
    {
        let mut nodes = self.nodes;
        let node = Node::char_class(body);
        proof {
            lemma_view_push(nodes@, node);
        }
        nodes.push(node);
        RegexBuilder { nodes }
    }

    /// Append a wildcard node.
    pub fn create_dot_regex(self) -> (r: Self)
        ensures
            r@ == self@.push(NodeV::Wildcard),
    {
        let mut nodes = self.nodes;
        let node = Node::wildcard();
        proof {
            lemma_view_push(nodes@, node);
        }
        nodes.push(node);
        RegexBuilder { nodes }
    }

    /// Wrap the most recently appended node in a zero-or-one node. The grammar
    /// guarantees a node precedes the quantifier; asking for a wrap on an
    /// empty sequence is a caller contract violation.
    pub fn create_zero_or_one_regex(self) -> (r: Self)
        requires
            self@.len() > 0,
        ensures
            r@ == self@.drop_last().push(NodeV::Optional { child: Box::new(self@.last()) }),
    {
        proof {
            lemma_view_drop_last(self.nodes@);
        }
        let mut nodes = self.nodes;
        let last = nodes.pop().unwrap();
        let node = Node::optional(last);
        proof {
            lemma_view_push(nodes@, node);
        }
        nodes.push(node);
        RegexBuilder { nodes }
    }

    /// Wrap the most recently appended node in a zero-or-more node.
    pub fn create_zero_or_more_regex(self) -> (r: Self)
        requires
            self@.len() > 0,
        ensures
            r@ == self@.drop_last().push(
                NodeV::Repeat { child: Box::new(self@.last()), min_one: false },
            ),
    {
        proof {
            lemma_view_drop_last(self.nodes@);
        }
        let mut nodes = self.nodes;
        let last = nodes.pop().unwrap();
        let node = Node::repeat(last, false);
        proof {
            lemma_view_push(nodes@, node);
        }
        nodes.push(node);
        RegexBuilder { nodes }
    }

    /// Wrap the most recently appended node in a one-or-more node.
    pub fn create_one_or_more_regex(self) -> (r: Self)
        requires
            self@.len() > 0,
        ensures
            r@ == self@.drop_last().push(
                NodeV::Repeat { child: Box::new(self@.last()), min_one: true },
            ),
    {
        proof {
            lemma_view_drop_last(self.nodes@);
        }
        let mut nodes = self.nodes;
        let last = nodes.pop().unwrap();
        let node = Node::repeat(last, true);
        proof {
            lemma_view_push(nodes@, node);
        }
        nodes.push(node);
        RegexBuilder { nodes }
    }

    /// Wrap the most recently appended node in an interval node.
    pub fn create_interval_expr_regex(self, at_least: usize, at_most: usize) -> (r: Self)
        requires
            self@.len() > 0,
        ensures
            r@ == self@.drop_last().push(
                NodeV::Interval { child: Box::new(self@.last()), at_least, at_most },
            ),
    {
        proof {
            lemma_view_drop_last(self.nodes@);
        }
        let mut nodes = self.nodes;
        let last = nodes.pop().unwrap();
        let node = Node::interval(last, at_least, at_most);
        proof {
            lemma_view_push(nodes@, node);
        }
        nodes.push(node);
        RegexBuilder { nodes }
    }

    /// Finish building: the completed node list, with no anchors set.
    pub fn build(self) -> (r: Sequence)
        ensures
            r@.nodes == self@,
            !r@.anchor_start,
            !r@.anchor_end,
    {
        Sequence { nodes: self.nodes, anchor_start: false, anchor_end: false }
    }
}

/// Compiling the same pattern bytes twice yields two Sequences that behave
/// identically on every subject: what compilation produces is a function of
/// the pattern bytes alone, and evaluation and search read only that content.
pub proof fn lemma_compile_idempotent(
    s1: Sequence,
    s2: Sequence,
    expr: Seq<u8>,
    data: Seq<u8>,
    start: int,
)
    requires
        parse_spec(expr) == Some(s1@),
        parse_spec(expr) == Some(s2@),
    ensures
        s1@ == s2@,
        crate::regex::nodes_eval(s1@.nodes, data, start) == crate::regex::nodes_eval(
            s2@.nodes,
            data,
            start,
        ),
        crate::regex::search_spec(s1@, data) == crate::regex::search_spec(s2@, data),
{
}

// ---------------------------------------------------------------------------
// The scanner
// ---------------------------------------------------------------------------
/// The scanner's transient state, carried across the single left-to-right
/// pass over the pattern bytes.
pub struct ParseState {
    pub character_class_parsing_in_progress: bool,
    pub bracket_start: usize,
    pub interval_expr_parsing_in_progress: bool,
    pub interval_start: usize,
    pub literal_string_in_progress: bool,
    pub literal_string: Vec<u8>,
    pub caret_anchor_present: bool,
    pub dollar_anchor_present: bool,
    pub backslash_present: bool,
}

/// The mathematical content of the scanner state, paired with the nodes the
/// builder holds.
pub open spec fn pstate_of(nodes: Seq<NodeV>, st: ParseState) -> PStateV {
    PStateV {
        nodes,
        lit: st.literal_string@,
        lit_active: st.literal_string_in_progress,
        in_bracket: st.character_class_parsing_in_progress,
        bracket_start: st.bracket_start as int,
        in_interval: st.interval_expr_parsing_in_progress,
        interval_start: st.interval_start as int,
        escape: st.backslash_present,
        caret: st.caret_anchor_present,
        dollar: st.dollar_anchor_present,
        failed: false,
    }
}

impl Default for ParseState {
    fn default() -> (r: Self)
        ensures
            pstate_of(Seq::empty(), r) == init_state(),
    {
        let v: Vec<u8> = Vec::new();
        proof {
            assert(v@ =~= Seq::<u8>::empty());
        }
        ParseState {
            character_class_parsing_in_progress: false,
            bracket_start: 0,
            interval_expr_parsing_in_progress: false,
            interval_start: 0,
            literal_string_in_progress: false,
            literal_string: v,
            caret_anchor_present: false,
            dollar_anchor_present: false,
            backslash_present: false,
        }
    }
}

/// End the pending literal run, if any, by handing it to the builder.
fn flush_literal(b: RegexBuilder, state: &mut ParseState) -> (r: RegexBuilder)
    ensures
        pstate_of(r@, *final(state)) == flush(pstate_of(b@, *old(state))),
{
    if state.literal_string_in_progress {
        let r = b.create_literal_regex(state.literal_string.as_slice());
        state.literal_string = Vec::new();
        state.literal_string_in_progress = false;
        proof {
            assert(state.literal_string@ =~= Seq::<u8>::empty());
        }
        r
    } else {
        b
    }
}

/// Compile a pattern. The effective locale hint must be exactly "C" or a
/// `LocaleError` results and no matcher is constructed; a pattern that ends
/// inside a bracket expression, an interval expression or an escape, or that
/// asks a quantifier to wrap a node that does not exist, is a `ParseError`.
pub fn parse_regex(expr: &[u8], locale: &Option<String>) -> (r: Result<Sequence, EngineError>)
    ensures
        !locale_is_c(locale) ==> r == Err::<Sequence, EngineError>(EngineError::LocaleError),
        locale_is_c(locale) ==> match parse_spec(expr@) {
            Some(sv) => r matches Ok(s) && s@ == sv,
            None => r == Err::<Sequence, EngineError>(EngineError::ParseError),
        },
{
    if !is_locale_c(locale) {
        return Err(EngineError::LocaleError);
    }
    let n = expr.len();
    let mut builder = RegexBuilder::default();
    let mut state = ParseState::default();
    let mut i: usize = 0;
    while i < n
        invariant
            locale_is_c(locale),
            n == expr@.len(),
            i <= n,
            state.character_class_parsing_in_progress ==> state.bracket_start < i,
            state.interval_expr_parsing_in_progress ==> state.interval_start < i,
            scan_from(expr@, 0, init_state()) == scan_from(
                expr@,
                i as int,
                pstate_of(builder@, state),
            ),
        decreases n - i,
    {
        let b = expr[i];
        let ghost prev = pstate_of(builder@, state);
        if state.character_class_parsing_in_progress {
            if b == 0x5d && i != state.bracket_start + 1 {
                let bstart = state.bracket_start;
                builder = flush_literal(builder, &mut state);
                proof {
                    assert(pstate_of(builder@, state) == flush(prev));
                }
                let cls = &expr[bstart + 1..i];
                proof {
                    assert(cls@ == expr@.subrange(bstart + 1, i as int));
                }
                builder = builder.create_char_class_regex(cls);
                state.character_class_parsing_in_progress = false;
                proof {
                    let f = flush(prev);
                    assert(builder@ == f.nodes.push(
                        NodeV::CharClass {
                            class: class_spec(expr@.subrange(prev.bracket_start + 1, i as int)),
                        },
                    ));
                    assert(state.literal_string@ == f.lit);
                }
            }
        } else if state.interval_expr_parsing_in_progress {
            if b == 0x7d {
                state.interval_expr_parsing_in_progress = false;
                let istart = state.interval_start;
                match parse_interval_body(expr, istart + 1, i) {
                    None => {
                        if !state.literal_string_in_progress {
                            state.literal_string = Vec::new();
                            state.literal_string_in_progress = true;
                            proof {
                                assert(state.literal_string@ =~= Seq::<u8>::empty());
                            }
                        }
                        let ghost lit0 = state.literal_string@;
                        let ghost snap = state;
                        let mut idx = istart;
                        while idx < i + 1
                            invariant
                                istart <= idx <= i + 1,
                                i < n,
                                n == expr@.len(),
                                state.literal_string@ == lit0 + expr@.subrange(
                                    istart as int,
                                    idx as int,
                                ),
                                state.literal_string_in_progress,
                                state.character_class_parsing_in_progress
                                    == snap.character_class_parsing_in_progress,
                                state.bracket_start == snap.bracket_start,
                                state.interval_expr_parsing_in_progress
                                    == snap.interval_expr_parsing_in_progress,
                                state.interval_start == snap.interval_start,
                                state.caret_anchor_present == snap.caret_anchor_present,
                                state.dollar_anchor_present == snap.dollar_anchor_present,
                                state.backslash_present == snap.backslash_present,
                            decreases i + 1 - idx,
                        {
                            proof {
                                assert(expr@.subrange(istart as int, idx + 1) =~= expr@.subrange(
                                    istart as int,
                                    idx as int,
                                ).push(expr@[idx as int]));
                            }
                            state.literal_string.push(expr[idx]);
                            idx = idx + 1;
                        }
                        proof {
                            assert(prev.lit_active ==> state.literal_string@ =~= prev.lit
                                + expr@.subrange(istart as int, i + 1));
                            assert(!prev.lit_active ==> state.literal_string@ =~= expr@.subrange(
                                istart as int,
                                i + 1,
                            ));
                        }
                    },
                    Some((lo, hi)) => {
                        if builder.nodes.len() == 0 {
                            proof {
                                assert(pstep(prev, expr@, i as int).failed);
                                lemma_scan_failed(
                                    expr@,
                                    i + 1,
                                    pstep(prev, expr@, i as int),
                                );
                            }
                            return Err(EngineError::ParseError);
                        }
                        proof {
                            assert(builder@.len() > 0);
                        }
                        builder = builder.create_interval_expr_regex(lo, hi);
                    },
                }
            }
        } else if state.backslash_present {
            state.backslash_present = false;
            if state.literal_string_in_progress {
                state.literal_string.push(b);
            } else {
                state.literal_string = Vec::new();
                state.literal_string.push(b);
                state.literal_string_in_progress = true;
            }
            proof {
                assert(state.literal_string@ =~= pstep(prev, expr@, i as int).lit);
            }
        } else if b == 0x5b {
            state.character_class_parsing_in_progress = true;
            state.bracket_start = i;
        } else if b == 0x5e && i == 0 {
            state.caret_anchor_present = true;
        } else if b == 0x24 && i == n - 1 {
            state.dollar_anchor_present = true;
        } else if b == 0x5c {
            state.backslash_present = true;
        } else if b == 0x2e {
            builder = flush_literal(builder, &mut state);
            builder = builder.create_dot_regex();
        } else if b == 0x3f {
            builder = flush_literal(builder, &mut state);
            if builder.nodes.len() == 0 {
                proof {
                    assert(pstep(prev, expr@, i as int).failed);
                    lemma_scan_failed(expr@, i + 1, pstep(prev, expr@, i as int));
                }
                return Err(EngineError::ParseError);
            }
            builder = builder.create_zero_or_one_regex();
        } else if b == 0x2a {
            builder = flush_literal(builder, &mut state);
            if builder.nodes.len() == 0 {
                proof {
                    assert(pstep(prev, expr@, i as int).failed);
                    lemma_scan_failed(expr@, i + 1, pstep(prev, expr@, i as int));
                }
                return Err(EngineError::ParseError);
            }
            builder = builder.create_zero_or_more_regex();
        } else if b == 0x2b {
            builder = flush_literal(builder, &mut state);
            if builder.nodes.len() == 0 {
                proof {
                    assert(pstep(prev, expr@, i as int).failed);
                    lemma_scan_failed(expr@, i + 1, pstep(prev, expr@, i as int));
                }
                return Err(EngineError::ParseError);
            }
            builder = builder.create_one_or_more_regex();
        } else if b == 0x7b {
            builder = flush_literal(builder, &mut state);
            state.interval_expr_parsing_in_progress = true;
            state.interval_start = i;
        } else {
            if state.literal_string_in_progress {
                state.literal_string.push(b);
            } else {
                state.literal_string = Vec::new();
                state.literal_string.push(b);
                state.literal_string_in_progress = true;
            }
            proof {
                assert(state.literal_string@ =~= pstep(prev, expr@, i as int).lit);
            }
        }
        proof {
            assert(pstate_of(builder@, state) == pstep(prev, expr@, i as int));
        }
        i = i + 1;
    }
    proof {
        assert(scan_from(expr@, 0, init_state()) == pstate_of(builder@, state));
    }
    if state.character_class_parsing_in_progress || state.interval_expr_parsing_in_progress
        || state.backslash_present {
        return Err(EngineError::ParseError);
    }
    builder = flush_literal(builder, &mut state);
    let mut sequence = builder.build();
    sequence.anchor_start = state.caret_anchor_present;
    sequence.anchor_end = state.dollar_anchor_present;
    Ok(sequence)
}

/// A comma search in a suffix looks through the same bytes as a comma search
/// in the enclosing sequence from the matching offset.
proof fn lemma_find_comma_rebase(s: Seq<u8>, suffix: Seq<u8>, off: int)
    requires
        0 <= off <= s.len(),
        suffix =~= s.subrange(off, s.len() as int),
    ensures
        find_comma(s, off) == find_comma(suffix, 0) + off,
{
    lemma_find_comma_rebase_from(s, suffix, off, 0);
}

proof fn lemma_find_comma_rebase_from(s: Seq<u8>, suffix: Seq<u8>, off: int, j: int)
    requires
        0 <= off <= s.len(),
        0 <= j,
        suffix =~= s.subrange(off, s.len() as int),
    ensures
        find_comma(s, off + j) == find_comma(suffix, j) + off,
    decreases s.len() - off - j,
{
    if j >= suffix.len() {
    } else {
        if s[off + j] != 0x2c {
            lemma_find_comma_rebase_from(s, suffix, off, j + 1);
        }
    }
}

} // verus!
