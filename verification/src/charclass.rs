use vstd::prelude::*;

verus! {

/// The named character classes of a bracket expression, each mapped to the
/// corresponding ASCII predicate.
#[derive(Clone, Copy, PartialEq, Eq, Structural, Debug)]
pub enum NamedClass {
    Alnum,
    Alpha,
    Blank,
    Cntrl,
    Digit,
    Graph,
    Lower,
    Print,
    Punct,
    Space,
    Upper,
    Xdigit,
}

pub open spec fn spec_is_digit(b: u8) -> bool {
    0x30 <= b <= 0x39
}

pub open spec fn spec_is_upper(b: u8) -> bool {
    0x41 <= b <= 0x5a
}

pub open spec fn spec_is_lower(b: u8) -> bool {
    0x61 <= b <= 0x7a
}

pub open spec fn spec_is_alpha(b: u8) -> bool {
    spec_is_upper(b) || spec_is_lower(b)
}

pub open spec fn spec_is_alnum(b: u8) -> bool {
    spec_is_alpha(b) || spec_is_digit(b)
}

pub open spec fn spec_is_space(b: u8) -> bool {
    b == 0x20 || 0x09 <= b <= 0x0d
}

pub open spec fn spec_is_blank(b: u8) -> bool {
    b == 0x20 || b == 0x09
}

pub open spec fn spec_is_cntrl(b: u8) -> bool {
    b < 0x20 || b == 0x7f
}

pub open spec fn spec_is_graph(b: u8) -> bool {
    0x21 <= b <= 0x7e
}

pub open spec fn spec_is_print(b: u8) -> bool {
    0x20 <= b <= 0x7e
}

pub open spec fn spec_is_punct(b: u8) -> bool {
    spec_is_graph(b) && !spec_is_alnum(b)
}

pub open spec fn spec_is_xdigit(b: u8) -> bool {
    spec_is_digit(b) || 0x41 <= b <= 0x46 || 0x61 <= b <= 0x66
}

pub open spec fn named_matches(n: NamedClass, b: u8) -> bool {
    match n {
        NamedClass::Alnum => spec_is_alnum(b),
        NamedClass::Alpha => spec_is_alpha(b),
        NamedClass::Blank => spec_is_blank(b),
        NamedClass::Cntrl => spec_is_cntrl(b),
        NamedClass::Digit => spec_is_digit(b),
        NamedClass::Graph => spec_is_graph(b),
        NamedClass::Lower => spec_is_lower(b),
        NamedClass::Print => spec_is_print(b),
        NamedClass::Punct => spec_is_punct(b),
        NamedClass::Space => spec_is_space(b),
        NamedClass::Upper => spec_is_upper(b),
        NamedClass::Xdigit => spec_is_xdigit(b),
    }
}

fn named_match_exec(n: NamedClass, b: u8) -> (r: bool)
    ensures
        r == named_matches(n, b),
{
    match n {
        NamedClass::Alnum => (b >= 0x41 && b <= 0x5a) || (b >= 0x61 && b <= 0x7a) || (b >= 0x30
            && b <= 0x39),
        NamedClass::Alpha => (b >= 0x41 && b <= 0x5a) || (b >= 0x61 && b <= 0x7a),
        NamedClass::Blank => b == 0x20 || b == 0x09,
        NamedClass::Cntrl => b < 0x20 || b == 0x7f,
        NamedClass::Digit => b >= 0x30 && b <= 0x39,
        NamedClass::Graph => b >= 0x21 && b <= 0x7e,
        NamedClass::Lower => b >= 0x61 && b <= 0x7a,
        NamedClass::Print => b >= 0x20 && b <= 0x7e,
        NamedClass::Punct => (b >= 0x21 && b <= 0x7e) && !((b >= 0x41 && b <= 0x5a) || (b >= 0x61
            && b <= 0x7a) || (b >= 0x30 && b <= 0x39)),
        NamedClass::Space => b == 0x20 || (b >= 0x09 && b <= 0x0d),
        NamedClass::Upper => b >= 0x41 && b <= 0x5a,
        NamedClass::Xdigit => (b >= 0x30 && b <= 0x39) || (b >= 0x41 && b <= 0x46) || (b >= 0x61
            && b <= 0x66),
    }
}

/// A compiled bracket expression: individually listed bytes, inclusive byte
/// ranges, named classes, and a negation flag.
#[derive(Debug, PartialEq, Eq)]
pub struct ClassSpec {
    pub members: Vec<u8>,
    pub ranges: Vec<(u8, u8)>,
    pub named: Vec<NamedClass>,
    pub negated: bool,
}

/// The mathematical content of a compiled bracket expression.
pub struct ClassV {
    pub members: Seq<u8>,
    pub ranges: Seq<(u8, u8)>,
    pub named: Seq<NamedClass>,
    pub negated: bool,
}

impl View for ClassSpec {
    type V = ClassV;

    open spec fn view(&self) -> ClassV {
        ClassV {
            members: self.members@,
            ranges: self.ranges@,
            named: self.named@,
            negated: self.negated,
        }
    }
}

/// Membership before the negation flag is applied.
pub open spec fn raw_matches(c: ClassV, b: u8) -> bool {
    c.members.contains(b) || (exists|k: int|
        0 <= k < c.ranges.len() && (#[trigger] c.ranges[k]).0 <= b <= c.ranges[k].1) || (exists|
        k: int|
        0 <= k < c.named.len() && named_matches(#[trigger] c.named[k], b))
}

/// Membership of a byte in a compiled bracket expression.
pub open spec fn class_matches(c: ClassV, b: u8) -> bool {
    raw_matches(c, b) != c.negated
}

impl ClassSpec {
    fn raw_match(&self, b: u8) -> (r: bool)
        ensures
            r == raw_matches(self@, b),
    {
        let mut i: usize = 0;
        while i < self.members.len()
            invariant
                i <= self.members.len(),
                forall|k: int| 0 <= k < i ==> self.members@[k] != b,
            decreases self.members.len() - i,
        {
            if self.members[i] == b {
                return true;
            }
            i = i + 1;
        }
        let mut i: usize = 0;
        while i < self.ranges.len()
            invariant
                i <= self.ranges.len(),
                forall|k: int|
                    0 <= k < i ==> !((#[trigger] self.ranges@[k]).0 <= b <= self.ranges@[k].1),
            decreases self.ranges.len() - i,
        {
            let (lo, hi) = self.ranges[i];
            if lo <= b && b <= hi {
                proof {
                    assert((#[trigger] self@.ranges[i as int]).0 <= b <= self@.ranges[i as int].1);
                }
                return true;
            }
            i = i + 1;
        }
        let mut i: usize = 0;
        while i < self.named.len()
            invariant
                i <= self.named.len(),
                forall|k: int| 0 <= k < i ==> !named_matches(self.named@[k], b),
            decreases self.named.len() - i,
        {
            if named_match_exec(self.named[i], b) {
                proof {
                    assert(named_matches(#[trigger] self@.named[i as int], b));
                }
                return true;
            }
            i = i + 1;
        }
        false
    }

    /// Membership test, with the negation flag applied.
    pub fn matches(&self, b: u8) -> (r: bool)
        ensures
            r == class_matches(self@, b),
    {
        let raw = self.raw_match(b);
        raw != self.negated
    }
}

/// The named class denoted by the given name bytes, if any.
pub open spec fn spec_named_of(name: Seq<u8>) -> Option<NamedClass> {
    if name.len() == 5 {
        if name[0] == 0x61 && name[1] == 0x6c && name[2] == 0x6e && name[3] == 0x75 && name[4]
            == 0x6d {
            Some(NamedClass::Alnum)
        } else if name[0] == 0x61 && name[1] == 0x6c && name[2] == 0x70 && name[3] == 0x68
            && name[4] == 0x61 {
            Some(NamedClass::Alpha)
        } else if name[0] == 0x62 && name[1] == 0x6c && name[2] == 0x61 && name[3] == 0x6e
            && name[4] == 0x6b {
            Some(NamedClass::Blank)
        } else if name[0] == 0x63 && name[1] == 0x6e && name[2] == 0x74 && name[3] == 0x72
            && name[4] == 0x6c {
            Some(NamedClass::Cntrl)
        } else if name[0] == 0x64 && name[1] == 0x69 && name[2] == 0x67 && name[3] == 0x69
            && name[4] == 0x74 {
            Some(NamedClass::Digit)
        } else if name[0] == 0x67 && name[1] == 0x72 && name[2] == 0x61 && name[3] == 0x70
            && name[4] == 0x68 {
            Some(NamedClass::Graph)
        } else if name[0] == 0x6c && name[1] == 0x6f && name[2] == 0x77 && name[3] == 0x65
            && name[4] == 0x72 {
            Some(NamedClass::Lower)
        } else if name[0] == 0x70 && name[1] == 0x72 && name[2] == 0x69 && name[3] == 0x6e
            && name[4] == 0x74 {
            Some(NamedClass::Print)
        } else if name[0] == 0x70 && name[1] == 0x75 && name[2] == 0x6e && name[3] == 0x63
            && name[4] == 0x74 {
            Some(NamedClass::Punct)
        } else if name[0] == 0x73 && name[1] == 0x70 && name[2] == 0x61 && name[3] == 0x63
            && name[4] == 0x65 {
            Some(NamedClass::Space)
        } else if name[0] == 0x75 && name[1] == 0x70 && name[2] == 0x70 && name[3] == 0x65
            && name[4] == 0x72 {
            Some(NamedClass::Upper)
        } else {
            None
        }
    } else if name.len() == 6 {
        if name[0] == 0x78 && name[1] == 0x64 && name[2] == 0x69 && name[3] == 0x67 && name[4]
            == 0x69 && name[5] == 0x74 {
            Some(NamedClass::Xdigit)
        } else {
            None
        }
    } else {
        None
    }
}

/// Position of the first `:]` at or after `from`, or -1 when there is none.
pub open spec fn find_close(body: Seq<u8>, from: int) -> int
    decreases body.len() - from,
{
    if from < 0 || from + 1 >= body.len() {
        -1
    } else if body[from] == 0x3a && body[from + 1] == 0x5d {
        from
    } else {
        find_close(body, from + 1)
    }
}

pub proof fn lemma_find_close_bounds(body: Seq<u8>, from: int)
    ensures
        find_close(body, from) >= 0 ==> from <= find_close(body, from) && find_close(body, from)
            + 1 < body.len(),
    decreases body.len() - from,
{
    if !(from < 0 || from + 1 >= body.len()) {
        if !(body[from] == 0x3a && body[from + 1] == 0x5d) {
            lemma_find_close_bounds(body, from + 1);
        }
    }
}

/// The listed bytes, ranges and named classes that scanning a bracket
/// expression body from position `j` produces.
pub open spec fn class_items(body: Seq<u8>, j: int) -> (Seq<u8>, Seq<(u8, u8)>, Seq<NamedClass>)
    decreases body.len() - j,
{
    if !(0 <= j < body.len()) {
        (Seq::empty(), Seq::empty(), Seq::empty())
    } else if body[j] == 0x5b && j + 1 < body.len() && body[j + 1] == 0x3a && find_close(
        body,
        j + 2,
    ) >= 0 && spec_named_of(body.subrange(j + 2, find_close(body, j + 2))) is Some {
        let k = find_close(body, j + 2);
        let nc = spec_named_of(body.subrange(j + 2, k))->Some_0;
        let next0 = if k + 2 > j + 1 {
            k + 2
        } else {
            j + 1
        };
        let next = if next0 > body.len() {
            body.len() as int
        } else {
            next0
        };
        let rest = class_items(body, next);
        (rest.0, rest.1, seq![nc] + rest.2)
    } else if j + 2 < body.len() && body[j + 1] == 0x2d {
        let rest = class_items(body, j + 3);
        (rest.0, seq![(body[j], body[j + 2])] + rest.1, rest.2)
    } else {
        let rest = class_items(body, j + 1);
        (seq![body[j]] + rest.0, rest.1, rest.2)
    }
}

/// The compiled form of a bracket expression body (the bytes between the
/// brackets): a leading caret negates, the rest is scanned for named classes,
/// ranges and individual members.
pub open spec fn class_spec(body: Seq<u8>) -> ClassV {
    if body.len() > 0 && body[0] == 0x5e {
        let t = class_items(body, 1);
        ClassV { members: t.0, ranges: t.1, named: t.2, negated: true }
    } else {
        let t = class_items(body, 0);
        ClassV { members: t.0, ranges: t.1, named: t.2, negated: false }
    }
}

fn find_close_pos(body: &[u8], from: usize) -> (r: Option<usize>)
    ensures
        match r {
            Some(k) => find_close(body@, from as int) == k as int && from <= k && k + 1
                < body@.len(),
            None => find_close(body@, from as int) == -1,
        },
{
    let mut k = from;
    loop
        invariant
            from <= k,
            find_close(body@, from as int) == find_close(body@, k as int),
        decreases body@.len() - k,
    {
        if k >= body.len() {
            return None;
        }
        if k == body.len() - 1 {
            return None;
        }
        if body[k] == 0x3a && body[k + 1] == 0x5d {
            return Some(k);
        }
        k = k + 1;
    }
}

fn named_of_region(body: &[u8], lo: usize, hi: usize) -> (r: Option<NamedClass>)
    requires
        lo <= hi <= body@.len(),
    ensures
        r == spec_named_of(body@.subrange(lo as int, hi as int)),
{
    let n = hi - lo;
    if n == 5 {
        let c0 = body[lo];
        let c1 = body[lo + 1];
        let c2 = body[lo + 2];
        let c3 = body[lo + 3];
        let c4 = body[lo + 4];
        if c0 == 0x61 && c1 == 0x6c && c2 == 0x6e && c3 == 0x75 && c4 == 0x6d {
            Some(NamedClass::Alnum)
        } else if c0 == 0x61 && c1 == 0x6c && c2 == 0x70 && c3 == 0x68 && c4 == 0x61 {
            Some(NamedClass::Alpha)
        } else if c0 == 0x62 && c1 == 0x6c && c2 == 0x61 && c3 == 0x6e && c4 == 0x6b {
            Some(NamedClass::Blank)
        } else if c0 == 0x63 && c1 == 0x6e && c2 == 0x74 && c3 == 0x72 && c4 == 0x6c {
            Some(NamedClass::Cntrl)
        } else if c0 == 0x64 && c1 == 0x69 && c2 == 0x67 && c3 == 0x69 && c4 == 0x74 {
            Some(NamedClass::Digit)
        } else if c0 == 0x67 && c1 == 0x72 && c2 == 0x61 && c3 == 0x70 && c4 == 0x68 {
            Some(NamedClass::Graph)
        } else if c0 == 0x6c && c1 == 0x6f && c2 == 0x77 && c3 == 0x65 && c4 == 0x72 {
            Some(NamedClass::Lower)
        } else if c0 == 0x70 && c1 == 0x72 && c2 == 0x69 && c3 == 0x6e && c4 == 0x74 {
            Some(NamedClass::Print)
        } else if c0 == 0x70 && c1 == 0x75 && c2 == 0x6e && c3 == 0x63 && c4 == 0x74 {
            Some(NamedClass::Punct)
        } else if c0 == 0x73 && c1 == 0x70 && c2 == 0x61 && c3 == 0x63 && c4 == 0x65 {
            Some(NamedClass::Space)
        } else if c0 == 0x75 && c1 == 0x70 && c2 == 0x70 && c3 == 0x65 && c4 == 0x72 {
            Some(NamedClass::Upper)
        } else {
            None
        }
    } else if n == 6 {
        let c0 = body[lo];
        let c1 = body[lo + 1];
        let c2 = body[lo + 2];
        let c3 = body[lo + 3];
        let c4 = body[lo + 4];
        let c5 = body[lo + 5];
        if c0 == 0x78 && c1 == 0x64 && c2 == 0x69 && c3 == 0x67 && c4 == 0x69 && c5 == 0x74 {
            Some(NamedClass::Xdigit)
        } else {
            None
        }
    } else {
        None
    }
}

/// Compile a bracket expression body into its set representation.
pub fn compile_class(body: &[u8]) -> (r: ClassSpec)
    ensures
        r@ == class_spec(body@),
{
    let mut members: Vec<u8> = Vec::new();
    let mut ranges: Vec<(u8, u8)> = Vec::new();
    let mut named: Vec<NamedClass> = Vec::new();
    let mut negated = false;
    let mut j: usize = 0;
    if body.len() > 0 && body[0] == 0x5e {
        negated = true;
        j = 1;
    }
    let ghost j0 = j as int;
    let ghost full = class_items(body@, j0);
    while j < body.len()
        invariant
            j0 <= j as int,
            j <= body.len() || j0 >= body@.len(),
            full == class_items(body@, j0),
            full.0 =~= members@ + class_items(body@, j as int).0,
            full.1 =~= ranges@ + class_items(body@, j as int).1,
            full.2 =~= named@ + class_items(body@, j as int).2,
        decreases body@.len() - j,
    {
        let b0 = body[j];
        let mut handled = false;
        if b0 == 0x5b && j + 1 < body.len() && body[j + 1] == 0x3a {
            if let Some(k) = find_close_pos(body, j + 2) {
                if let Some(nc) = named_of_region(body, j + 2, k) {
                    proof {
                        let rest = class_items(body@, k + 2);
                        assert(class_items(body@, j as int).0 == rest.0);
                        assert(class_items(body@, j as int).1 == rest.1);
                        assert(class_items(body@, j as int).2 == seq![nc] + rest.2);
                        assert(named@ + class_items(body@, j as int).2 =~= named@.push(nc)
                            + rest.2);
                    }
                    named.push(nc);
                    j = k + 2;
                    handled = true;
                }
            }
        }
        if !handled {
            if body.len() > 2 && j < body.len() - 2 && body[j + 1] == 0x2d {
                proof {
                    let rest = class_items(body@, j + 3);
                    assert(class_items(body@, j as int).1 == seq![(body@[j as int], body@[j + 2])]
                        + rest.1);
                    assert(ranges@ + class_items(body@, j as int).1 =~= ranges@.push(
                        (body@[j as int], body@[j + 2]),
                    ) + rest.1);
                }
                ranges.push((b0, body[j + 2]));
                j = j + 3;
            } else {
                proof {
                    let rest = class_items(body@, j + 1);
                    assert(class_items(body@, j as int).0 == seq![body@[j as int]] + rest.0);
                    assert(members@ + class_items(body@, j as int).0 =~= members@.push(
                        body@[j as int],
                    ) + rest.0);
                }
                members.push(b0);
                j = j + 1;
            }
        }
    }
    proof {
        assert(class_items(body@, j as int) == (
            Seq::<u8>::empty(),
            Seq::<(u8, u8)>::empty(),
            Seq::<NamedClass>::empty(),
        ));
        assert(full.0 =~= members@);
        assert(full.1 =~= ranges@);
        assert(full.2 =~= named@);
    }
    ClassSpec { members, ranges, named, negated }
}

} // verus!
