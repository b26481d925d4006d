use vstd::prelude::*;

use vstd::utf8::encode_utf8;

verus! {

/// The two-byte component `**`, which matches a whole path component (or, in
/// some positions, any tail of the path).
pub open spec fn dstar() -> Seq<u8> {
    seq![0x2au8, 0x2au8]
}

// ---------------------------------------------------------------------------
// Path components
// ---------------------------------------------------------------------------
/// Whether a finished piece is kept as a component: empty pieces are skipped,
/// and a lone `.` is kept only as the very first component.
pub open spec fn keep_piece(piece: Seq<u8>, out: Seq<Seq<u8>>) -> bool {
    piece.len() > 0 && !(piece == seq![0x2eu8] && out.len() > 0)
}

/// Components of the byte string `s[j..]`, continuing a scan that has
/// accumulated the piece `acc` and already produced `out`.
pub open spec fn comps_from(s: Seq<u8>, j: int, acc: Seq<u8>, out: Seq<Seq<u8>>) -> Seq<Seq<u8>>
    decreases s.len() - j,
{
    if !(0 <= j < s.len()) {
        if keep_piece(acc, out) {
            out.push(acc)
        } else {
            out
        }
    } else if s[j] == 0x2f {
        let out2 = if keep_piece(acc, out) {
            out.push(acc)
        } else {
            out
        };
        comps_from(s, j + 1, Seq::empty(), out2)
    } else {
        comps_from(s, j + 1, acc.push(s[j]), out)
    }
}

/// The components of a path: a leading slash is the root component `/`;
/// otherwise the path splits at slashes, dropping empty pieces and any `.`
/// that is not the first component.
pub open spec fn components_spec(s: Seq<u8>) -> Seq<Seq<u8>> {
    if s.len() > 0 && s[0] == 0x2f {
        comps_from(s, 1, Seq::empty(), seq![seq![0x2fu8]])
    } else {
        comps_from(s, 0, Seq::empty(), Seq::empty())
    }
}

proof fn lemma_comps_nonempty(s: Seq<u8>, j: int, acc: Seq<u8>, out: Seq<Seq<u8>>)
    requires
        forall|k: int| 0 <= k < out.len() ==> (#[trigger] out[k]).len() > 0,
    ensures
        forall|k: int|
            0 <= k < comps_from(s, j, acc, out).len() ==> (#[trigger] comps_from(s, j, acc, out)[k]).len()
                > 0,
    decreases s.len() - j,
{
    if !(0 <= j < s.len()) {
        let res = comps_from(s, j, acc, out);
        if keep_piece(acc, out) {
            assert(res == out.push(acc));
            assert forall|k: int| 0 <= k < res.len() implies (#[trigger] res[k]).len() > 0 by {
                if k < out.len() {
                    assert(res[k] == out[k]);
                } else {
                    assert(res[k] == acc);
                }
            }
        }
    } else if s[j] == 0x2f {
        let out2 = if keep_piece(acc, out) {
            out.push(acc)
        } else {
            out
        };
        assert(forall|k: int| 0 <= k < out2.len() ==> (#[trigger] out2[k]).len() > 0) by {
            if keep_piece(acc, out) {
                assert(forall|k: int|
                    0 <= k < out.len() ==> out2[k] == (#[trigger] out[k]));
            }
        }
        lemma_comps_nonempty(s, j + 1, Seq::empty(), out2);
        assert(comps_from(s, j, acc, out) == comps_from(s, j + 1, Seq::empty(), out2));
    } else {
        lemma_comps_nonempty(s, j + 1, acc.push(s[j]), out);
        assert(comps_from(s, j, acc, out) == comps_from(s, j + 1, acc.push(s[j]), out));
    }
}

/// Every component a path splits into is non-empty.
pub proof fn lemma_components_nonempty(s: Seq<u8>)
    ensures
        forall|k: int|
            0 <= k < components_spec(s).len() ==> (#[trigger] components_spec(s)[k]).len() > 0,
{
    if s.len() > 0 && s[0] == 0x2f {
        lemma_comps_nonempty(s, 1, Seq::empty(), seq![seq![0x2fu8]]);
    } else {
        lemma_comps_nonempty(s, 0, Seq::empty(), Seq::empty());
    }
}

fn push_piece(out: &mut Vec<Vec<u8>>, piece: Vec<u8>) -> (kept: bool)
    ensures
        keep_piece(piece@, old(out).deep_view()) ==> final(out)@ == old(out)@.push(piece)
            && kept,
        !keep_piece(piece@, old(out).deep_view()) ==> final(out)@ == old(out)@ && !kept,
        final(out).deep_view() == if keep_piece(piece@, old(out).deep_view()) {
            old(out).deep_view().push(piece@)
        } else {
            old(out).deep_view()
        },
{
    let keep = piece.len() > 0 && !(piece.len() == 1 && piece[0] == 0x2e && out.len() > 0);
    proof {
        assert((piece@ == seq![0x2eu8]) == (piece@.len() == 1 && piece@[0] == 0x2e)) by {
            if piece@.len() == 1 && piece@[0] == 0x2e {
                assert(piece@ =~= seq![0x2eu8]);
            }
        }
    }
    if keep {
        let ghost before = out.deep_view();
        out.push(piece);
        proof {
            assert(out.deep_view() =~~= before.push(out@.last()@));
        }
        true
    } else {
        false
    }
}

/// Split a path into its components.
fn split_components(path: &[u8]) -> (r: Vec<Vec<u8>>)
    ensures
        r.deep_view() == components_spec(path@),
{
    let mut out: Vec<Vec<u8>> = Vec::new();
    let mut acc: Vec<u8> = Vec::new();
    let mut j: usize = 0;
    if path.len() > 0 && path[0] == 0x2f {
        let mut root: Vec<u8> = Vec::new();
        root.push(0x2f);
        out.push(root);
        j = 1;
        proof {
            assert(out.deep_view() =~~= seq![seq![0x2fu8]]);
        }
    } else {
        proof {
            assert(out.deep_view() =~~= Seq::<Seq<u8>>::empty());
        }
    }
    let ghost j0 = j as int;
    let ghost full = components_spec(path@);
    proof {
        assert(acc@ =~= Seq::<u8>::empty());
        assert(full == comps_from(path@, j0, acc@, out.deep_view()));
    }
    while j < path.len()
        invariant
            j0 <= j,
            j <= path.len() || j0 >= path@.len(),
            full == comps_from(path@, j as int, acc@, out.deep_view()),
        decreases path@.len() - j,
    {
        if path[j] == 0x2f {
            let piece = acc;
            acc = Vec::new();
            push_piece(&mut out, piece);
            proof {
                assert(acc@ =~= Seq::<u8>::empty());
            }
        } else {
            acc.push(path[j]);
        }
        j = j + 1;
    }
    push_piece(&mut out, acc);
    proof {
        assert(full == out.deep_view());
    }
    out
}

// ---------------------------------------------------------------------------
// Single-component pattern matching with `*`
// ---------------------------------------------------------------------------
/// Forward scan: both indices advance together until the pattern shows a `*`,
/// a byte differs (no match), or either side runs out.
pub open spec fn fpm_forward(p: Seq<u8>, q: Seq<u8>, k: int) -> Option<int>
    decreases p.len() - k,
{
    if !(0 <= k < p.len()) || k >= q.len() {
        Some(k)
    } else if p[k] == 0x2a {
        Some(k)
    } else if p[k] != q[k] {
        None
    } else {
        fpm_forward(p, q, k + 1)
    }
}

/// Backward scan from the ends, down to the star position.
pub open spec fn fpm_backward(p: Seq<u8>, q: Seq<u8>, star_pos: int, i: int, j: int) -> bool
    decreases i + 1,
{
    if i > star_pos && j > 0 && 0 <= i {
        if p[i] != q[j] {
            false
        } else {
            fpm_backward(p, q, star_pos, i - 1, j - 1)
        }
    } else {
        !(i > star_pos && j == 0 && p[i] != q[j])
    }
}

/// Matching one path component against one pattern component that may hold a
/// single `*`: the text before the first `*` must match at the front, and the
/// text after it is compared from the back.
pub open spec fn file_pattern_match(p: Seq<u8>, q: Seq<u8>) -> bool {
    match fpm_forward(p, q, 0) {
        None => false,
        Some(k) => {
            if k == p.len() && k == q.len() {
                true
            } else {
                let star_pos = if k < p.len() && k < q.len() && p[k] == 0x2a {
                    k
                } else {
                    p.len() as int
                };
                fpm_backward(p, q, star_pos, p.len() - 1, q.len() - 1)
            }
        },
    }
}

// ---------------------------------------------------------------------------
// The component walk
// ---------------------------------------------------------------------------
/// The component-by-component walk of the glob matcher: `**` stands for one
/// component in the middle of a path, or for any tail at the end; a component
/// holding `*` falls back to single-component pattern matching when it stands
/// against the last path component.
pub open spec fn glob_walk(pat: Seq<Seq<u8>>, pth: Seq<Seq<u8>>, pi: int, qi: int) -> bool
    decreases pat.len() - pi,
{
    if pi < pat.len() && qi < pth.len() {
        let p = pat[pi];
        let q = pth[qi];
        if qi + 1 < pth.len() {
            if pi + 1 < pat.len() {
                if p != dstar() && p != q {
                    false
                } else {
                    glob_walk(pat, pth, pi + 1, qi + 1)
                }
            } else {
                p == dstar()
            }
        } else {
            if pi + 1 < pat.len() {
                if p == dstar() {
                    let next = pat[pi + 1];
                    if next.contains(0x2a) {
                        file_pattern_match(next, q)
                    } else if next != q {
                        false
                    } else {
                        true
                    }
                } else {
                    false
                }
            } else if p == dstar() {
                true
            } else if p.contains(0x2a) {
                file_pattern_match(p, q)
            } else {
                p == q
            }
        }
    } else if pi >= pat.len() && qi >= pth.len() {
        true
    } else if pi < pat.len() {
        pat[pi] == dstar()
    } else {
        false
    }
}

/// What the glob matcher decides for a pattern and a path, both split into
/// components.
pub open spec fn glob_match(pattern: Seq<u8>, path: Seq<u8>) -> bool {
    glob_walk(components_spec(pattern), components_spec(path), 0, 0)
}

/// A path-glob pattern, matched component by component against file paths.
pub struct Glob {
    pub glob_pattern: String,
}

impl View for Glob {
    type V = Seq<u8>;

    open spec fn view(&self) -> Seq<u8> {
        encode_utf8(self.glob_pattern@)
    }
}

fn vec_eq(a: &Vec<u8>, b: &Vec<u8>) -> (r: bool)
    ensures
        r == (a@ == b@),
{
    if a.len() != b.len() {
        return false;
    }
    let mut k: usize = 0;
    while k < a.len()
        invariant
            k <= a.len(),
            a@.len() == b@.len(),
            forall|t: int| 0 <= t < k ==> a@[t] == b@[t],
        decreases a@.len() - k,
    {
        if a[k] != b[k] {
            return false;
        }
        k = k + 1;
    }
    proof {
        assert(a@ =~= b@);
    }
    true
}

fn is_dstar(v: &Vec<u8>) -> (r: bool)
    ensures
        r == (v@ == dstar()),
{
    let r = v.len() == 2 && v[0] == 0x2a && v[1] == 0x2a;
    proof {
        if v@.len() == 2 && v@[0] == 0x2a && v@[1] == 0x2a {
            assert(v@ =~= dstar());
        }
    }
    r
}

fn contains_star(v: &Vec<u8>) -> (r: bool)
    ensures
        r == v@.contains(0x2au8),
{
    let mut k: usize = 0;
    while k < v.len()
        invariant
            k <= v.len(),
            forall|t: int| 0 <= t < k ==> v@[t] != 0x2a,
        decreases v@.len() - k,
    {
        if v[k] == 0x2a {
            return true;
        }
        k = k + 1;
    }
    false
}

impl Glob {
    /// Remember a pattern for later matching.
    pub fn new(pattern: &String) -> (r: Self)
        ensures
            r@ == encode_utf8(pattern@),
    {
        Glob { glob_pattern: pattern.clone() }
    }

    fn fpm_forward_scan(pattern: &Vec<u8>, leafname: &Vec<u8>) -> (r: Option<usize>)
        ensures
            match r {
                Some(k) => fpm_forward(pattern@, leafname@, 0) == Some(k as int) && k
                    <= pattern@.len() && k <= leafname@.len(),
                None => fpm_forward(pattern@, leafname@, 0) is None,
            },
    {
        let mut k: usize = 0;
        loop
            invariant
                k <= pattern@.len(),
                k <= leafname@.len(),
                fpm_forward(pattern@, leafname@, 0) == fpm_forward(pattern@, leafname@, k as int),
            decreases pattern@.len() - k,
        {
            if k >= pattern.len() || k >= leafname.len() {
                return Some(k);
            }
            if pattern[k] == 0x2a {
                return Some(k);
            }
            if pattern[k] != leafname[k] {
                return None;
            }
            k = k + 1;
        }
    }

    fn is_file_pattern_match(pattern: &Vec<u8>, leafname: &Vec<u8>) -> (r: bool)
        requires
            pattern@.len() > 0,
            leafname@.len() > 0,
        ensures
            r == file_pattern_match(pattern@, leafname@),
    {
        let p_len = pattern.len();
        let q_len = leafname.len();
        let k = match Self::fpm_forward_scan(pattern, leafname) {
            None => {
                return false;
            },
            Some(k) => k,
        };
        if k == p_len && k == q_len {
            return true;
        }
        let star_pos: usize = if k < p_len && k < q_len && pattern[k] == 0x2a {
            k
        } else {
            p_len
        };
        let mut i = p_len - 1;
        let mut j = q_len - 1;
        while i > star_pos && j > 0
            invariant
                i < p_len,
                j < q_len,
                p_len == pattern@.len(),
                q_len == leafname@.len(),
                fpm_forward(pattern@, leafname@, 0) == Some(k as int),
                !(k == p_len && k == q_len),
                star_pos as int == (if (k as int) < pattern@.len() && (k as int)
                    < leafname@.len() && pattern@[k as int] == 0x2a {
                    k as int
                } else {
                    pattern@.len() as int
                }),
                fpm_backward(pattern@, leafname@, star_pos as int, p_len - 1, q_len - 1)
                    == fpm_backward(pattern@, leafname@, star_pos as int, i as int, j as int),
            decreases i,
        {
            if pattern[i] != leafname[j] {
                return false;
            }
            i = i - 1;
            j = j - 1;
        }
        if i > star_pos && j == 0 && pattern[i] != leafname[j] {
            return false;
        }
        true
    }

    /// Whether the pattern matches the given path.
    pub fn is_match(&self, filename: &String) -> (r: bool)
        ensures
            r == glob_match(self@, encode_utf8(filename@)),
    {
        let pat = split_components(self.glob_pattern.as_str().as_bytes());
        let pth = split_components(filename.as_str().as_bytes());
        proof {
            lemma_components_nonempty(self@);
            lemma_components_nonempty(encode_utf8(filename@));
        }
        let ghost patv = pat.deep_view();
        let ghost pthv = pth.deep_view();
        let mut pi: usize = 0;
        let mut qi: usize = 0;
        loop
            invariant
                pi <= pat@.len(),
                qi <= pth@.len(),
                patv == pat.deep_view(),
                pthv == pth.deep_view(),
                patv == components_spec(self@),
                pthv == components_spec(encode_utf8(filename@)),
                forall|t: int| 0 <= t < patv.len() ==> (#[trigger] patv[t]).len() > 0,
                forall|t: int| 0 <= t < pthv.len() ==> (#[trigger] pthv[t]).len() > 0,
                glob_walk(patv, pthv, 0, 0) == glob_walk(patv, pthv, pi as int, qi as int),
            decreases patv.len() - pi,
        {
            proof {
                assert(pi < pat@.len() ==> patv[pi as int] == pat@[pi as int]@);
                assert(qi < pth@.len() ==> pthv[qi as int] == pth@[qi as int]@);
            }
            if pi < pat.len() && qi < pth.len() {
                let p = &pat[pi];
                let q = &pth[qi];
                if qi + 1 < pth.len() {
                    if pi + 1 < pat.len() {
                        if !is_dstar(p) && !vec_eq(p, q) {
                            return false;
                        }
                        pi = pi + 1;
                        qi = qi + 1;
                    } else {
                        return is_dstar(p);
                    }
                } else {
                    if pi + 1 < pat.len() {
                        if is_dstar(p) {
                            proof {
                                assert(patv[pi + 1] == pat@[pi + 1]@);
                            }
                            let next = &pat[pi + 1];
                            if contains_star(next) {
                                return Self::is_file_pattern_match(next, q);
                            } else if !vec_eq(next, q) {
                                return false;
                            }
                            return true;
                        } else {
                            return false;
                        }
                    } else if is_dstar(p) {
                        return true;
                    } else if contains_star(p) {
                        return Self::is_file_pattern_match(p, q);
                    } else if !vec_eq(p, q) {
                        return false;
                    }
                    return true;
                }
            } else if pi >= pat.len() && qi >= pth.len() {
                return true;
            } else if pi < pat.len() {
                return is_dstar(&pat[pi]);
            } else {
                return false;
            }
        }
    }
}

} // verus!
