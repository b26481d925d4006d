use vstd::prelude::*;

use vstd::utf8::encode_utf8;

verus! {

// ---------------------------------------------------------------------------
// Substring search
// ---------------------------------------------------------------------------
/// The needle occurs in the haystack exactly at offset `i`.
pub open spec fn matches_at(hay: Seq<u8>, needle: Seq<u8>, i: int) -> bool {
    0 <= i && i + needle.len() <= hay.len() && hay.subrange(i, i + needle.len()) == needle
}

/// The needle occurs somewhere in the haystack.
pub open spec fn spec_contains(hay: Seq<u8>, needle: Seq<u8>) -> bool {
    exists|i: int| matches_at(hay, needle, i)
}

fn match_at_exec(hay: &[u8], needle: &[u8], i: usize) -> (r: bool)
    requires
        i + needle@.len() <= hay@.len(),
    ensures
        r == matches_at(hay@, needle@, i as int),
{
    let n = hay.len();
    let m = needle.len();
    let mut k: usize = 0;
    while k < m
        invariant
            k <= m,
            n == hay@.len(),
            m == needle@.len(),
            i + m <= hay@.len(),
            forall|t: int| 0 <= t < k ==> hay@[i + t] == needle@[t],
        decreases m - k,
    {
        if hay[i + k] != needle[k] {
            proof {
                if matches_at(hay@, needle@, i as int) {
                    assert(hay@.subrange(i as int, i + needle@.len())[k as int]
                        == needle@[k as int]);
                }
            }
            return false;
        }
        k = k + 1;
    }
    proof {
        assert(hay@.subrange(i as int, i + needle@.len()) =~= needle@);
    }
    true
}

/// Whether one byte string occurs inside another.
pub fn contains_bytes(hay: &[u8], needle: &[u8]) -> (r: bool)
    ensures
        r == spec_contains(hay@, needle@),
{
    let n = hay.len();
    let m = needle.len();
    if m > n {
        proof {
            assert(forall|i: int| !matches_at(hay@, needle@, i));
        }
        return false;
    }
    if m == 0 {
        proof {
            assert(hay@.subrange(0, 0) =~= needle@);
            assert(matches_at(hay@, needle@, 0));
        }
        return true;
    }
    let mut i: usize = 0;
    while i <= n - m
        invariant
            1 <= m <= n,
            n == hay@.len(),
            m == needle@.len(),
            i <= n - m + 1,
            forall|t: int| 0 <= t < i ==> !matches_at(hay@, needle@, t),
        decreases n - m + 1 - i,
    {
        if match_at_exec(hay, needle, i) {
            proof {
                assert(matches_at(hay@, needle@, i as int));
            }
            return true;
        }
        i = i + 1;
    }
    proof {
        assert(forall|t: int| i <= t ==> !matches_at(hay@, needle@, t));
    }
    false
}

/// Whether the pattern occurs in the line as a substring. Stated over the
/// UTF-8 encodings of the two strings; an encoded substring match coincides
/// with text containment, since UTF-8 is self-synchronizing.
pub fn is_match(pattern: &String, line: &String) -> (r: bool)
    ensures
        r == spec_contains(encode_utf8(line@), encode_utf8(pattern@)),
{
    contains_bytes(line.as_str().as_bytes(), pattern.as_str().as_bytes())
}

/// What lowercasing a text yields; the result depends on the characters
/// alone.
pub uninterp spec fn lower_of(s: Seq<char>) -> Seq<char>;

/// Relies on str::to_lowercase: the lowercase mapping of the string's
/// characters, a function of those characters alone.
#[verifier::external_body]
fn lowercase(s: &str) -> (r: String)
    ensures
        r@ == lower_of(s@),
{
    s.to_lowercase()
}

/// Case-insensitive containment: both texts are lowercased first.
pub fn is_case_insensitive_match(pattern: &String, line: &String) -> (r: bool)
    ensures
        r == spec_contains(encode_utf8(lower_of(line@)), encode_utf8(lower_of(pattern@))),
{
    let p = lowercase(pattern.as_str());
    let l = lowercase(line.as_str());
    is_match(&p, &l)
}

// ---------------------------------------------------------------------------
// Per-line matching state
// ---------------------------------------------------------------------------
/// The options a search runs under.
#[derive(Clone, Debug)]
pub struct GrepState {
    pub pattern: String,
    pub ignore_case: bool,
    pub invert_match: bool,
    pub no_messages: bool,
    pub max_count: u32,
    pub show_line_number: bool,
    pub with_filename: bool,
    pub devices: String,
    pub recursive: bool,
    pub files_without_match: bool,
    pub count: bool,
}

/// One reported match: the line, its one-based number, and the file it came
/// from.
#[derive(Debug, PartialEq, Eq)]
pub struct GrepData {
    pub line_number: u32,
    pub line: String,
    pub filename: String,
}

impl Default for GrepData {
    fn default() -> (r: Self)
        ensures
            r.line_number == 0,
            r.line@ == Seq::<char>::empty(),
            r.filename@ == Seq::<char>::empty(),
    {
        GrepData { line_number: 0, line: String::new(), filename: String::new() }
    }
}

/// Whether a line is reported under the given options.
pub open spec fn line_matches(state: GrepState, line: Seq<char>) -> bool {
    let base = if state.ignore_case {
        spec_contains(encode_utf8(lower_of(line)), encode_utf8(lower_of(state.pattern@)))
    } else {
        spec_contains(encode_utf8(line), encode_utf8(state.pattern@))
    };
    if state.invert_match {
        !base
    } else {
        base
    }
}

/// The first readable, matching line at or after `from`; unreadable lines are
/// skipped but keep their place in the numbering.
pub open spec fn first_match_idx(lines: Seq<Option<String>>, state: GrepState, from: int) -> Option<
    int,
>
    decreases lines.len() - from,
{
    if !(0 <= from < lines.len()) {
        None
    } else {
        match lines[from] {
            Some(l) => if line_matches(state, l@) {
                Some(from)
            } else {
                first_match_idx(lines, state, from + 1)
            },
            None => first_match_idx(lines, state, from + 1),
        }
    }
}

/// Steps through the lines of one file and yields each reported match in
/// order.
pub struct GrepIterator {
    pub lines: Vec<Option<String>>,
    pub idx: usize,
    pub grep_state: GrepState,
    pub filename: String,
}

impl GrepIterator {
    /// Start a pass over the lines of one file; an unreadable line is `None`,
    /// which is skipped but still counted in line numbers.
    pub fn new(lines: Vec<Option<String>>, grep_state: &GrepState, filename: String) -> (r: Self)
        requires
            lines@.len() < u32::MAX,
        ensures
            r.lines == lines,
            r.idx == 0,
            r.grep_state == *grep_state,
            r.filename == filename,
    {
        GrepIterator {
            lines,
            idx: 0,
            grep_state: GrepState {
                pattern: grep_state.pattern.clone(),
                ignore_case: grep_state.ignore_case,
                invert_match: grep_state.invert_match,
                no_messages: grep_state.no_messages,
                max_count: grep_state.max_count,
                show_line_number: grep_state.show_line_number,
                with_filename: grep_state.with_filename,
                devices: grep_state.devices.clone(),
                recursive: grep_state.recursive,
                files_without_match: grep_state.files_without_match,
                count: grep_state.count,
            },
            filename,
        }
    }

    /// The next reported match at or after the current position, with its
    /// one-based line number, or `None` when no line remains.
    pub fn next(&mut self) -> (r: Option<GrepData>)
        requires
            old(self).lines@.len() < u32::MAX,
            old(self).idx <= old(self).lines@.len(),
        ensures
            final(self).lines == old(self).lines,
            final(self).grep_state == old(self).grep_state,
            final(self).filename == old(self).filename,
            match first_match_idx(old(self).lines@, old(self).grep_state, old(self).idx as int) {
                Some(k) => r matches Some(gd) && gd.line_number as int == k + 1 && gd.line == old(
                    self,
                ).lines@[k]->Some_0 && gd.filename == old(self).filename && final(self).idx as int
                    == k + 1,
                None => r is None && final(self).idx == old(self).lines@.len(),
            },
    {
        loop
            invariant
                self.lines == old(self).lines,
                self.grep_state == old(self).grep_state,
                self.filename == old(self).filename,
                self.lines@.len() < u32::MAX,
                old(self).idx <= self.idx <= self.lines@.len(),
                first_match_idx(old(self).lines@, old(self).grep_state, old(self).idx as int)
                    == first_match_idx(self.lines@, self.grep_state, self.idx as int),
            decreases self.lines@.len() - self.idx,
        {
            if self.idx >= self.lines.len() {
                return None;
            }
            let i = self.idx;
            self.idx = i + 1;
            match &self.lines[i] {
                None => {},
                Some(line) => {
                    let mut flag: bool;
                    if self.grep_state.ignore_case {
                        flag = is_case_insensitive_match(&self.grep_state.pattern, line);
                    } else {
                        flag = is_match(&self.grep_state.pattern, line);
                    }
                    if self.grep_state.invert_match {
                        flag = !flag;
                    }
                    if flag {
                        return Some(
                            GrepData {
                                line_number: (i as u32) + 1,
                                line: line.clone(),
                                filename: self.filename.clone(),
                            },
                        );
                    }
                },
            }
        }
    }
}

// ---------------------------------------------------------------------------
// Partitioning work among workers
// ---------------------------------------------------------------------------
/// The mathematical content of a list of string lists.
pub open spec fn views_of(vs: Seq<Vec<String>>) -> Seq<Seq<String>> {
    vs.map_values(|v: Vec<String>| v@)
}

/// Consecutive chunks of `size` directories starting at `start`, at most
/// `remaining` of them, stopping early when a whole chunk no longer fits.
pub open spec fn chunks_spec(dirs: Seq<String>, size: int, remaining: int, start: int) -> Seq<
    Seq<String>,
>
    decreases remaining,
{
    if remaining <= 0 {
        Seq::empty()
    } else if start + size > dirs.len() || start < 0 || size < 0 {
        Seq::empty()
    } else {
        seq![dirs.subrange(start, start + size)] + chunks_spec(
            dirs,
            size,
            remaining - 1,
            start + size,
        )
    }
}

/// How the files and directories are divided: the plain files all go to the
/// first worker; the directories are dealt out in equal consecutive chunks to
/// the remaining workers, leaving a tail unassigned when it does not fill a
/// chunk.
pub open spec fn divide_spec(files: Seq<String>, dirs: Seq<String>, n_workers: int) -> Seq<
    Seq<String>,
> {
    let nw = n_workers - 1;
    if dirs.len() == 0 && nw == 1 {
        seq![files]
    } else {
        let per = if dirs.len() == 0 {
            0
        } else {
            (dirs.len() - 1) / nw
        };
        seq![files] + chunks_spec(dirs, per + 1, nw, 0)
    }
}

/// Partition the collected plain files and directories among `n_workers`
/// workers.
pub fn divide_files_by_workers(files: Vec<String>, dirs: Vec<String>, n_workers: usize) -> (r: Vec<
    Vec<String>,
>)
    requires
        2 <= n_workers,
        dirs@.len() <= i32::MAX,
    ensures
        views_of(r@) == divide_spec(files@, dirs@, n_workers as int),
{
    let ghost goal = divide_spec(files@, dirs@, n_workers as int);
    let mut result: Vec<Vec<String>> = Vec::new();
    let ghost filesv = files@;
    result.push(files);
    proof {
        assert(views_of(result@) =~= seq![filesv]);
    }
    let nw = n_workers - 1;
    if dirs.len() == 0 && nw == 1 {
        return result;
    }
    let per_job: usize = if dirs.len() == 0 {
        0
    } else {
        (dirs.len() - 1) / nw
    };
    let size = per_job + 1;
    let mut left = nw;
    let mut start: usize = 0;
    proof {
        assert(goal == views_of(result@) + chunks_spec(
            dirs@,
            size as int,
            left as int,
            start as int,
        ));
    }
    while left > 0
        invariant
            size >= 1,
            size <= dirs@.len() + 1,
            start <= dirs@.len(),
            dirs@.len() <= i32::MAX,
            filesv == files@,
            goal == divide_spec(filesv, dirs@, n_workers as int),
            goal == views_of(result@) + chunks_spec(
                dirs@,
                size as int,
                left as int,
                start as int,
            ),
        decreases left,
    {
        if start + size > dirs.len() {
            proof {
                assert(chunks_spec(dirs@, size as int, left as int, start as int)
                    =~= Seq::<Seq<String>>::empty());
                assert(goal =~= views_of(result@));
            }
            return result;
        }
        let end = start + size;
        let mut chunk: Vec<String> = Vec::new();
        let mut t = start;
        proof {
            assert(chunk@ =~= dirs@.subrange(start as int, start as int));
        }
        while t < end
            invariant
                start <= t <= end,
                end <= dirs@.len(),
                chunk@ == dirs@.subrange(start as int, t as int),
            decreases end - t,
        {
            proof {
                assert(dirs@.subrange(start as int, t + 1) =~= dirs@.subrange(
                    start as int,
                    t as int,
                ).push(dirs@[t as int]));
            }
            chunk.push(dirs[t].clone());
            t = t + 1;
        }
        proof {
            assert(views_of(result@.push(chunk)) =~= views_of(result@).push(chunk@));
        }
        result.push(chunk);
        left = left - 1;
        start = end;
    }
    proof {
        assert(chunks_spec(dirs@, size as int, 0, start as int) =~= Seq::<Seq<String>>::empty());
        assert(goal =~= views_of(result@));
    }
    result
}

} // verus!
